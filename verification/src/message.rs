//! The message record, its mathematical view, and the error taxonomy.

use vstd::prelude::*;

use crate::principal::Principal;

verus! {

/// One stored message.
///
/// `replies` holds the identifiers of the live children of this message, in
/// the order they were created; `parent_id` points at the message this one
/// replies to, or is `None` for a top-level post. `likes` is part of the
/// record shape but no operation mutates it.
pub struct Message {
    pub id: u64,
    pub author: Principal,
    pub content: String,
    pub created_at: u64,
    pub updated_at: Option<u64>,
    pub likes: u32,
    pub replies: Vec<u64>,
    pub parent_id: Option<u64>,
}

/// The mathematical value of a [`Message`]: the same fields over sequences
/// instead of vectors and strings.
pub struct MessageView {
    pub id: u64,
    pub author: Seq<u8>,
    pub content: Seq<char>,
    pub created_at: u64,
    pub updated_at: Option<u64>,
    pub likes: u32,
    pub replies: Seq<u64>,
    pub parent_id: Option<u64>,
}

impl View for Message {
    type V = MessageView;

    open spec fn view(&self) -> MessageView {
        MessageView {
            id: self.id,
            author: self.author@,
            content: self.content@,
            created_at: self.created_at,
            updated_at: self.updated_at,
            likes: self.likes,
            replies: self.replies@,
            parent_id: self.parent_id,
        }
    }
}

/// Copies a vector of identifiers element by element.
fn clone_ids(v: &Vec<u64>) -> (r: Vec<u64>)
    ensures
        r@ == v@,
{
    let mut r: Vec<u64> = Vec::new();
    let mut i: usize = 0;
    while i < v.len()
        invariant
            i <= v.len(),
            r@ == v@.subrange(0, i as int),
        decreases v.len() - i,
    {
        r.push(v[i]);
        i = i + 1;
    }
    proof {
        assert(r@ =~= v@);
    }
    r
}

impl Clone for Message {
    /// A clone is a snapshot: it has the same view as the original.
    fn clone(&self) -> (r: Self)
        ensures
            r@ == self@,
    {
        Message {
            id: self.id,
            author: self.author.clone(),
            content: self.content.clone(),
            created_at: self.created_at,
            updated_at: self.updated_at,
            likes: self.likes,
            replies: clone_ids(&self.replies),
            parent_id: self.parent_id,
        }
    }
}

/// The sequence of mathematical values of a sequence of messages.
pub open spec fn views_of(s: Seq<Message>) -> Seq<MessageView> {
    s.map_values(|m: Message| m@)
}

/// Everything that can go wrong in a store operation.
///
/// Errors are returned as values; no operation panics, and no operation
/// changes the store when it returns an error.
#[derive(Clone, Copy, PartialEq, Eq, Structural, Debug)]
pub enum MessageError {
    /// The identifier is not that of a live message.
    NotFound,
    /// The content is empty or whitespace-only.
    EmptyContent,
    /// The caller is not the author of the message.
    Unauthorized,
    /// The requested parent is not a live message.
    InvalidParent,
    /// The identifier is already recorded in the deleted-id set.
    AlreadyDeleted,
}

} // verus!
