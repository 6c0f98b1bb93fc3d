//! The message store: a message table in ascending identifier order, the
//! monotonic identifier counter, the per-author counts, and the set of
//! deleted identifiers, kept mutually consistent by every operation.

use vstd::prelude::*;

use crate::counts::AuthorCount;
use crate::counts::AuthorCountView;
use crate::counts::authors_unique;
use crate::counts::count_in;
use crate::counts::lemma_count_in_absent;
use crate::counts::lemma_count_in_at;
use crate::counts::lemma_count_in_push;
use crate::counts::lemma_count_in_update;
use crate::message::Message;
use crate::message::MessageError;
use crate::message::MessageView;
use crate::message::views_of;
use crate::principal::Principal;
use crate::seqs::lemma_filter_empty_iff;
use crate::seqs::lemma_filter_membership;
use crate::seqs::lemma_filter_nodup;
use crate::seqs::lemma_filter_push;
use crate::seqs::lemma_filter_remove_len;
use crate::seqs::lemma_filter_update_len;
use crate::text::check_blank;
use crate::text::is_blank;

verus! {

/// The predicate selecting messages written by `a`.
pub open spec fn by_author(a: Seq<u8>) -> spec_fn(MessageView) -> bool {
    |m: MessageView| m.author == a
}

/// The predicate keeping every identifier other than `id`.
pub open spec fn keep_other(id: u64) -> spec_fn(u64) -> bool {
    |x: u64| x != id
}

/// The view of a freshly created message.
pub open spec fn new_message_view(
    id: u64,
    author: Seq<u8>,
    content: Seq<char>,
    now: u64,
    parent_id: Option<u64>,
) -> MessageView {
    MessageView {
        id,
        author,
        content,
        created_at: now,
        updated_at: None,
        likes: 0,
        replies: Seq::empty(),
        parent_id,
    }
}

/// `m` with the identifier of a new child appended to its reply list.
pub open spec fn with_reply(m: MessageView, id: u64) -> MessageView {
    MessageView { replies: m.replies.push(id), ..m }
}

/// `m` with the identifier of a deleted child struck from its reply list.
pub open spec fn without_reply(m: MessageView, id: u64) -> MessageView {
    MessageView { replies: m.replies.filter(keep_other(id)), ..m }
}

/// `m` after an edit: new content, `updated_at` set to the edit time.
pub open spec fn with_content(m: MessageView, content: Seq<char>, now: u64) -> MessageView {
    MessageView { content, updated_at: Some(now), ..m }
}

/// Table order: identifiers strictly ascending.
pub open spec fn ids_sorted(s: Seq<MessageView>) -> bool {
    forall|i: int, j: int| 0 <= i < j < s.len() ==> s[i].id < s[j].id
}

/// Every identifier in the table was issued: at least 1 and below the counter.
pub open spec fn ids_bounded(s: Seq<MessageView>, next: u64) -> bool {
    forall|i: int| 0 <= i < s.len() ==> 1 <= #[trigger] s[i].id < next
}

/// The two directions of the reply chain, for live messages:
/// every listed reply is a live child, every live child is listed, no reply
/// is listed twice, and a parent always has a smaller identifier.
pub open spec fn links_ok(s: Seq<MessageView>) -> bool {
    &&& forall|i: int, j: int|
        0 <= i < s.len() && 0 <= j < s[i].replies.len() ==> exists|k: int|
            0 <= k < s.len() && s[k].id == #[trigger] s[i].replies[j] && s[k].parent_id == Some(
                s[i].id,
            )
    &&& forall|i: int, k: int|
        0 <= i < s.len() && 0 <= k < s.len() && #[trigger] s[k].parent_id == Some(
            #[trigger] s[i].id,
        ) ==> s[i].replies.contains(s[k].id)
    &&& forall|i: int, j1: int, j2: int|
        0 <= i < s.len() && 0 <= j1 < j2 < s[i].replies.len() ==> #[trigger] s[i].replies[j1]
            != #[trigger] s[i].replies[j2]
    &&& forall|i: int|
        0 <= i < s.len() ==> match #[trigger] s[i].parent_id {
            Some(p) => p < s[i].id,
            None => true,
        }
}

/// Two stores hold the same state: same table, counter, counts and
/// deleted-id record. Failed operations leave the store in the same state.
pub open spec fn same_state(a: MessageStore, b: MessageStore) -> bool {
    &&& a.msgs() == b.msgs()
    &&& a.counter() == b.counter()
    &&& a.counts() == b.counts()
    &&& a.deleted_seq() == b.deleted_seq()
}

/// In a table with strictly ascending identifiers starting at 1 or above,
/// the identifier at index `i` is at least `i + 1`.
proof fn lemma_sorted_id_lower(s: Seq<MessageView>, i: int)
    requires
        ids_sorted(s),
        forall|k: int| 0 <= k < s.len() ==> #[trigger] s[k].id >= 1,
        0 <= i < s.len(),
    ensures
        s[i].id >= i + 1,
    decreases i,
{
    if i > 0 {
        lemma_sorted_id_lower(s, i - 1);
    }
}

/// A table whose identifiers were all issued by the counter is shorter than
/// the counter's value.
pub proof fn lemma_table_len_bound(s: Seq<MessageView>, next: u64)
    requires
        ids_sorted(s),
        ids_bounded(s, next),
        next >= 1,
    ensures
        s.len() < next,
{
    if s.len() > 0 {
        lemma_sorted_id_lower(s, s.len() - 1);
    }
}

/// Appending a fresh top-level message preserves the reply-chain invariant.
proof fn lemma_links_after_create_root(s: Seq<MessageView>, mv: MessageView)
    requires
        links_ok(s),
        forall|i: int| 0 <= i < s.len() ==> #[trigger] s[i].id < mv.id,
        mv.replies == Seq::<u64>::empty(),
        mv.parent_id is None,
    ensures
        links_ok(s.push(mv)),
{
    let t = s.push(mv);
    assert(forall|i: int| 0 <= i < s.len() ==> t[i] == #[trigger] s[i]);
    assert forall|i: int, j: int|
        0 <= i < t.len() && 0 <= j < t[i].replies.len() implies exists|k: int|
        0 <= k < t.len() && t[k].id == #[trigger] t[i].replies[j] && t[k].parent_id == Some(
        t[i].id,
    ) by {
        if i < s.len() {
            assert(s[i].replies[j] == t[i].replies[j]);
            let k = choose|k: int|
                0 <= k < s.len() && s[k].id == s[i].replies[j] && s[k].parent_id == Some(s[i].id);
            assert(0 <= k < t.len() && t[k].id == t[i].replies[j] && t[k].parent_id == Some(
                t[i].id,
            ));
        }
    }
    assert forall|i: int, k: int|
        0 <= i < t.len() && 0 <= k < t.len() && #[trigger] t[k].parent_id == Some(
        #[trigger] t[i].id,
    ) implies t[i].replies.contains(t[k].id) by {
        if k < s.len() {
            if i < s.len() {
                assert(s[i].replies.contains(s[k].id));
            } else {
                assert(match s[k].parent_id {
                    Some(p) => p < s[k].id,
                    None => true,
                });
                assert(false);
            }
        }
    }
}

/// Appending a fresh child and recording it in its parent's reply list
/// preserves the reply-chain invariant.
proof fn lemma_links_after_create_child(s: Seq<MessageView>, j: int, mv: MessageView)
    requires
        links_ok(s),
        ids_sorted(s),
        0 <= j < s.len(),
        forall|i: int| 0 <= i < s.len() ==> #[trigger] s[i].id < mv.id,
        mv.replies == Seq::<u64>::empty(),
        mv.parent_id == Some(s[j].id),
    ensures
        links_ok(s.update(j, with_reply(s[j], mv.id)).push(mv)),
{
    let n = mv.id;
    let t = s.update(j, with_reply(s[j], n)).push(mv);
    let len = s.len() as int;
    assert(forall|i: int| 0 <= i < len && i != j ==> t[i] == #[trigger] s[i]);
    assert(t[j].id == s[j].id && t[j].parent_id == s[j].parent_id && t[j].replies == s[j].replies.push(n));
    assert(forall|i: int| 0 <= i < len ==> #[trigger] t[i].id == s[i].id);
    assert(forall|i: int| 0 <= i < len ==> #[trigger] t[i].parent_id == s[i].parent_id);
    assert(t[len] == mv);

    // every listed reply names a live child
    assert forall|i: int, jr: int|
        0 <= i < t.len() && 0 <= jr < t[i].replies.len() implies exists|k: int|
        0 <= k < t.len() && t[k].id == #[trigger] t[i].replies[jr] && t[k].parent_id == Some(
        t[i].id,
    ) by {
        if i < len {
            if i == j && jr == s[j].replies.len() {
                assert(t[i].replies[jr] == n);
                assert(0 <= len < t.len() && t[len].id == n && t[len].parent_id == Some(t[i].id));
            } else {
                assert(t[i].replies[jr] == s[i].replies[jr]);
                let k = choose|k: int|
                    0 <= k < s.len() && s[k].id == s[i].replies[jr] && s[k].parent_id == Some(
                        s[i].id,
                    );
                assert(0 <= k < t.len() && t[k].id == t[i].replies[jr] && t[k].parent_id == Some(
                    t[i].id,
                ));
            }
        }
    }

    // every live child is listed by its parent
    assert forall|i: int, k: int|
        0 <= i < t.len() && 0 <= k < t.len() && #[trigger] t[k].parent_id == Some(
        #[trigger] t[i].id,
    ) implies t[i].replies.contains(t[k].id) by {
        if k < len && i < len {
            assert(s[k].parent_id == Some(s[i].id));
            assert(s[i].replies.contains(s[k].id));
            let w = choose|w: int| 0 <= w < s[i].replies.len() && s[i].replies[w] == s[k].id;
            assert(t[i].replies[w] == s[k].id);
            assert(t[i].replies.contains(t[k].id));
        }
        if k == len && i < len {
            assert(s[i].id == s[j].id);
            if i != j {
                assert(false);
            }
            assert(t[j].replies[s[j].replies.len() as int] == n);
            assert(t[i].replies.contains(t[k].id));
        }
        if i == len {
            if k < len {
                assert(match s[k].parent_id {
                    Some(p) => p < s[k].id,
                    None => true,
                });
                assert(false);
            } else {
                assert(s[j].id < n);
                assert(false);
            }
        }
    }

    // no reply listed twice
    assert forall|i: int, j1: int, j2: int|
        0 <= i < t.len() && 0 <= j1 < j2 < t[i].replies.len() implies #[trigger] t[i].replies[j1]
        != #[trigger] t[i].replies[j2] by {
        if i == j {
            if j2 == s[j].replies.len() {
                assert(t[i].replies[j1] == s[j].replies[j1]);
                let k = choose|k: int|
                    0 <= k < s.len() && s[k].id == s[j].replies[j1] && s[k].parent_id == Some(
                        s[j].id,
                    );
                assert(s[k].id < n);
            } else {
                assert(t[i].replies[j1] == s[j].replies[j1]);
                assert(t[i].replies[j2] == s[j].replies[j2]);
            }
        } else if i < len {
            assert(t[i].replies == s[i].replies);
        }
    }

    // a parent always has a smaller identifier
    assert forall|i: int| 0 <= i < t.len() implies match #[trigger] t[i].parent_id {
        Some(p) => p < t[i].id,
        None => true,
    } by {
        if i < len {
            assert(t[i].parent_id == s[i].parent_id && t[i].id == s[i].id);
            assert(match s[i].parent_id {
                Some(p) => p < s[i].id,
                None => true,
            });
        } else {
            assert(t[i].parent_id == Some(s[j].id) && s[j].id < n);
        }
    }
}

/// Two tables of the same length whose entries pairwise agree on
/// identifier, parent and reply list satisfy the reply-chain invariant
/// together.
proof fn lemma_links_same_structure(s1: Seq<MessageView>, s2: Seq<MessageView>)
    requires
        s2.len() == s1.len(),
        forall|i: int| 0 <= i < s1.len() ==> #[trigger] s2[i].id == s1[i].id,
        forall|i: int| 0 <= i < s1.len() ==> #[trigger] s2[i].parent_id == s1[i].parent_id,
        forall|i: int| 0 <= i < s1.len() ==> #[trigger] s2[i].replies == s1[i].replies,
        links_ok(s1),
    ensures
        links_ok(s2),
{
    assert forall|i: int, j: int|
        0 <= i < s2.len() && 0 <= j < s2[i].replies.len() implies exists|k: int|
        0 <= k < s2.len() && s2[k].id == #[trigger] s2[i].replies[j] && s2[k].parent_id == Some(
        s2[i].id,
    ) by {
        assert(s1[i].replies[j] == s2[i].replies[j]);
        let k = choose|k: int|
            0 <= k < s1.len() && s1[k].id == s1[i].replies[j] && s1[k].parent_id == Some(s1[i].id);
        assert(0 <= k < s2.len() && s2[k].id == s2[i].replies[j] && s2[k].parent_id == Some(
            s2[i].id,
        ));
    }
    assert forall|i: int, k: int|
        0 <= i < s2.len() && 0 <= k < s2.len() && #[trigger] s2[k].parent_id == Some(
        #[trigger] s2[i].id,
    ) implies s2[i].replies.contains(s2[k].id) by {
        assert(s1[k].parent_id == Some(s1[i].id));
        assert(s1[i].replies.contains(s1[k].id));
    }
    assert forall|i: int, j1: int, j2: int|
        0 <= i < s2.len() && 0 <= j1 < j2 < s2[i].replies.len() implies #[trigger] s2[i].replies[j1]
        != #[trigger] s2[i].replies[j2] by {
        assert(s1[i].replies[j1] != s1[i].replies[j2]);
    }
    assert forall|i: int| 0 <= i < s2.len() implies match #[trigger] s2[i].parent_id {
        Some(p) => p < s2[i].id,
        None => true,
    } by {
        assert(match s1[i].parent_id {
            Some(p) => p < s1[i].id,
            None => true,
        });
    }
}

/// Removing a message that has no live parent — none at all, or one that
/// was deleted earlier — preserves the reply-chain invariant: no remaining
/// reply list names the removed identifier.
proof fn lemma_links_after_delete_orphan(s: Seq<MessageView>, j: int)
    requires
        links_ok(s),
        ids_sorted(s),
        0 <= j < s.len(),
        match s[j].parent_id {
            Some(p) => forall|k: int| 0 <= k < s.len() && k != j ==> #[trigger] s[k].id != p,
            None => true,
        },
    ensures
        links_ok(s.remove(j)),
{
    let t = s.remove(j);
    assert(forall|i: int| 0 <= i < j ==> t[i] == #[trigger] s[i]);
    assert(forall|i: int| j <= i < t.len() ==> t[i] == #[trigger] s[i + 1]);
    assert forall|i: int, jr: int|
        0 <= i < t.len() && 0 <= jr < t[i].replies.len() implies exists|k: int|
        0 <= k < t.len() && t[k].id == #[trigger] t[i].replies[jr] && t[k].parent_id == Some(
        t[i].id,
    ) by {
        let i0 = if i < j {
            i
        } else {
            i + 1
        };
        assert(t[i] == s[i0]);
        let r = t[i].replies[jr];
        assert(s[i0].replies[jr] == r);
        let k0 = choose|k0: int|
            0 <= k0 < s.len() && s[k0].id == r && s[k0].parent_id == Some(s[i0].id);
        if k0 == j {
            assert(s[j].parent_id == Some(s[i0].id));
            assert(i0 != j);
            assert(false);
        }
        let k1 = if k0 < j {
            k0
        } else {
            k0 - 1
        };
        assert(t[k1] == s[k0]);
        assert(0 <= k1 < t.len() && t[k1].id == r && t[k1].parent_id == Some(t[i].id));
    }
    assert forall|i: int, k: int|
        0 <= i < t.len() && 0 <= k < t.len() && #[trigger] t[k].parent_id == Some(
        #[trigger] t[i].id,
    ) implies t[i].replies.contains(t[k].id) by {
        let i0 = if i < j {
            i
        } else {
            i + 1
        };
        let k0 = if k < j {
            k
        } else {
            k + 1
        };
        assert(t[i] == s[i0] && t[k] == s[k0]);
        assert(s[k0].parent_id == Some(s[i0].id));
        assert(s[i0].replies.contains(s[k0].id));
    }
    assert forall|i: int, j1: int, j2: int|
        0 <= i < t.len() && 0 <= j1 < j2 < t[i].replies.len() implies #[trigger] t[i].replies[j1]
        != #[trigger] t[i].replies[j2] by {
        let i0 = if i < j {
            i
        } else {
            i + 1
        };
        assert(t[i] == s[i0]);
        assert(s[i0].replies[j1] != s[i0].replies[j2]);
    }
    assert forall|i: int| 0 <= i < t.len() implies match #[trigger] t[i].parent_id {
        Some(p) => p < t[i].id,
        None => true,
    } by {
        let i0 = if i < j {
            i
        } else {
            i + 1
        };
        assert(t[i] == s[i0]);
        assert(match s[i0].parent_id {
            Some(p) => p < s[i0].id,
            None => true,
        });
    }
}

/// Removing a message and striking its identifier from its live parent's
/// reply list preserves the reply-chain invariant.
proof fn lemma_links_after_delete_child(s: Seq<MessageView>, j: int, k: int)
    requires
        links_ok(s),
        ids_sorted(s),
        0 <= j < s.len(),
        0 <= k < s.remove(j).len(),
        s[j].parent_id == Some(s.remove(j)[k].id),
    ensures
        links_ok(s.remove(j).update(k, without_reply(s.remove(j)[k], s[j].id))),
{
    let rm = s.remove(j);
    let d = s[j].id;
    let t = rm.update(k, without_reply(rm[k], d));
    let kp = if k < j {
        k
    } else {
        k + 1
    };
    assert(forall|i: int| 0 <= i < j ==> rm[i] == #[trigger] s[i]);
    assert(forall|i: int| j <= i < rm.len() ==> rm[i] == #[trigger] s[i + 1]);
    assert(rm[k] == s[kp]);
    assert(forall|i: int| 0 <= i < t.len() && i != k ==> t[i] == #[trigger] rm[i]);
    assert(t[k].id == rm[k].id && t[k].parent_id == rm[k].parent_id);
    assert(t[k].replies == rm[k].replies.filter(keep_other(d)));
    lemma_filter_membership(rm[k].replies, keep_other(d));
    assert(forall|i: int| 0 <= i < t.len() ==> #[trigger] t[i].id == rm[i].id);
    assert(forall|i: int| 0 <= i < t.len() ==> #[trigger] t[i].parent_id == rm[i].parent_id);

    assert forall|i: int, jr: int|
        0 <= i < t.len() && 0 <= jr < t[i].replies.len() implies exists|kk: int|
        0 <= kk < t.len() && t[kk].id == #[trigger] t[i].replies[jr] && t[kk].parent_id == Some(
        t[i].id,
    ) by {
        let i0 = if i < j {
            i
        } else {
            i + 1
        };
        let r = t[i].replies[jr];
        if i == k {
            assert(rm[k].replies.contains(r) && keep_other(d)(r));
            let w = choose|w: int| 0 <= w < rm[k].replies.len() && rm[k].replies[w] == r;
            assert(s[kp].replies[w] == r);
            let k0 = choose|k0: int|
                0 <= k0 < s.len() && s[k0].id == r && s[k0].parent_id == Some(s[kp].id);
            assert(r != d);
            if k0 == j {
                assert(s[j].id == r);
                assert(false);
            }
            let k1 = if k0 < j {
                k0
            } else {
                k0 - 1
            };
            assert(rm[k1] == s[k0]);
            assert(0 <= k1 < t.len() && t[k1].id == r && t[k1].parent_id == Some(s[kp].id));
            assert(t[i].id == s[kp].id);
        } else {
            assert(t[i] == rm[i]);
            assert(s[i0].replies[jr] == r);
            let k0 = choose|k0: int|
                0 <= k0 < s.len() && s[k0].id == r && s[k0].parent_id == Some(s[i0].id);
            if k0 == j {
                assert(s[j].parent_id == Some(s[i0].id));
                assert(s[i0].id == s[kp].id);
                if i0 < kp {
                    assert(s[i0].id < s[kp].id);
                }
                if kp < i0 {
                    assert(s[kp].id < s[i0].id);
                }
                assert(i0 == kp);
                assert(false);
            }
            let k1 = if k0 < j {
                k0
            } else {
                k0 - 1
            };
            assert(rm[k1] == s[k0]);
            assert(0 <= k1 < t.len() && t[k1].id == r && t[k1].parent_id == Some(t[i].id));
        }
    }

    assert forall|i: int, kk: int|
        0 <= i < t.len() && 0 <= kk < t.len() && #[trigger] t[kk].parent_id == Some(
        #[trigger] t[i].id,
    ) implies t[i].replies.contains(t[kk].id) by {
        let i0 = if i < j {
            i
        } else {
            i + 1
        };
        let kk0 = if kk < j {
            kk
        } else {
            kk + 1
        };
        assert(t[i].id == s[i0].id);
        assert(t[kk].parent_id == s[kk0].parent_id);
        assert(t[kk].id == s[kk0].id);
        assert(s[kk0].parent_id == Some(s[i0].id));
        assert(s[i0].replies.contains(s[kk0].id));
        if i == k {
            if s[kk0].id == d {
                if kk0 < j {
                    assert(s[kk0].id < s[j].id);
                }
                if j < kk0 {
                    assert(s[j].id < s[kk0].id);
                }
                assert(false);
            }
            let w = choose|w: int| 0 <= w < s[kp].replies.len() && s[kp].replies[w] == s[kk0].id;
            rm[k].replies.lemma_filter_contains(keep_other(d), w);
            assert(t[i].replies.contains(t[kk].id));
        } else {
            assert(t[i].replies == s[i0].replies);
        }
    }

    assert forall|i: int, j1: int, j2: int|
        0 <= i < t.len() && 0 <= j1 < j2 < t[i].replies.len() implies #[trigger] t[i].replies[j1]
        != #[trigger] t[i].replies[j2] by {
        let i0 = if i < j {
            i
        } else {
            i + 1
        };
        if i == k {
            assert forall|w1: int, w2: int|
                0 <= w1 < w2 < rm[k].replies.len() implies #[trigger] rm[k].replies[w1]
                != #[trigger] rm[k].replies[w2] by {
                assert(s[kp].replies[w1] != s[kp].replies[w2]);
            }
            lemma_filter_nodup(rm[k].replies, keep_other(d));
        } else {
            assert(t[i].replies == s[i0].replies);
            assert(s[i0].replies[j1] != s[i0].replies[j2]);
        }
    }

    assert forall|i: int| 0 <= i < t.len() implies match #[trigger] t[i].parent_id {
        Some(p) => p < t[i].id,
        None => true,
    } by {
        let i0 = if i < j {
            i
        } else {
            i + 1
        };
        assert(t[i].parent_id == s[i0].parent_id && t[i].id == s[i0].id);
        assert(match s[i0].parent_id {
            Some(p) => p < s[i0].id,
            None => true,
        });
    }
}

/// Filtering a table in ascending identifier order yields a sequence in
/// ascending identifier order.
pub proof fn lemma_filter_sorted_ids(s: Seq<MessageView>, p: spec_fn(MessageView) -> bool)
    requires
        ids_sorted(s),
    ensures
        ids_sorted(s.filter(p)),
    decreases s.len(),
{
    reveal(Seq::filter);
    if s.len() > 0 {
        let d = s.drop_last();
        assert(forall|i: int| 0 <= i < d.len() ==> d[i] == #[trigger] s[i]);
        lemma_filter_sorted_ids(d, p);
        lemma_filter_membership(d, p);
        if p(s.last()) {
            assert(s.filter(p) == d.filter(p).push(s.last()));
            assert forall|i: int, j: int|
                0 <= i < j < s.filter(p).len() implies s.filter(p)[i].id < s.filter(p)[j].id by {
                if j == s.filter(p).len() - 1 {
                    let x = d.filter(p)[i];
                    assert(d.contains(x));
                    let k = choose|k: int| 0 <= k < d.len() && d[k] == x;
                    assert(s[k] == x);
                    assert(s[s.len() - 1] == s.last());
                }
            }
        }
    }
}

/// Builds a copy of a reply list without any occurrence of `id`.
fn remove_id(v: &Vec<u64>, id: u64) -> (r: Vec<u64>)
    ensures
        r@ == v@.filter(keep_other(id)),
{
    let mut r: Vec<u64> = Vec::new();
    let mut i: usize = 0;
    proof {
        reveal(Seq::filter);
        assert(v@.take(0).filter(keep_other(id)) =~= Seq::<u64>::empty());
    }
    while i < v.len()
        invariant
            i <= v.len(),
            r@ == v@.take(i as int).filter(keep_other(id)),
        decreases v.len() - i,
    {
        proof {
            assert(v@.take(i + 1) =~= v@.take(i as int).push(v@[i as int]));
            lemma_filter_push(v@.take(i as int), keep_other(id), v@[i as int]);
        }
        if v[i] != id {
            r.push(v[i]);
        }
        i = i + 1;
    }
    proof {
        assert(v@.take(v@.len() as int) =~= v@);
    }
    r
}

/// In-memory threaded-discussion store.
///
/// The table holds only live messages, in ascending identifier order — the
/// key order of an ordered map. Deleted identifiers are recorded permanently
/// and never reused; per-author counts track the number of live messages of
/// each author.
pub struct MessageStore {
    messages: Vec<Message>,
    next_id: u64,
    author_counts: Vec<AuthorCount>,
    deleted: Vec<u64>,
}

impl MessageStore {
    /// The live messages, as mathematical values, in table order.
    pub closed spec fn msgs(self) -> Seq<MessageView> {
        views_of(self.messages@)
    }

    /// The per-author count table, as mathematical values.
    pub closed spec fn counts(self) -> Seq<AuthorCountView> {
        self.author_counts@.map_values(|e: AuthorCount| e@)
    }

    /// The deleted identifiers, in deletion order.
    pub closed spec fn deleted_seq(self) -> Seq<u64> {
        self.deleted@
    }

    /// The identifier the next successful create will use.
    pub closed spec fn counter(self) -> u64 {
        self.next_id
    }

    /// The count recorded for author `a` (zero when `a` has no entry).
    pub open spec fn author_count(self, a: Seq<u8>) -> u64 {
        count_in(self.counts(), a)
    }

    /// Whether a live message with identifier `id` is in the table.
    pub open spec fn has_live(self, id: u64) -> bool {
        exists|i: int| 0 <= i < self.msgs().len() && #[trigger] self.msgs()[i].id == id
    }

    /// The table index of the live message with identifier `id`.
    pub open spec fn live_index(self, id: u64) -> int {
        choose|i: int| 0 <= i < self.msgs().len() && #[trigger] self.msgs()[i].id == id
    }

    /// The live message with identifier `id`.
    pub open spec fn live_msg(self, id: u64) -> MessageView {
        self.msgs()[self.live_index(id)]
    }

    /// Whether `id` is recorded as deleted.
    pub open spec fn is_deleted(self, id: u64) -> bool {
        self.deleted_seq().contains(id)
    }

    /// The cross-structure consistency invariant. Every operation requires
    /// it and maintains it.
    pub open spec fn wf(self) -> bool {
        &&& self.counter() >= 1
        &&& ids_sorted(self.msgs())
        &&& ids_bounded(self.msgs(), self.counter())
        &&& links_ok(self.msgs())
        &&& forall|i: int|
            0 <= i < self.msgs().len() ==> !is_blank(#[trigger] self.msgs()[i].content)
        &&& authors_unique(self.counts())
        &&& forall|a: Seq<u8>|
            #[trigger] self.author_count(a) == self.msgs().filter(by_author(a)).len()
        &&& forall|i: int, j: int|
            0 <= i < j < self.deleted_seq().len() ==> self.deleted_seq()[i]
                != self.deleted_seq()[j]
        &&& forall|i: int|
            0 <= i < self.deleted_seq().len() ==> #[trigger] self.deleted_seq()[i]
                < self.counter()
        &&& forall|i: int|
            0 <= i < self.msgs().len() ==> !self.deleted_seq().contains(
                #[trigger] self.msgs()[i].id,
            )
    }

    /// An empty store: no messages, no counts, no deleted identifiers, and
    /// the counter at its initial value.
    pub fn new() -> (s: MessageStore)
        ensures
            s.wf(),
            s.msgs() == Seq::<MessageView>::empty(),
            s.counter() == 1,
            s.deleted_seq() == Seq::<u64>::empty(),
            forall|a: Seq<u8>| #[trigger] s.author_count(a) == 0,
    {
        let s = MessageStore {
            messages: Vec::new(),
            next_id: 1,
            author_counts: Vec::new(),
            deleted: Vec::new(),
        };
        proof {
            assert(s.msgs() =~= Seq::<MessageView>::empty());
            assert(s.counts() =~= Seq::<AuthorCountView>::empty());
            assert forall|a: Seq<u8>| #[trigger] s.author_count(a) == 0 by {
                reveal(Seq::filter);
            }
            assert forall|a: Seq<u8>|
                #[trigger] s.author_count(a) == s.msgs().filter(by_author(a)).len() by {
                reveal(Seq::filter);
            }
        }
        s
    }

    /// The value the identifier counter stands at; the next successful
    /// create will use exactly this identifier.
    pub fn next_message_id(&self) -> (r: u64)
        ensures
            r == self.counter(),
    {
        self.next_id
    }

    /// Finds the table index of the live message with identifier `id`.
    fn find_index(&self, id: u64) -> (r: Option<usize>)
        ensures
            match r {
                Some(j) => j < self.msgs().len() && self.msgs()[j as int].id == id,
                None => !self.has_live(id),
            },
    {
        let mut i: usize = 0;
        while i < self.messages.len()
            invariant
                i <= self.messages.len(),
                forall|k: int| 0 <= k < i ==> #[trigger] self.msgs()[k].id != id,
            decreases self.messages.len() - i,
        {
            if self.messages[i].id == id {
                return Some(i);
            }
            i = i + 1;
        }
        None
    }

    /// Finds the index of the count entry for `author`.
    fn find_count_index(&self, author: &Principal) -> (r: Option<usize>)
        ensures
            match r {
                Some(k) => k < self.counts().len() && self.counts()[k as int].author == author@,
                None => forall|k: int|
                    0 <= k < self.counts().len() ==> #[trigger] self.counts()[k].author != author@,
            },
    {
        let mut i: usize = 0;
        while i < self.author_counts.len()
            invariant
                i <= self.author_counts.len(),
                forall|k: int| 0 <= k < i ==> #[trigger] self.counts()[k].author != author@,
            decreases self.author_counts.len() - i,
        {
            if self.author_counts[i].author == *author {
                return Some(i);
            }
            i = i + 1;
        }
        None
    }

    /// Whether `id` is recorded in the deleted-id set.
    fn deleted_contains(&self, id: u64) -> (r: bool)
        ensures
            r == self.is_deleted(id),
    {
        let mut i: usize = 0;
        while i < self.deleted.len()
            invariant
                i <= self.deleted.len(),
                forall|k: int| 0 <= k < i ==> self.deleted_seq()[k] != id,
            decreases self.deleted.len() - i,
        {
            if self.deleted[i] == id {
                proof {
                    assert(self.deleted_seq().contains(id));
                }
                return true;
            }
            i = i + 1;
        }
        proof {
            assert(!self.deleted_seq().contains(id));
        }
        false
    }

    /// Raises the recorded count of `author` by one, adding an entry when
    /// there is none.
    fn increment_count(&mut self, author: Principal)
        requires
            authors_unique(old(self).counts()),
            count_in(old(self).counts(), author@) < u64::MAX,
        ensures
            final(self).msgs() == old(self).msgs(),
            final(self).counter() == old(self).counter(),
            final(self).deleted_seq() == old(self).deleted_seq(),
            authors_unique(final(self).counts()),
            count_in(final(self).counts(), author@) == count_in(old(self).counts(), author@) + 1,
            forall|a: Seq<u8>|
                a != author@ ==> count_in(final(self).counts(), a) == count_in(old(self).counts(), a),
    {
        let ghost c0 = self.counts();
        match self.find_count_index(&author) {
            Some(k) => {
                let mut entry = self.author_counts.remove(k);
                proof {
                    assert(entry@ == c0[k as int]);
                    lemma_count_in_at(c0, k as int);
                }
                entry.count = entry.count + 1;
                let ghost newc = entry.count;
                self.author_counts.insert(k, entry);
                proof {
                    let e = AuthorCountView { author: c0[k as int].author, count: newc };
                    assert(self.counts() =~= c0.update(k as int, e));
                    assert forall|a: Seq<u8>|
                        count_in(self.counts(), a) == (if a == author@ {
                            count_in(c0, a) + 1
                        } else {
                            count_in(c0, a) as int
                        }) by {
                        lemma_count_in_update(c0, k as int, newc, a);
                        if a == author@ {
                            lemma_count_in_at(c0, k as int);
                        }
                    }
                    assert forall|i: int, j: int|
                        0 <= i < j < self.counts().len() implies self.counts()[i].author
                        != self.counts()[j].author by {
                        assert(c0[i].author != c0[j].author);
                    }
                }
            },
            None => {
                proof {
                    lemma_count_in_absent(c0, author@);
                }
                let ghost av = author@;
                self.author_counts.push(AuthorCount { author, count: 1 });
                proof {
                    let e = AuthorCountView { author: av, count: 1u64 };
                    assert(self.counts() =~= c0.push(e));
                    assert forall|a: Seq<u8>|
                        count_in(self.counts(), a) == (if a == av {
                            count_in(c0, a) + 1
                        } else {
                            count_in(c0, a) as int
                        }) by {
                        lemma_count_in_push(c0, e, a);
                    }
                    assert forall|i: int, j: int|
                        0 <= i < j < self.counts().len() implies self.counts()[i].author
                        != self.counts()[j].author by {
                        if j < c0.len() {
                            assert(c0[i].author != c0[j].author);
                        } else {
                            assert(c0[i].author != av);
                        }
                    }
                }
            },
        }
    }

    /// Lowers the recorded count of `author` by one. The count invariant
    /// guarantees the entry exists and is positive, so the zero floor of a
    /// saturating decrement is never hit.
    fn decrement_count(&mut self, author: &Principal)
        requires
            authors_unique(old(self).counts()),
            count_in(old(self).counts(), author@) >= 1,
        ensures
            final(self).msgs() == old(self).msgs(),
            final(self).counter() == old(self).counter(),
            final(self).deleted_seq() == old(self).deleted_seq(),
            authors_unique(final(self).counts()),
            count_in(final(self).counts(), author@) == count_in(old(self).counts(), author@) - 1,
            forall|a: Seq<u8>|
                a != author@ ==> count_in(final(self).counts(), a) == count_in(old(self).counts(), a),
    {
        let ghost c0 = self.counts();
        match self.find_count_index(author) {
            Some(k) => {
                let mut entry = self.author_counts.remove(k);
                proof {
                    assert(entry@ == c0[k as int]);
                    lemma_count_in_at(c0, k as int);
                }
                entry.count = entry.count - 1;
                let ghost newc = entry.count;
                self.author_counts.insert(k, entry);
                proof {
                    let e = AuthorCountView { author: c0[k as int].author, count: newc };
                    assert(self.counts() =~= c0.update(k as int, e));
                    assert forall|a: Seq<u8>|
                        count_in(self.counts(), a) == (if a == author@ {
                            count_in(c0, a) - 1
                        } else {
                            count_in(c0, a) as int
                        }) by {
                        lemma_count_in_update(c0, k as int, newc, a);
                        if a == author@ {
                            lemma_count_in_at(c0, k as int);
                        }
                    }
                    assert forall|i: int, j: int|
                        0 <= i < j < self.counts().len() implies self.counts()[i].author
                        != self.counts()[j].author by {
                        assert(c0[i].author != c0[j].author);
                    }
                }
            },
            None => {
                proof {
                    lemma_count_in_absent(c0, author@);
                    assert(false);
                }
            },
        }
    }

    /// Creates a message. Blank content fails with `EmptyContent`; a parent
    /// that is not live fails with `InvalidParent`; neither failure changes
    /// the store. On success the message gets the next identifier from the
    /// counter (never reused, also across deletions), `created_at = now`, no
    /// edit time, zero likes and no replies; the new identifier is appended
    /// to the parent's reply list; the caller's count rises by one; and a
    /// snapshot of the stored record is returned by value.
    pub fn create_message(
        &mut self,
        content: String,
        parent_id: Option<u64>,
        caller: Principal,
        now: u64,
    ) -> (r: Result<Message, MessageError>)
        requires
            old(self).wf(),
            old(self).counter() < u64::MAX,
        ensures
            final(self).wf(),
            r is Ok <==> (!is_blank(content@) && (parent_id matches Some(p) ==> old(
                self,
            ).has_live(p))),
            match r {
                Err(e) => {
                    &&& same_state(*final(self), *old(self))
                    &&& (e == MessageError::EmptyContent <==> is_blank(content@))
                    &&& (e == MessageError::InvalidParent <==> !is_blank(content@))
                },
                Ok(m) => {
                    &&& m@ == new_message_view(
                        old(self).counter(),
                        caller@,
                        content@,
                        now,
                        parent_id,
                    )
                    &&& final(self).counter() == old(self).counter() + 1
                    &&& final(self).deleted_seq() == old(self).deleted_seq()
                    &&& final(self).author_count(caller@) == old(self).author_count(caller@) + 1
                    &&& forall|a: Seq<u8>|
                        a != caller@ ==> final(self).author_count(a) == old(self).author_count(a)
                    &&& match parent_id {
                        None => final(self).msgs() == old(self).msgs().push(m@),
                        Some(p) => exists|j: int|
                            0 <= j < old(self).msgs().len() && #[trigger] old(self).msgs()[j].id
                                == p && final(self).msgs() == old(self).msgs().update(
                                j,
                                with_reply(old(self).msgs()[j], m@.id),
                            ).push(m@),
                    }
                },
            },
    {
        if check_blank(content.as_str()) {
            return Err(MessageError::EmptyContent);
        }
        match parent_id {
            Some(p) => {
                match self.find_index(p) {
                    None => {
                        return Err(MessageError::InvalidParent);
                    },
                    Some(j0) => {
                        proof {
                            assert(0 <= j0 < self.msgs().len() && self.msgs()[j0 as int].id == p);
                            assert(old(self).has_live(p));
                        }
                    },
                }
            },
            None => {},
        }
        let id = self.next_id;
        self.next_id = id + 1;
        let author = caller.clone();
        let replies: Vec<u64> = Vec::new();
        let message = Message {
            id,
            author: caller,
            content,
            created_at: now,
            updated_at: None,
            likes: 0,
            replies,
            parent_id,
        };
        let ghost mv = message@;
        let ghost s0 = old(self).msgs();
        proof {
            assert(self.msgs() == s0);
            assert(mv.replies =~= Seq::<u64>::empty());
            assert(mv == new_message_view(old(self).counter(), caller@, mv.content, now, parent_id));
        }
        let ghost mut jp: int = 0;
        match parent_id {
            Some(p) => {
                match self.find_index(p) {
                    Some(j) => {
                        proof {
                            jp = j as int;
                        }
                        let ghost m0 = self.messages@;
                        let mut parent = self.messages.remove(j);
                        parent.replies.push(id);
                        proof {
                            assert(parent@ == with_reply(s0[jp], id));
                        }
                        self.messages.insert(j, parent);
                        proof {
                            assert(self.messages@ =~= m0.update(jp, self.messages@[jp]));
                            assert(self.msgs() =~= s0.update(jp, with_reply(s0[jp], id)));
                        }
                    },
                    None => {
                        proof {
                            assert(!self.has_live(p));
                            assert(false);
                        }
                    },
                }
            },
            None => {},
        }
        let ghost s1 = self.msgs();
        proof {
            lemma_table_len_bound(s0, old(self).counter());
            s0.lemma_filter_len(by_author(author@));
            assert(old(self).author_count(author@) == s0.filter(by_author(author@)).len());
            assert(count_in(old(self).counts(), author@) < u64::MAX);
        }
        self.increment_count(author);
        let stored = message.clone();
        self.messages.push(stored);
        proof {
            assert(self.msgs() =~= s1.push(mv));
            let s2 = s1.push(mv);
            let len = s0.len() as int;
            assert(forall|i: int| 0 <= i < len ==> #[trigger] s1[i].id == s0[i].id);
            assert(forall|i: int| 0 <= i < len ==> #[trigger] s1[i].author == s0[i].author);
            assert(forall|i: int| 0 <= i < len ==> #[trigger] s1[i].content == s0[i].content);
            assert(s2[len] == mv);
            assert(mv.id == old(self).counter());

            // table order and identifier bounds
            assert forall|i: int, j: int| 0 <= i < j < s2.len() implies s2[i].id < s2[j].id by {
                if j < len {
                    assert(s0[i].id < s0[j].id);
                }
            }
            assert forall|i: int| 0 <= i < s2.len() implies 1 <= #[trigger] s2[i].id
                < self.counter() by {
                if i < len {
                    assert(1 <= s0[i].id < old(self).counter());
                }
            }

            // reply chain
            match parent_id {
                Some(p) => {
                    assert(s0[jp].id == p);
                    assert(mv.parent_id == Some(s0[jp].id));
                    lemma_links_after_create_child(s0, jp, mv);
                    assert(s2 == s0.update(jp, with_reply(s0[jp], mv.id)).push(mv));
                },
                None => {
                    lemma_links_after_create_root(s0, mv);
                },
            }
            assert(links_ok(s2));

            // no blank content
            assert forall|i: int| 0 <= i < s2.len() implies !is_blank(
                #[trigger] s2[i].content,
            ) by {
                if i < len {
                    assert(!is_blank(s0[i].content));
                }
            }

            // per-author counts match the table
            assert forall|a: Seq<u8>|
                #[trigger] self.author_count(a) == s2.filter(by_author(a)).len() by {
                if parent_id is Some {
                    lemma_filter_update_len(s0, by_author(a), jp, with_reply(s0[jp], mv.id));
                }
                lemma_filter_push(s1, by_author(a), mv);
                assert(old(self).author_count(a) == s0.filter(by_author(a)).len());
            }

            // deleted identifiers: unchanged, still bounded, still disjoint
            assert forall|i: int| 0 <= i < s2.len() implies !self.deleted_seq().contains(
                #[trigger] s2[i].id,
            ) by {
                if i < len {
                    assert(!old(self).deleted_seq().contains(s0[i].id));
                } else {
                    if self.deleted_seq().contains(s2[i].id) {
                        let w = choose|w: int|
                            0 <= w < self.deleted_seq().len() && self.deleted_seq()[w] == s2[i].id;
                        assert(old(self).deleted_seq()[w] < old(self).counter());
                    }
                }
            }

            // the returned snapshot and the stored record agree
            match parent_id {
                Some(p) => {
                    assert(0 <= jp < s0.len() && s0[jp].id == p && self.msgs() == s0.update(
                        jp,
                        with_reply(s0[jp], mv.id),
                    ).push(mv));
                },
                None => {},
            }
        }
        Ok(message)
    }

    /// Looks a message up by identifier and returns a snapshot of it;
    /// fails with `NotFound` when `id` is not that of a live message —
    /// in particular, for every deleted identifier.
    pub fn get_message(&self, id: u64) -> (r: Result<Message, MessageError>)
        requires
            self.wf(),
        ensures
            match r {
                Ok(m) => self.has_live(id) && m@ == self.live_msg(id),
                Err(e) => e == MessageError::NotFound && !self.has_live(id),
            },
            r is Ok <==> self.has_live(id),
    {
        match self.find_index(id) {
            Some(j) => {
                let m = self.messages[j].clone();
                proof {
                    assert(self.has_live(id));
                    let jj = self.live_index(id);
                    assert(0 <= jj < self.msgs().len() && self.msgs()[jj].id == id);
                    if jj < j {
                        assert(self.msgs()[jj].id < self.msgs()[j as int].id);
                    }
                    if j < jj {
                        assert(self.msgs()[j as int].id < self.msgs()[jj].id);
                    }
                    assert(jj == j);
                }
                Ok(m)
            },
            None => Err(MessageError::NotFound),
        }
    }

    /// Returns snapshots of exactly the live messages whose author is
    /// `author`, in ascending identifier order; empty — never an error —
    /// when the author has no live message.
    pub fn get_messages_by_author(&self, author: Principal) -> (r: Vec<Message>)
        requires
            self.wf(),
        ensures
            views_of(r@) == self.msgs().filter(by_author(author@)),
            forall|i: int, j: int| 0 <= i < j < r@.len() ==> r@[i]@.id < r@[j]@.id,
    {
        let mut out: Vec<Message> = Vec::new();
        let mut i: usize = 0;
        while i < self.messages.len()
            invariant
                i <= self.messages.len(),
                views_of(out@) == self.msgs().take(i as int).filter(by_author(author@)),
            decreases self.messages.len() - i,
        {
            let ghost prefix = self.msgs().take(i as int);
            proof {
                assert(self.msgs().take(i + 1) =~= prefix.push(self.msgs()[i as int]));
                lemma_filter_push(prefix, by_author(author@), self.msgs()[i as int]);
            }
            if self.messages[i].author == author {
                let m = self.messages[i].clone();
                out.push(m);
                proof {
                    assert(views_of(out@) =~= self.msgs().take(i + 1).filter(
                        by_author(author@),
                    ));
                }
            }
            i = i + 1;
        }
        proof {
            assert(self.msgs().take(self.messages@.len() as int) =~= self.msgs());
            lemma_filter_sorted_ids(self.msgs(), by_author(author@));
            assert(views_of(out@) == self.msgs().filter(by_author(author@)));
            assert forall|i: int, j: int| 0 <= i < j < out@.len() implies out@[i]@.id
                < out@[j]@.id by {
                assert(views_of(out@)[i] == out@[i]@);
                assert(views_of(out@)[j] == out@[j]@);
            }
        }
        out
    }

    /// In a well-formed table, identifiers are unique: any index holding
    /// `id` is the index of the live message with `id`.
    pub proof fn lemma_index_unique(self, id: u64, j: int)
        requires
            self.wf(),
            0 <= j < self.msgs().len(),
            self.msgs()[j].id == id,
        ensures
            self.has_live(id),
            self.live_index(id) == j,
            self.live_msg(id) == self.msgs()[j],
    {
        assert(self.has_live(id));
        let jj = self.live_index(id);
        if jj < j {
            assert(self.msgs()[jj].id < self.msgs()[j].id);
        }
        if j < jj {
            assert(self.msgs()[j].id < self.msgs()[jj].id);
        }
    }

    /// Edits a message's content. Blank content fails with `EmptyContent`;
    /// an unknown identifier fails with `NotFound`, checked before
    /// authorization, so a missing message reports `NotFound` even to a
    /// non-owner; a caller other than the author fails with `Unauthorized`.
    /// No failure changes the store. On success the content is replaced,
    /// `updated_at` is set to `now`, every other field stays, and the
    /// post-edit snapshot is returned.
    pub fn update_message(
        &mut self,
        id: u64,
        content: String,
        caller: &Principal,
        now: u64,
    ) -> (r: Result<Message, MessageError>)
        requires
            old(self).wf(),
        ensures
            final(self).wf(),
            final(self).counter() == old(self).counter(),
            final(self).deleted_seq() == old(self).deleted_seq(),
            final(self).counts() == old(self).counts(),
            r is Ok <==> (!is_blank(content@) && old(self).has_live(id) && old(self).live_msg(
                id,
            ).author == caller@),
            match r {
                Err(e) => {
                    &&& final(self).msgs() == old(self).msgs()
                    &&& (e == MessageError::EmptyContent <==> is_blank(content@))
                    &&& (e == MessageError::NotFound <==> !is_blank(content@) && !old(
                        self,
                    ).has_live(id))
                    &&& (e == MessageError::Unauthorized <==> !is_blank(content@) && old(
                        self,
                    ).has_live(id) && old(self).live_msg(id).author != caller@)
                },
                Ok(m) => {
                    &&& m@ == with_content(old(self).live_msg(id), content@, now)
                    &&& final(self).msgs() == old(self).msgs().update(
                        old(self).live_index(id),
                        m@,
                    )
                },
            },
    {
        if check_blank(content.as_str()) {
            return Err(MessageError::EmptyContent);
        }
        let j = match self.find_index(id) {
            None => {
                return Err(MessageError::NotFound);
            },
            Some(j) => j,
        };
        proof {
            self.lemma_index_unique(id, j as int);
        }
        if !(self.messages[j].author == *caller) {
            return Err(MessageError::Unauthorized);
        }
        let ghost s0 = old(self).msgs();
        let mut m = self.messages.remove(j);
        m.content = content;
        m.updated_at = Some(now);
        let snapshot = m.clone();
        let ghost mu = m@;
        self.messages.insert(j, m);
        proof {
            assert(self.msgs() =~= s0.update(j as int, mu));
            let s2 = s0.update(j as int, mu);
            assert(mu == with_content(s0[j as int], content@, now));
            assert(forall|i: int| 0 <= i < s2.len() ==> #[trigger] s2[i].id == s0[i].id);
            assert(forall|i: int| 0 <= i < s2.len() ==> #[trigger] s2[i].author == s0[i].author);

            assert forall|i: int, jx: int| 0 <= i < jx < s2.len() implies s2[i].id < s2[jx].id by {
                assert(s0[i].id < s0[jx].id);
            }
            assert forall|i: int| 0 <= i < s2.len() implies 1 <= #[trigger] s2[i].id
                < self.counter() by {
                assert(1 <= s0[i].id < old(self).counter());
            }
            lemma_links_same_structure(s0, s2);
            assert forall|i: int| 0 <= i < s2.len() implies !is_blank(
                #[trigger] s2[i].content,
            ) by {
                if i != j {
                    assert(s2[i].content == s0[i].content);
                    assert(!is_blank(s0[i].content));
                }
            }
            assert forall|a: Seq<u8>|
                #[trigger] self.author_count(a) == s2.filter(by_author(a)).len() by {
                lemma_filter_update_len(s0, by_author(a), j as int, mu);
                assert(old(self).author_count(a) == s0.filter(by_author(a)).len());
            }
            assert forall|i: int| 0 <= i < s2.len() implies !self.deleted_seq().contains(
                #[trigger] s2[i].id,
            ) by {
                assert(!old(self).deleted_seq().contains(s0[i].id));
            }
        }
        Ok(snapshot)
    }

    /// Deletes a message for good. Checked in order: an unknown identifier
    /// — including one already removed — fails with `NotFound`; a caller
    /// other than the author fails with `Unauthorized`; neither changes the
    /// store. On success the identifier joins the deleted-id set for good,
    /// the record leaves the table, the identifier is struck from the
    /// parent's reply list when the parent is still live (children of the
    /// deleted message keep their now-dangling `parent_id`), and the
    /// author's count falls by exactly one. The `AlreadyDeleted` guard on
    /// the deleted-id set sits between authorization and removal; the
    /// invariant that live identifiers are never in that set keeps the
    /// guard from ever firing.
    pub fn delete_message(&mut self, id: u64, caller: &Principal) -> (r: Result<(), MessageError>)
        requires
            old(self).wf(),
        ensures
            final(self).wf(),
            final(self).counter() == old(self).counter(),
            r is Ok <==> (old(self).has_live(id) && old(self).live_msg(id).author == caller@),
            match r {
                Err(e) => {
                    &&& same_state(*final(self), *old(self))
                    &&& (e == MessageError::NotFound <==> !old(self).has_live(id))
                    &&& (e == MessageError::Unauthorized <==> old(self).has_live(id) && old(
                        self,
                    ).live_msg(id).author != caller@)
                },
                Ok(u) => {
                    &&& final(self).deleted_seq() == old(self).deleted_seq().push(id)
                    &&& final(self).author_count(old(self).live_msg(id).author) == old(
                        self,
                    ).author_count(old(self).live_msg(id).author) - 1
                    &&& forall|a: Seq<u8>|
                        a != old(self).live_msg(id).author ==> final(self).author_count(a) == old(
                            self,
                        ).author_count(a)
                    &&& ({
                        let removed = old(self).msgs().remove(old(self).live_index(id));
                        match old(self).live_msg(id).parent_id {
                            None => final(self).msgs() == removed,
                            Some(p) => {
                                &&& (exists|k: int|
                                    0 <= k < removed.len() && #[trigger] removed[k].id == p)
                                    ==> exists|k: int|
                                    0 <= k < removed.len() && #[trigger] removed[k].id == p
                                        && final(self).msgs() == removed.update(
                                        k,
                                        without_reply(removed[k], id),
                                    )
                                &&& !(exists|k: int|
                                    0 <= k < removed.len() && #[trigger] removed[k].id == p)
                                    ==> final(self).msgs() == removed
                            },
                        }
                    })
                },
            },
    {
        let j = match self.find_index(id) {
            None => {
                return Err(MessageError::NotFound);
            },
            Some(j) => j,
        };
        proof {
            self.lemma_index_unique(id, j as int);
        }
        if !(self.messages[j].author == *caller) {
            return Err(MessageError::Unauthorized);
        }
        if self.deleted_contains(id) {
            proof {
                assert(false);
            }
            return Err(MessageError::AlreadyDeleted);
        }
        let ghost s0 = old(self).msgs();
        let ghost d0 = old(self).deleted_seq();
        self.deleted.push(id);
        let m = self.messages.remove(j);
        proof {
            assert(m@ == s0[j as int]);
            assert(self.msgs() =~= s0.remove(j as int));
        }
        let ghost rm = s0.remove(j as int);
        let ghost mut pk: int = 0;
        let ghost mut parent_live: bool = false;
        match m.parent_id {
            Some(p) => {
                match self.find_index(p) {
                    Some(k) => {
                        proof {
                            pk = k as int;
                            parent_live = true;
                        }
                        let mut parent = self.messages.remove(k);
                        let pruned = remove_id(&parent.replies, id);
                        parent.replies = pruned;
                        proof {
                            assert(parent@ == without_reply(rm[pk], id));
                        }
                        self.messages.insert(k, parent);
                        proof {
                            assert(self.msgs() =~= rm.update(pk, without_reply(rm[pk], id)));
                        }
                    },
                    None => {},
                }
            },
            None => {},
        }
        let ghost sfin = self.msgs();
        proof {
            assert(s0[j as int].author == m@.author);
            s0.lemma_filter_contains(by_author(m@.author), j as int);
            assert(s0.filter(by_author(m@.author)).len() > 0);
            assert(old(self).author_count(m@.author) == s0.filter(by_author(m@.author)).len());
            assert(count_in(old(self).counts(), m@.author) >= 1);
            assert(self.counts() == old(self).counts());
        }
        self.decrement_count(&m.author);
        proof {
            assert(self.msgs() == sfin);
            let len0 = s0.len() as int;
            assert(forall|i: int| 0 <= i < j ==> rm[i] == #[trigger] s0[i]);
            assert(forall|i: int| j <= i < rm.len() ==> rm[i] == #[trigger] s0[i + 1]);
            assert(forall|i: int| 0 <= i < rm.len() ==> #[trigger] sfin[i].id == rm[i].id);
            assert(forall|i: int| 0 <= i < rm.len() ==> #[trigger] sfin[i].author == rm[i].author);
            assert(forall|i: int| 0 <= i < rm.len() ==> #[trigger] sfin[i].content == rm[i].content);

            // table order and identifier bounds
            assert forall|a: int, b: int| 0 <= a < b < sfin.len() implies sfin[a].id
                < sfin[b].id by {
                let a0 = if a < j {
                    a
                } else {
                    a + 1
                };
                let b0 = if b < j {
                    b
                } else {
                    b + 1
                };
                assert(s0[a0].id < s0[b0].id);
            }
            assert forall|i: int| 0 <= i < sfin.len() implies 1 <= #[trigger] sfin[i].id
                < self.counter() by {
                let i0 = if i < j {
                    i
                } else {
                    i + 1
                };
                assert(1 <= s0[i0].id < old(self).counter());
            }

            // reply chain
            if parent_live {
                assert(m@.parent_id == Some(rm[pk].id));
                lemma_links_after_delete_child(s0, j as int, pk);
                assert(links_ok(sfin));
            } else {
                match m@.parent_id {
                    Some(p) => {
                        assert(!(exists|k: int|
                            0 <= k < rm.len() && 0 <= k < sfin.len() && #[trigger] sfin[k].id
                                == p));
                        assert forall|k: int|
                            0 <= k < s0.len() && k != j implies #[trigger] s0[k].id != p by {
                            let k1 = if k < j {
                                k
                            } else {
                                k - 1
                            };
                            assert(sfin[k1].id == rm[k1].id && rm[k1] == s0[k]);
                        }
                        lemma_links_after_delete_orphan(s0, j as int);
                    },
                    None => {
                        lemma_links_after_delete_orphan(s0, j as int);
                    },
                }
                assert(links_ok(sfin));
            }

            // no blank content
            assert forall|i: int| 0 <= i < sfin.len() implies !is_blank(
                #[trigger] sfin[i].content,
            ) by {
                let i0 = if i < j {
                    i
                } else {
                    i + 1
                };
                assert(!is_blank(s0[i0].content));
            }

            // per-author counts match the table
            assert forall|a: Seq<u8>|
                #[trigger] self.author_count(a) == sfin.filter(by_author(a)).len() by {
                lemma_filter_remove_len(s0, by_author(a), j as int);
                if parent_live {
                    lemma_filter_update_len(rm, by_author(a), pk, without_reply(rm[pk], id));
                }
                assert(old(self).author_count(a) == s0.filter(by_author(a)).len());
            }

            // deleted identifiers: id joins, stays unique, bounded, disjoint
            assert(self.deleted_seq() == d0.push(id));
            assert forall|a: int, b: int|
                0 <= a < b < self.deleted_seq().len() implies self.deleted_seq()[a]
                != self.deleted_seq()[b] by {
                if b == d0.len() {
                    assert(self.deleted_seq()[a] == d0[a]);
                    if d0[a] == id {
                        assert(d0.contains(id));
                        assert(!old(self).deleted_seq().contains(s0[j as int].id));
                    }
                } else {
                    assert(d0[a] != d0[b]);
                }
            }
            assert forall|i: int| 0 <= i < self.deleted_seq().len() implies #[trigger] self
                .deleted_seq()[i] < self.counter() by {
                if i < d0.len() {
                    assert(d0[i] < old(self).counter());
                } else {
                    assert(self.deleted_seq()[i] == id);
                    assert(1 <= s0[j as int].id < old(self).counter());
                }
            }
            assert forall|i: int| 0 <= i < sfin.len() implies !self.deleted_seq().contains(
                #[trigger] sfin[i].id,
            ) by {
                let i0 = if i < j {
                    i
                } else {
                    i + 1
                };
                assert(sfin[i].id == s0[i0].id);
                if i0 < j {
                    assert(s0[i0].id < s0[j as int].id);
                }
                if j < i0 {
                    assert(s0[j as int].id < s0[i0].id);
                }
                assert(sfin[i].id != id);
                assert(!old(self).deleted_seq().contains(s0[i0].id));
                if self.deleted_seq().contains(sfin[i].id) {
                    let w = choose|w: int|
                        0 <= w < self.deleted_seq().len() && self.deleted_seq()[w] == sfin[i].id;
                    assert(w < d0.len() ==> d0.contains(sfin[i].id));
                }
            }

            // the shape of the final table, for the postcondition
            if parent_live {
                match m@.parent_id {
                    Some(p) => {
                        assert(0 <= pk < rm.len() && rm[pk].id == p && sfin == rm.update(
                            pk,
                            without_reply(rm[pk], id),
                        ));
                    },
                    None => {},
                }
            }
        }
        Ok(())
    }

    /// Monotonic identifiers: in a well-formed store every identifier in
    /// use — live or deleted — lies strictly below the counter. Together
    /// with the operation contracts (a successful create issues exactly the
    /// counter's value and advances it by one; no other operation moves the
    /// counter) this makes the identifiers issued across any sequence of
    /// calls strictly increasing and never repeated, also across deletions.
    pub proof fn lemma_issued_ids_below_counter(self, id: u64)
        requires
            self.wf(),
            self.has_live(id) || self.is_deleted(id),
        ensures
            id < self.counter(),
    {
        if self.has_live(id) {
            let i = self.live_index(id);
            assert(self.msgs()[i].id == id);
        } else {
            let w = choose|w: int|
                0 <= w < self.deleted_seq().len() && self.deleted_seq()[w] == id;
            assert(self.deleted_seq()[w] < self.counter());
        }
    }

    /// Deletion is permanent: an identifier recorded as deleted never names
    /// a live message again.
    pub proof fn lemma_deleted_not_live(self, id: u64)
        requires
            self.wf(),
            self.is_deleted(id),
        ensures
            !self.has_live(id),
    {
        if self.has_live(id) {
            let i = self.live_index(id);
            assert(!self.deleted_seq().contains(self.msgs()[i].id));
        }
    }

    /// An author's listing is empty exactly when the author has no live
    /// message; equivalently, exactly when the author's count is zero.
    pub proof fn lemma_author_listing_empty(self, a: Seq<u8>)
        requires
            self.wf(),
        ensures
            self.msgs().filter(by_author(a)).len() == 0 <==> (forall|i: int|
                0 <= i < self.msgs().len() ==> #[trigger] self.msgs()[i].author != a),
            self.author_count(a) == 0 <==> self.msgs().filter(by_author(a)).len() == 0,
    {
        lemma_filter_empty_iff(self.msgs(), by_author(a));
        assert(self.author_count(a) == self.msgs().filter(by_author(a)).len());
    }

    /// The number of live messages recorded for `author`: zero when the
    /// author never posted or has no message left.
    pub fn author_message_count(&self, author: &Principal) -> (r: u64)
        requires
            self.wf(),
        ensures
            r == self.author_count(author@),
    {
        match self.find_count_index(author) {
            Some(k) => {
                proof {
                    lemma_count_in_at(self.counts(), k as int);
                }
                self.author_counts[k].count
            },
            None => {
                proof {
                    lemma_count_in_absent(self.counts(), author@);
                }
                0
            },
        }
    }

    /// Whether `id` went through a successful delete. False both for live
    /// and for never-issued identifiers.
    pub fn is_message_deleted(&self, id: u64) -> (r: bool)
        ensures
            r == self.is_deleted(id),
    {
        self.deleted_contains(id)
    }
}

} // verus!
