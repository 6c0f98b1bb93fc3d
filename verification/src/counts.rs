//! The per-author message counter: one entry per author, looked up by
//! identity, together with the lemmas that describe a lookup after an edit.

use vstd::prelude::*;

use crate::principal::Principal;

verus! {

/// One entry of the per-author count table.
pub struct AuthorCount {
    pub author: Principal,
    pub count: u64,
}

/// The mathematical value of an [`AuthorCount`] entry.
pub struct AuthorCountView {
    pub author: Seq<u8>,
    pub count: u64,
}

impl View for AuthorCount {
    type V = AuthorCountView;

    open spec fn view(&self) -> AuthorCountView {
        AuthorCountView { author: self.author@, count: self.count }
    }
}

/// The count recorded for `a`: the count of the first entry whose author is
/// `a`, or zero when there is none.
pub open spec fn count_in(s: Seq<AuthorCountView>, a: Seq<u8>) -> u64
    decreases s.len(),
{
    if s.len() == 0 {
        0
    } else if s[0].author == a {
        s[0].count
    } else {
        count_in(s.drop_first(), a)
    }
}

/// Whether no two entries record the same author.
pub open spec fn authors_unique(s: Seq<AuthorCountView>) -> bool {
    forall|i: int, j: int| 0 <= i < j < s.len() ==> s[i].author != s[j].author
}

/// An author with no entry has count zero.
pub proof fn lemma_count_in_absent(s: Seq<AuthorCountView>, a: Seq<u8>)
    requires
        forall|k: int| 0 <= k < s.len() ==> s[k].author != a,
    ensures
        count_in(s, a) == 0,
    decreases s.len(),
{
    if s.len() > 0 {
        assert(forall|k: int|
            0 <= k < s.drop_first().len() ==> s.drop_first()[k] == #[trigger] s[k + 1]);
        lemma_count_in_absent(s.drop_first(), a);
    }
}

/// When authors are unique, the recorded count for the author of entry `k`
/// is exactly that entry's count.
pub proof fn lemma_count_in_at(s: Seq<AuthorCountView>, k: int)
    requires
        authors_unique(s),
        0 <= k < s.len(),
    ensures
        count_in(s, s[k].author) == s[k].count,
    decreases s.len(),
{
    if k > 0 {
        assert(s[0].author != s[k].author);
        assert(forall|i: int|
            0 <= i < s.drop_first().len() ==> s.drop_first()[i] == #[trigger] s[i + 1]);
        lemma_count_in_at(s.drop_first(), k - 1);
    }
}

/// Replacing the count of entry `j` changes the recorded count for its
/// author and no other.
pub proof fn lemma_count_in_update(s: Seq<AuthorCountView>, j: int, c: u64, a: Seq<u8>)
    requires
        authors_unique(s),
        0 <= j < s.len(),
    ensures
        count_in(s.update(j, AuthorCountView { author: s[j].author, count: c }), a) == (if a
            == s[j].author {
            c
        } else {
            count_in(s, a)
        }),
    decreases s.len(),
{
    let t = s.update(j, AuthorCountView { author: s[j].author, count: c });
    if j == 0 {
        assert(t.drop_first() =~= s.drop_first());
    } else {
        assert(t[0] == s[0]);
        assert(t.drop_first() =~= s.drop_first().update(
            j - 1,
            AuthorCountView { author: s[j].author, count: c },
        ));
        assert(forall|i: int|
            0 <= i < s.drop_first().len() ==> s.drop_first()[i] == #[trigger] s[i + 1]);
        assert(s.drop_first()[j - 1] == s[j]);
        lemma_count_in_update(s.drop_first(), j - 1, c, a);
        if a == s[0].author {
            assert(a != s[j].author);
        }
    }
}

/// Appending an entry for a new author records its count and leaves every
/// other author's count as it was.
pub proof fn lemma_count_in_push(s: Seq<AuthorCountView>, e: AuthorCountView, a: Seq<u8>)
    requires
        forall|k: int| 0 <= k < s.len() ==> s[k].author != e.author,
    ensures
        count_in(s.push(e), a) == (if a == e.author {
            e.count
        } else {
            count_in(s, a)
        }),
    decreases s.len(),
{
    let t = s.push(e);
    if s.len() == 0 {
        assert(t[0] == e);
        assert(t.drop_first() =~= s);
        assert(count_in(t, a) == (if a == e.author {
            e.count
        } else {
            count_in(s, a)
        }));
    } else {
        assert(t[0] == s[0]);
        assert(t.drop_first() =~= s.drop_first().push(e));
        assert(forall|k: int|
            0 <= k < s.drop_first().len() ==> s.drop_first()[k] == #[trigger] s[k + 1]);
        lemma_count_in_push(s.drop_first(), e, a);
    }
}

} // verus!
