//! Lemmas about `Seq::filter` under the edits the store performs: appending,
//! replacing one element, and removing one element.

use vstd::prelude::*;

verus! {

/// Appending an element extends the filtered sequence exactly when the
/// element satisfies the predicate.
pub proof fn lemma_filter_push<A>(s: Seq<A>, p: spec_fn(A) -> bool, x: A)
    ensures
        p(x) ==> s.push(x).filter(p) == s.filter(p).push(x),
        !p(x) ==> s.push(x).filter(p) == s.filter(p),
{
    reveal(Seq::filter);
    assert(s.push(x).drop_last() =~= s);
    assert(s.push(x).last() == x);
}

/// Replacing one element by another with the same predicate value keeps the
/// length of the filtered sequence.
pub proof fn lemma_filter_update_len<A>(s: Seq<A>, p: spec_fn(A) -> bool, j: int, x: A)
    requires
        0 <= j < s.len(),
        p(x) == p(s[j]),
    ensures
        s.update(j, x).filter(p).len() == s.filter(p).len(),
    decreases s.len(),
{
    reveal(Seq::filter);
    let t = s.update(j, x);
    if j == s.len() - 1 {
        assert(t.drop_last() =~= s.drop_last());
        assert(t.last() == x);
    } else {
        assert(t.drop_last() =~= s.drop_last().update(j, x));
        assert(t.last() == s.last());
        lemma_filter_update_len(s.drop_last(), p, j, x);
    }
}

/// Removing one element shortens the filtered sequence exactly when the
/// element satisfies the predicate.
pub proof fn lemma_filter_remove_len<A>(s: Seq<A>, p: spec_fn(A) -> bool, j: int)
    requires
        0 <= j < s.len(),
    ensures
        s.remove(j).filter(p).len() + (if p(s[j]) { 1int } else { 0int }) == s.filter(p).len(),
    decreases s.len(),
{
    reveal(Seq::filter);
    let t = s.remove(j);
    if j == s.len() - 1 {
        assert(t =~= s.drop_last());
    } else {
        assert(t.drop_last() =~= s.drop_last().remove(j));
        assert(t.last() == s.last());
        assert(s.drop_last()[j] == s[j]);
        lemma_filter_remove_len(s.drop_last(), p, j);
    }
}

/// Every element of a filtered sequence is an element of the original.
pub proof fn lemma_filter_membership<A>(s: Seq<A>, p: spec_fn(A) -> bool)
    ensures
        forall|i: int|
            0 <= i < s.filter(p).len() ==> s.contains(#[trigger] s.filter(p)[i]) && p(
                s.filter(p)[i],
            ),
    decreases s.len(),
{
    reveal(Seq::filter);
    if s.len() > 0 {
        let d = s.drop_last();
        lemma_filter_membership(d, p);
        assert forall|i: int|
            0 <= i < s.filter(p).len() implies s.contains(#[trigger] s.filter(p)[i]) && p(
            s.filter(p)[i],
        ) by {
            let x = s.filter(p)[i];
            if i < d.filter(p).len() {
                assert(d.contains(x));
                let k = choose|k: int| 0 <= k < d.len() && d[k] == x;
                assert(s[k] == x);
            } else {
                assert(x == s.last());
                assert(s[s.len() - 1] == x);
            }
        }
    }
}

/// Filtering a sequence of pairwise-distinct elements leaves its elements
/// pairwise distinct.
pub proof fn lemma_filter_nodup<A>(s: Seq<A>, p: spec_fn(A) -> bool)
    requires
        forall|i: int, j: int| 0 <= i < j < s.len() ==> s[i] != s[j],
    ensures
        forall|i: int, j: int|
            0 <= i < j < s.filter(p).len() ==> s.filter(p)[i] != s.filter(p)[j],
    decreases s.len(),
{
    reveal(Seq::filter);
    if s.len() > 0 {
        let d = s.drop_last();
        assert(forall|i: int| 0 <= i < d.len() ==> d[i] == #[trigger] s[i]);
        lemma_filter_nodup(d, p);
        lemma_filter_membership(d, p);
        if p(s.last()) {
            assert(s.filter(p) == d.filter(p).push(s.last()));
            assert forall|i: int, j: int|
                0 <= i < j < s.filter(p).len() implies s.filter(p)[i] != s.filter(p)[j] by {
                if j == s.filter(p).len() - 1 {
                    let x = d.filter(p)[i];
                    assert(d.contains(x));
                    let k = choose|k: int| 0 <= k < d.len() && d[k] == x;
                    assert(s[k] == x);
                    assert(s[s.len() - 1] == s.last());
                }
            }
        }
    }
}

/// If no element satisfies the predicate, the filtered sequence is empty;
/// if some element does, it is not.
pub proof fn lemma_filter_empty_iff<A>(s: Seq<A>, p: spec_fn(A) -> bool)
    ensures
        s.filter(p).len() == 0 <==> (forall|i: int| 0 <= i < s.len() ==> !p(#[trigger] s[i])),
    decreases s.len(),
{
    reveal(Seq::filter);
    if s.len() > 0 {
        lemma_filter_empty_iff(s.drop_last(), p);
        assert(forall|i: int|
            0 <= i < s.drop_last().len() ==> s.drop_last()[i] == #[trigger] s[i]);
        if s.filter(p).len() == 0 {
            assert(!p(s[s.len() - 1]));
        }
    }
}

} // verus!
