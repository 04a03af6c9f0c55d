//! Lists from which some items are left out.
use vstd::prelude::*;

verus! {

/// Two kept items stay in order.
pub proof fn lemma_kept_in_order<T>(s: Seq<T>, keep: spec_fn(T) -> bool, i: int, j: int) -> (r: (
    int,
    int,
))
    requires
        0 <= i < j < s.len(),
        keep(s[i]),
        keep(s[j]),
    ensures
        0 <= r.0 < r.1 < s.filter(keep).len(),
        s.filter(keep)[r.0] == s[i],
        s.filter(keep)[r.1] == s[j],
    decreases s.len(),
{
    reveal(Seq::filter);
    let rest = s.drop_last();
    if j < s.len() - 1 {
        assert(rest[i] == s[i] && rest[j] == s[j]);
        lemma_kept_in_order(rest, keep, i, j)
    } else {
        assert(rest[i] == s[i]);
        let p = lemma_kept(rest, keep, i);
        (p, s.filter(keep).len() - 1)
    }
}

/// A kept item is there.
pub proof fn lemma_kept<T>(s: Seq<T>, keep: spec_fn(T) -> bool, i: int) -> (r: int)
    requires
        0 <= i < s.len(),
        keep(s[i]),
    ensures
        0 <= r < s.filter(keep).len(),
        s.filter(keep)[r] == s[i],
    decreases s.len(),
{
    reveal(Seq::filter);
    let rest = s.drop_last();
    if i < s.len() - 1 {
        assert(rest[i] == s[i]);
        lemma_kept(rest, keep, i)
    } else {
        s.filter(keep).len() - 1
    }
}

/// What is there was kept.
pub proof fn lemma_was<T>(s: Seq<T>, keep: spec_fn(T) -> bool, p: int) -> (r: int)
    requires
        0 <= p < s.filter(keep).len(),
    ensures
        0 <= r < s.len(),
        s.filter(keep)[p] == s[r],
        keep(s[r]),
    decreases s.len(),
{
    reveal(Seq::filter);
    let rest = s.drop_last();
    if p < rest.filter(keep).len() {
        let r = lemma_was(rest, keep, p);
        assert(rest[r] == s[r]);
        r
    } else {
        s.len() - 1
    }
}

/// Two items that are there were there in that order.
pub proof fn lemma_were_in_order<T>(s: Seq<T>, keep: spec_fn(T) -> bool, p: int, q: int) -> (r: (
    int,
    int,
))
    requires
        0 <= p < q < s.filter(keep).len(),
    ensures
        0 <= r.0 < r.1 < s.len(),
        s.filter(keep)[p] == s[r.0],
        s.filter(keep)[q] == s[r.1],
        keep(s[r.0]),
        keep(s[r.1]),
    decreases s.len(),
{
    reveal(Seq::filter);
    let rest = s.drop_last();
    if q < rest.filter(keep).len() {
        let r = lemma_were_in_order(rest, keep, p, q);
        assert(rest[r.0] == s[r.0] && rest[r.1] == s[r.1]);
        r
    } else {
        let i = lemma_was(rest, keep, p);
        assert(rest[i] == s[i]);
        (i, s.len() - 1)
    }
}

} // verus!
