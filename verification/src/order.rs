//! Stable sorting: what it means for a list to be another one put in order.
use vstd::prelude::*;

verus! {

/// Holds of the items with this key.
pub open spec fn with_key<T>(key: spec_fn(T) -> int, k: int) -> spec_fn(T) -> bool {
    |t: T| key(t) == k
}

/// Keys never fall from one item to a later one.
pub open spec fn ascending<T>(s: Seq<T>, key: spec_fn(T) -> int) -> bool {
    forall|i: int, j: int| 0 <= i < j < s.len() ==> #[trigger] key(s[i]) <= #[trigger] key(s[j])
}

/// `s` is `all` in ascending order, items of one key in the order in which they stand in
/// `all`.
pub open spec fn sorted<T>(s: Seq<T>, all: Seq<T>, key: spec_fn(T) -> int) -> bool {
    &&& s.len() == all.len()
    &&& ascending(s, key)
    &&& forall|k: int|
        #![trigger s.filter(with_key(key, k))]
        #![trigger all.filter(with_key(key, k))]
        s.filter(with_key(key, k)) == all.filter(with_key(key, k))
}

proof fn lemma_none<T>(s: Seq<T>, keep: spec_fn(T) -> bool)
    requires
        forall|i: int| 0 <= i < s.len() ==> !keep(#[trigger] s[i]),
    ensures
        s.filter(keep) == Seq::<T>::empty(),
    decreases s.len(),
{
    reveal(Seq::filter);
    if s.len() > 0 {
        lemma_none(s.drop_last(), keep);
    }
}

proof fn lemma_filter_push<T>(s: Seq<T>, t: T, keep: spec_fn(T) -> bool)
    ensures
        s.push(t).filter(keep) == if keep(t) {
            s.filter(keep).push(t)
        } else {
            s.filter(keep)
        },
{
    reveal(Seq::filter);
    assert(s.push(t).drop_last() =~= s);
}

/// An item put in behind the last one that does not have a greater key.
pub proof fn lemma_insert<T>(s: Seq<T>, all: Seq<T>, key: spec_fn(T) -> int, t: T, at: int)
    requires
        sorted(s, all, key),
        0 <= at <= s.len(),
        at > 0 ==> key(s[at - 1]) <= key(t),
        at < s.len() ==> key(t) < key(s[at]),
    ensures
        sorted(s.insert(at, t), all.push(t), key),
{
    let (low, high) = (s.take(at), s.skip(at));
    let new = s.insert(at, t);
    assert(new =~= low.push(t) + high);
    assert(s =~= low + high);
    assert(ascending(new, key)) by {
        assert forall|i: int, j: int| 0 <= i < j < new.len() implies #[trigger] key(new[i])
            <= #[trigger] key(new[j]) by {
            let ghost p = if i < at { i } else { i - 1 };
            let ghost q = if j < at { j } else { j - 1 };
            if i < at && at <= j {
                assert(key(s[i]) <= key(s[at - 1]));
                if j > at {
                    assert(key(s[i]) <= key(s[q]));
                }
            } else if i == at {
                assert(key(s[at]) <= key(s[q]));
            } else {
                assert(key(s[p]) <= key(s[q]));
            }
        }
    }
    assert forall|k: int| new.filter(with_key(key, k)) == all.push(t).filter(with_key(key, k)) by {
        let keep = with_key(key, k);
        Seq::filter_distributes_over_add(low, high, keep);
        Seq::filter_distributes_over_add(low.push(t), high, keep);
        lemma_filter_push(low, t, keep);
        lemma_filter_push(all, t, keep);
        assert(s.filter(keep) == all.filter(keep));
        if keep(t) {
            assert forall|i: int| 0 <= i < high.len() implies !keep(#[trigger] high[i]) by {
                assert(key(s[at]) <= key(s[at + i]));
            }
            lemma_none(high, keep);
        }
        assert(new.filter(keep) =~= all.push(t).filter(keep));
    }
}

/// Sorting neither adds an item nor loses one.
pub proof fn lemma_same_items<T>(s: Seq<T>, all: Seq<T>, key: spec_fn(T) -> int, t: T)
    requires
        sorted(s, all, key),
    ensures
        s.contains(t) <==> all.contains(t),
{
    broadcast use vstd::seq_lib::group_filter_ensures;

    let keep = with_key(key, key(t));
    assert(s.filter(keep) == all.filter(keep));
    lemma_filter_within(s, keep);
    lemma_filter_within(all, keep);
    if s.contains(t) {
        let i = choose|i: int| 0 <= i < s.len() && s[i] == t;
        assert(keep(s[i]));
        assert(s.filter(keep).contains(t));
    }
    if all.contains(t) {
        let i = choose|i: int| 0 <= i < all.len() && all[i] == t;
        assert(keep(all[i]));
        assert(all.filter(keep).contains(t));
    }
}

/// A list can be sorted in one way only.
pub proof fn law_one_order<T>(s: Seq<T>, other: Seq<T>, all: Seq<T>, key: spec_fn(T) -> int)
    requires
        sorted(s, all, key),
        sorted(other, all, key),
    ensures
        s == other,
    decreases s.len(),
{
    if s.len() > 0 {
        lemma_same_items(s, all, key, s.last());
        lemma_same_items(other, all, key, s.last());
        assert(s.contains(s[s.len() - 1]));
        let j = choose|j: int| 0 <= j < other.len() && other[j] == s.last();
        lemma_same_items(s, all, key, other.last());
        lemma_same_items(other, all, key, other.last());
        assert(other.contains(other[other.len() - 1]));
        let i = choose|i: int| 0 <= i < s.len() && s[i] == other.last();
        if i < s.len() - 1 {
            assert(key(s[i]) <= key(s[s.len() - 1]));
        }
        if j < other.len() - 1 {
            assert(key(other[j]) <= key(other[other.len() - 1]));
        }
        reveal(Seq::filter);
        let top = with_key(key, key(s.last()));
        assert(top(s.last()) && top(other.last()));
        assert(s.filter(top) == all.filter(top));
        assert(other.filter(top) == all.filter(top));
        assert(s.filter(top).last() == s.last());
        assert(other.filter(top).last() == other.last());
        assert forall|k: int|
            #![trigger other.drop_last().filter(with_key(key, k))]
            s.drop_last().filter(with_key(key, k)) == other.drop_last().filter(
                with_key(key, k),
            ) by {
            let keep = with_key(key, k);
            assert(s.filter(keep) == all.filter(keep));
            assert(other.filter(keep) == all.filter(keep));
            if keep(s.last()) {
                assert(s.drop_last().filter(keep) =~= s.filter(keep).drop_last());
                assert(other.drop_last().filter(keep) =~= other.filter(keep).drop_last());
            }
        }
        assert forall|k: int|
            #![trigger s.drop_last().filter(with_key(key, k))]
            s.drop_last().filter(with_key(key, k)) == other.drop_last().filter(
                with_key(key, k),
            ) by {
            let keep = with_key(key, k);
            assert(other.drop_last().filter(keep) == s.drop_last().filter(keep));
        }
        assert(ascending(s.drop_last(), key)) by {
            assert forall|i: int, j: int| 0 <= i < j < s.drop_last().len() implies #[trigger] key(
                s.drop_last()[i],
            ) <= #[trigger] key(s.drop_last()[j]) by {
                assert(key(s[i]) <= key(s[j]));
            }
        }
        assert(ascending(other.drop_last(), key)) by {
            assert forall|i: int, j: int|
                0 <= i < j < other.drop_last().len() implies #[trigger] key(other.drop_last()[i])
                <= #[trigger] key(other.drop_last()[j]) by {
                assert(key(other[i]) <= key(other[j]));
            }
        }
        law_one_order(s.drop_last(), other.drop_last(), other.drop_last(), key);
        assert(s =~= s.drop_last().push(s.last()));
        assert(other =~= other.drop_last().push(other.last()));
    } else if other.len() > 0 {
        lemma_same_items(s, all, key, other.last());
        lemma_same_items(other, all, key, other.last());
        assert(other.contains(other[other.len() - 1]));
    }
}

proof fn lemma_filter_within<T>(s: Seq<T>, keep: spec_fn(T) -> bool)
    ensures
        forall|t: T| #[trigger] s.filter(keep).contains(t) ==> s.contains(t),
    decreases s.len(),
{
    reveal(Seq::filter);
    if s.len() > 0 {
        let rest = s.drop_last();
        lemma_filter_within(rest, keep);
        assert forall|t: T| #[trigger] s.filter(keep).contains(t) implies s.contains(t) by {
            let i = choose|i: int| 0 <= i < s.filter(keep).len() && s.filter(keep)[i] == t;
            if i < rest.filter(keep).len() {
                assert(rest.filter(keep)[i] == t);
                assert(rest.filter(keep).contains(t));
                let j = choose|j: int| 0 <= j < rest.len() && rest[j] == t;
                assert(s[j] == t);
            } else {
                assert(s[s.len() - 1] == t);
            }
        }
    }
}

} // verus!
