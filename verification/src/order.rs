//! Sets of numbers, and of pairs of numbers, in ascending order.
use std::collections::BTreeSet;

use vstd::prelude::*;
use vstd::std_specs::cmp::OrdSpec;

verus! {

pub open spec fn strictly_increasing(values: Seq<u128>) -> bool {
    forall|i: int, j: int| 0 <= i < j < values.len() ==> values[i] < values[j]
}

/// The elements of a finite set of numbers in ascending order.
pub open spec fn ascending(set: Set<u128>) -> Seq<u128> {
    choose|values: Seq<u128>| strictly_increasing(values) && values.to_set() == set
}

/// Whether the pair `a` comes before the pair `b`: by the first numbers, and by the second where
/// the first are the same.
pub open spec fn pair_less(a: (u128, u128), b: (u128, u128)) -> bool {
    a.0 < b.0 || (a.0 == b.0 && a.1 < b.1)
}

pub open spec fn pairs_decreasing(pairs: Seq<(u128, u128)>) -> bool {
    forall|i: int, j: int| 0 <= i < j < pairs.len() ==> pair_less(pairs[j], pairs[i])
}

/// The elements of a finite set of pairs in descending order.
pub open spec fn descending(set: Set<(u128, u128)>) -> Seq<(u128, u128)> {
    choose|pairs: Seq<(u128, u128)>| pairs_decreasing(pairs) && pairs.to_set() == set
}

/// The elements of `set` in ascending order.
pub(crate) fn sorted_values(set: &BTreeSet<u128>) -> (values: Vec<u128>)
    ensures
        strictly_increasing(values@),
        values@.to_set() == set@,
        values@ == ascending(set@),
{
    broadcast use vstd::std_specs::btree::group_btree_axioms;
    broadcast use vstd::laws_cmp::group_laws_cmp;

    let mut values: Vec<u128> = Vec::new();
    let iter = set.iter();
    let ghost all = vstd::std_specs::iter::IteratorSpec::remaining(&iter);
    assert(vstd::laws_cmp::obeys_cmp::<u128>());
    assert(vstd::laws_cmp::obeys_cmp::<&u128>());
    assert(all.unref().to_set() == set@);
    assert(vstd::std_specs::btree::increasing_seq(all));
    assert forall|i: int, j: int| 0 <= i < j < all.len() implies *all[i] < *all[j] by {
        assert(OrdSpec::cmp_spec(&all[i], &all[j]) is Less);
    }
    assert(strictly_increasing(all.unref()));
    for value in it: iter
        invariant
            it.seq() == all,
            values@ == all.unref().take(it.index()),
    {
        values.push(*value);
    }
    assert(values@ == all.unref());
    proof {
        lemma_increasing_unique(values@, ascending(set@));
    }
    values
}

/// The elements of `set` in descending order.
pub(crate) fn ranked_pairs(set: &BTreeSet<(u128, u128)>) -> (pairs: Vec<(u128, u128)>)
    ensures
        pairs_decreasing(pairs@),
        pairs@.to_set() == set@,
        pairs@ == descending(set@),
{
    broadcast use vstd::std_specs::btree::group_btree_axioms;
    broadcast use vstd::laws_cmp::group_laws_cmp;

    let mut rising: Vec<(u128, u128)> = Vec::new();
    let iter = set.iter();
    let ghost all = vstd::std_specs::iter::IteratorSpec::remaining(&iter);
    assert(vstd::laws_cmp::obeys_cmp::<(u128, u128)>());
    assert(vstd::laws_cmp::obeys_cmp::<&(u128, u128)>());
    assert(all.unref().to_set() == set@);
    assert(vstd::std_specs::btree::increasing_seq(all));
    assert forall|i: int, j: int| 0 <= i < j < all.len() implies pair_less(
        *all[i],
        *all[j],
    ) by {
        assert(OrdSpec::cmp_spec(&all[i], &all[j]) is Less);
    }
    for pair in it: iter
        invariant
            it.seq() == all,
            rising@ == all.unref().take(it.index()),
    {
        rising.push(*pair);
    }
    assert(rising@ == all.unref());
    let pairs = reversed(&rising);
    proof {
        assert(pairs@.to_set() =~= rising@.to_set()) by {
            assert forall|p: (u128, u128)| rising@.contains(p) implies pairs@.contains(p) by {
                let i = choose|i: int| 0 <= i < rising@.len() && rising@[i] == p;
                assert(pairs@[rising@.len() - 1 - i] == p);
            }
        }
        lemma_decreasing_unique(pairs@, descending(set@));
    }
    pairs
}

fn reversed(pairs: &Vec<(u128, u128)>) -> (result: Vec<(u128, u128)>)
    ensures
        result@ == pairs@.reverse(),
{
    let mut result: Vec<(u128, u128)> = Vec::new();
    let mut i: usize = pairs.len();
    while i > 0
        invariant
            i <= pairs@.len(),
            result@ == pairs@.reverse().take(pairs@.len() - i),
        decreases i,
    {
        i -= 1;
        result.push(pairs[i]);
    }
    assert(result@ =~= pairs@.reverse());
    result
}

proof fn lemma_decreasing_unique(a: Seq<(u128, u128)>, b: Seq<(u128, u128)>)
    requires
        pairs_decreasing(a),
        pairs_decreasing(b),
        a.to_set() == b.to_set(),
    ensures
        a == b,
    decreases a.len(),
{
    if a.len() == 0 {
        if b.len() > 0 {
            assert(b.to_set().contains(b[0]));
        }
    } else {
        assert(a.to_set().contains(a.last()));
        assert(b.contains(a.last()));
        assert(b.to_set().contains(b.last()));
        assert(a.contains(b.last()));
        let i = choose|i: int| 0 <= i < a.len() && a[i] == b.last();
        let j = choose|j: int| 0 <= j < b.len() && b[j] == a.last();
        assert(i < a.len() - 1 ==> pair_less(a.last(), a[i]));
        assert(j < b.len() - 1 ==> pair_less(b.last(), b[j]));
        assert(a.last() == b.last());
        let x = a.drop_last();
        let y = b.drop_last();
        assert forall|p: (u128, u128)| x.to_set().contains(p) <==> y.to_set().contains(p) by {
            if x.contains(p) {
                let i = choose|i: int| 0 <= i < x.len() && x[i] == p;
                assert(a[i] == p && pair_less(a.last(), p));
                assert(a.to_set().contains(p));
                assert(b.contains(p));
                let j = choose|j: int| 0 <= j < b.len() && b[j] == p;
                assert(y[j] == p);
            }
            if y.contains(p) {
                let i = choose|i: int| 0 <= i < y.len() && y[i] == p;
                assert(b[i] == p && pair_less(b.last(), p));
                assert(b.to_set().contains(p));
                assert(a.contains(p));
                let j = choose|j: int| 0 <= j < a.len() && a[j] == p;
                assert(x[j] == p);
            }
        }
        assert(x.to_set() =~= y.to_set());
        lemma_decreasing_unique(x, y);
        assert(a =~= x.push(a.last()));
        assert(b =~= y.push(b.last()));
    }
}

/// Two ascending orders of the same numbers are the same.
pub proof fn lemma_increasing_unique(a: Seq<u128>, b: Seq<u128>)
    requires
        strictly_increasing(a),
        strictly_increasing(b),
        a.to_set() == b.to_set(),
    ensures
        a == b,
    decreases a.len(),
{
    if a.len() == 0 {
        if b.len() > 0 {
            assert(b.to_set().contains(b[0]));
        }
    } else {
        assert(a.to_set().contains(a.last()));
        assert(b.contains(a.last()));
        assert(b.to_set().contains(b.last()));
        assert(a.contains(b.last()));
        assert(a.last() == b.last());
        let x = a.drop_last();
        let y = b.drop_last();
        assert forall|v: u128| x.to_set().contains(v) <==> y.to_set().contains(v) by {
            if x.contains(v) {
                let i = choose|i: int| 0 <= i < x.len() && x[i] == v;
                assert(a[i] == v && v < a.last());
                assert(a.to_set().contains(v));
                assert(b.contains(v));
                let j = choose|j: int| 0 <= j < b.len() && b[j] == v;
                assert(y[j] == v);
            }
            if y.contains(v) {
                let i = choose|i: int| 0 <= i < y.len() && y[i] == v;
                assert(b[i] == v && v < b.last());
                assert(b.to_set().contains(v));
                assert(a.contains(v));
                let j = choose|j: int| 0 <= j < a.len() && a[j] == v;
                assert(x[j] == v);
            }
        }
        assert(x.to_set() =~= y.to_set());
        lemma_increasing_unique(x, y);
        assert(a =~= x.push(a.last()));
        assert(b =~= y.push(b.last()));
    }
}

proof fn lemma_has_greatest(set: Set<u128>) -> (greatest: u128)
    requires
        set.finite(),
        set.len() > 0,
    ensures
        set.contains(greatest),
        forall|v: u128| set.contains(v) ==> v <= greatest,
    decreases set.len(),
{
    let some = set.choose();
    let others = set.remove(some);
    if others.len() == 0 {
        assert(others =~= Set::empty());
        assert forall|v: u128| set.contains(v) implies v <= some by {
            if v != some {
                assert(others.contains(v));
            }
        }
        some
    } else {
        let rest = lemma_has_greatest(others);
        assert forall|v: u128| set.contains(v) && v != some implies v <= rest by {
            assert(others.contains(v));
        }
        if some > rest {
            some
        } else {
            rest
        }
    }
}

proof fn lemma_can_be_sorted(set: Set<u128>) -> (values: Seq<u128>)
    requires
        set.finite(),
    ensures
        strictly_increasing(values),
        values.to_set() == set,
    decreases set.len(),
{
    if set.len() == 0 {
        assert(Seq::<u128>::empty().to_set() =~= set);
        Seq::empty()
    } else {
        let greatest = lemma_has_greatest(set);
        let others = lemma_can_be_sorted(set.remove(greatest));
        let values = others.push(greatest);
        assert forall|i: int, j: int| 0 <= i < j < values.len() implies values[i] < values[j] by {
            assert(others.to_set().contains(others[i]));
        }
        assert forall|v: u128| set.contains(v) implies values.contains(v) by {
            if v == greatest {
                assert(values[others.len() as int] == v);
            } else {
                assert(others.to_set().contains(v));
                let i = choose|i: int| 0 <= i < others.len() && others[i] == v;
                assert(values[i] == v);
            }
        }
        assert forall|v: u128| values.contains(v) implies set.contains(v) by {
            let i = choose|i: int| 0 <= i < values.len() && values[i] == v;
            if i < others.len() {
                assert(others.to_set().contains(others[i]));
            }
        }
        assert(values.to_set() =~= set);
        values
    }
}

/// The ascending order of a finite set holds its elements, each once.
pub proof fn lemma_ascending(set: Set<u128>)
    requires
        set.finite(),
    ensures
        strictly_increasing(ascending(set)),
        ascending(set).to_set() == set,
{
    let values = lemma_can_be_sorted(set);
}

proof fn lemma_has_least_pair(set: Set<(u128, u128)>) -> (least: (u128, u128))
    requires
        set.finite(),
        set.len() > 0,
    ensures
        set.contains(least),
        forall|p: (u128, u128)| set.contains(p) && p != least ==> pair_less(least, p),
    decreases set.len(),
{
    let some = set.choose();
    let others = set.remove(some);
    if others.len() == 0 {
        assert(others =~= Set::empty());
        assert forall|p: (u128, u128)| set.contains(p) && p != some implies pair_less(some, p) by {
            assert(others.contains(p));
        }
        some
    } else {
        let rest = lemma_has_least_pair(others);
        assert forall|p: (u128, u128)| set.contains(p) && p != some && p != rest implies pair_less(
            rest,
            p,
        ) by {
            assert(others.contains(p));
        }
        assert(some != rest);
        if pair_less(some, rest) {
            some
        } else {
            rest
        }
    }
}

proof fn lemma_pairs_can_be_sorted(set: Set<(u128, u128)>) -> (pairs: Seq<(u128, u128)>)
    requires
        set.finite(),
    ensures
        pairs_decreasing(pairs),
        pairs.to_set() == set,
    decreases set.len(),
{
    if set.len() == 0 {
        assert(Seq::<(u128, u128)>::empty().to_set() =~= set);
        Seq::empty()
    } else {
        let least = lemma_has_least_pair(set);
        let others = lemma_pairs_can_be_sorted(set.remove(least));
        let pairs = others.push(least);
        assert forall|i: int, j: int| 0 <= i < j < pairs.len() implies pair_less(
            pairs[j],
            pairs[i],
        ) by {
            assert(others.to_set().contains(others[i]));
        }
        assert forall|p: (u128, u128)| set.contains(p) implies pairs.contains(p) by {
            if p == least {
                assert(pairs[others.len() as int] == p);
            } else {
                assert(others.to_set().contains(p));
                let i = choose|i: int| 0 <= i < others.len() && others[i] == p;
                assert(pairs[i] == p);
            }
        }
        assert forall|p: (u128, u128)| pairs.contains(p) implies set.contains(p) by {
            let i = choose|i: int| 0 <= i < pairs.len() && pairs[i] == p;
            if i < others.len() {
                assert(others.to_set().contains(others[i]));
            }
        }
        assert(pairs.to_set() =~= set);
        pairs
    }
}

/// The descending order of a finite set of pairs holds its elements, each once.
pub proof fn lemma_descending(set: Set<(u128, u128)>)
    requires
        set.finite(),
    ensures
        pairs_decreasing(descending(set)),
        descending(set).to_set() == set,
{
    let pairs = lemma_pairs_can_be_sorted(set);
}

} // verus!
