//! Order-preserving removal of duplicate patterns.
//!
//! The pattern generator can reach the same fill-pattern through more than
//! one split point; the duplicates are removed while keeping the first
//! occurrence of each pattern in place. The insertion-ordered set doing the
//! bookkeeping comes from the `indexmap` crate and is trusted through the
//! contracts below; the dedup routine itself is verified against them.

use vstd::prelude::*;
use indexmap::IndexSet;

use crate::lines::views_of;

verus! {

#[verifier::external_type_specification]
#[verifier::external_body]
#[verifier::reject_recursive_types(T)]
#[verifier::reject_recursive_types(S)]
pub struct ExIndexSet<T, S>(IndexSet<T, S>);


/// What the insertion-ordered set holds, in insertion order.
pub uninterp spec fn pattern_set_elems(s: IndexSet<Vec<bool>>) -> Seq<Seq<bool>>;

/// Relies on indexmap's `IndexSet::new`: creates an empty set.
#[verifier::external_body]
fn pattern_set_new() -> (s: IndexSet<Vec<bool>>)
    ensures
        pattern_set_elems(s) == Seq::<Seq<bool>>::empty(),
{
    IndexSet::new()
}

/// Relies on indexmap's `IndexSet::insert`: a value equal to a present one
/// leaves the set unchanged and returns false; a new value is appended at
/// the end of the insertion order and true is returned.
#[verifier::external_body]
fn pattern_set_insert(s: &mut IndexSet<Vec<bool>>, value: Vec<bool>) -> (added: bool)
    ensures
        pattern_set_elems(*old(s)).contains(value@) ==> !added
            && pattern_set_elems(*final(s)) == pattern_set_elems(*old(s)),
        !pattern_set_elems(*old(s)).contains(value@) ==> added
            && pattern_set_elems(*final(s)) == pattern_set_elems(*old(s)).push(value@),
{
    s.insert(value)
}

/// Relies on indexmap's `IndexSet` iteration: values come out in insertion
/// order.
#[verifier::external_body]
fn pattern_set_items(s: IndexSet<Vec<bool>>) -> (items: Vec<Vec<bool>>)
    ensures
        items@.len() == pattern_set_elems(s).len(),
        forall|j: int|
            0 <= j < items@.len() ==> #[trigger] items@[j]@ == pattern_set_elems(s)[j],
{
    s.into_iter().collect()
}

/// The subsequence that keeps the first occurrence of each value.
pub open spec fn first_seen(s: Seq<Seq<bool>>) -> Seq<Seq<bool>>
    decreases s.len(),
{
    if s.len() == 0 {
        Seq::empty()
    } else if s.drop_last().contains(s.last()) {
        first_seen(s.drop_last())
    } else {
        first_seen(s.drop_last()).push(s.last())
    }
}

/// Removing duplicates keeps exactly the values that were there.
pub proof fn lemma_first_seen_contains(s: Seq<Seq<bool>>)
    ensures
        forall|x: Seq<bool>| first_seen(s).contains(x) <==> s.contains(x),
    decreases s.len(),
{
    if s.len() > 0 {
        let d = s.drop_last();
        lemma_first_seen_contains(d);
        assert forall|x: Seq<bool>| s.contains(x) implies first_seen(s).contains(x) by {
            let j = s.lemma_contains_to_index(x);
            if j < s.len() - 1 {
                assert(d[j] == x);
                assert(d.contains(x));
                let k = first_seen(d).lemma_contains_to_index(x);
                assert(first_seen(s)[k] == x);
            } else {
                if d.contains(s.last()) {
                    assert(d.contains(x));
                    let k = first_seen(d).lemma_contains_to_index(x);
                    assert(first_seen(s)[k] == x);
                } else {
                    assert(first_seen(s)[first_seen(s).len() - 1] == x);
                }
            }
        }
        assert forall|x: Seq<bool>| first_seen(s).contains(x) implies s.contains(x) by {
            let j = first_seen(s).lemma_contains_to_index(x);
            if d.contains(s.last()) {
                assert(first_seen(d).contains(x));
                let k = d.lemma_contains_to_index(x);
                assert(s[k] == x);
            } else {
                if j < first_seen(d).len() {
                    assert(first_seen(d)[j] == x);
                    assert(first_seen(d).contains(x));
                    let k = d.lemma_contains_to_index(x);
                    assert(s[k] == x);
                } else {
                    assert(x == s.last());
                    assert(s[s.len() - 1] == x);
                }
            }
        }
    }
}

/// After removing duplicates no two entries are equal.
pub proof fn lemma_first_seen_distinct(s: Seq<Seq<bool>>)
    ensures
        forall|j: int, k: int|
            0 <= j < k < first_seen(s).len() ==> first_seen(s)[j] != first_seen(s)[k],
    decreases s.len(),
{
    if s.len() > 0 {
        lemma_first_seen_distinct(s.drop_last());
        lemma_first_seen_contains(s.drop_last());
        if !s.drop_last().contains(s.last()) {
            assert forall|j: int, k: int| 0 <= j < k < first_seen(s).len()
                implies first_seen(s)[j] != first_seen(s)[k] by {
                if k == first_seen(s).len() - 1 {
                    assert(first_seen(s)[k] == s.last());
                    assert(first_seen(s)[j] == first_seen(s.drop_last())[j]);
                    assert(first_seen(s.drop_last()).contains(first_seen(s.drop_last())[j]));
                } else {
                    assert(first_seen(s)[j] == first_seen(s.drop_last())[j]);
                    assert(first_seen(s)[k] == first_seen(s.drop_last())[k]);
                }
            }
        }
    }
}

/// Remove duplicate patterns, keeping the first occurrence of each.
pub fn dedup_patterns(v: Vec<Vec<bool>>) -> (r: Vec<Vec<bool>>)
    ensures
        views_of(r@) == first_seen(views_of(v@)),
{
    let mut set = pattern_set_new();
    let n = v.len();
    for idx in 0..n
        invariant
            n == v@.len(),
            pattern_set_elems(set) == first_seen(views_of(v@).take(idx as int)),
    {
        let mut item: Vec<bool> = Vec::new();
        let src = &v[idx];
        let m = src.len();
        for p in 0..m
            invariant
                m == src@.len(),
                item@.len() == p,
                forall|q: int| 0 <= q < p ==> #[trigger] item@[q] == src@[q],
        {
            item.push(src[p]);
        }
        proof {
            assert(item@ =~= src@);
            let pre = views_of(v@).take(idx as int);
            let cur = views_of(v@).take(idx + 1);
            assert(cur.drop_last() =~= pre);
            assert(cur.last() == item@);
            lemma_first_seen_contains(pre);
        }
        pattern_set_insert(&mut set, item);
        proof {
            let pre = views_of(v@).take(idx as int);
            let cur = views_of(v@).take(idx + 1);
            if pre.contains(views_of(v@)[idx as int]) {
                assert(first_seen(cur) == first_seen(pre));
            } else {
                assert(first_seen(cur) == first_seen(pre).push(cur.last()));
            }
        }
    }
    proof {
        assert(views_of(v@).take(n as int) =~= views_of(v@));
    }
    let r = pattern_set_items(set);
    proof {
        assert(views_of(r@) =~= first_seen(views_of(v@)));
    }
    r
}

} // verus!
