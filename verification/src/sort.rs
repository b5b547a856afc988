//! Sorting receipts into canonical order.

use vstd::prelude::*;
use vstd::multiset::lemma_multiset_empty_len;
use vstd::seq_lib::{lemma_multiset_commutative, to_multiset_build, to_multiset_len};
use crate::canonical::{canonical, distinct_positions, is_canonical, lemma_canonical_of_distinct,
    lemma_le_transitive, lemma_not_lt_is_le, ordered};
use crate::receipt::Receipt;

verus! {

/// Merges two ordered runs into one.
fn merge(left: &Vec<Receipt>, right: &Vec<Receipt>) -> (out: Vec<Receipt>)
    requires
        ordered(left@),
        ordered(right@),
        left.len() + right.len() <= usize::MAX,
    ensures
        ordered(out@),
        out@.to_multiset() == left@.to_multiset().add(right@.to_multiset()),
{
    broadcast use vstd::multiset::group_multiset_axioms;

    let mut out: Vec<Receipt> = Vec::with_capacity(left.len() + right.len());
    let mut i: usize = 0;
    let mut j: usize = 0;
    assert(left@.take(0) =~= Seq::<Receipt>::empty());
    assert(right@.take(0) =~= Seq::<Receipt>::empty());
    proof {
        to_multiset_len(Seq::<Receipt>::empty());
        lemma_multiset_empty_len(Seq::<Receipt>::empty().to_multiset());
    }
    while i < left.len() || j < right.len()
        invariant
            0 <= i <= left.len(),
            0 <= j <= right.len(),
            ordered(left@),
            ordered(right@),
            ordered(out@),
            out@.to_multiset() == left@.take(i as int).to_multiset().add(
                right@.take(j as int).to_multiset(),
            ),
            forall|k: int, p: int|
                0 <= k < out.len() && i <= p < left.len() ==> out@[k].position().le(
                    left@[p].position(),
                ),
            forall|k: int, p: int|
                0 <= k < out.len() && j <= p < right.len() ==> out@[k].position().le(
                    right@[p].position(),
                ),
        decreases left.len() - i + right.len() - j,
    {
        let take_left = if i >= left.len() {
            false
        } else if j >= right.len() {
            true
        } else {
            !right[j].position().precedes(&left[i].position())
        };
        let ghost before = out@;
        if take_left {
            let r = left[i];
            proof {
                assert(left@.take(i + 1) =~= left@.take(i as int).push(r));
                to_multiset_build(left@.take(i as int), r);
                to_multiset_build(before, r);
                assert forall|p: int| j <= p < right.len() implies r.position().le(
                    right@[p].position(),
                ) by {
                    lemma_not_lt_is_le(r.position(), right@[j as int].position());
                    lemma_le_transitive(
                        r.position(),
                        right@[j as int].position(),
                        right@[p].position(),
                    );
                }
            }
            out.push(r);
            i += 1;
        } else {
            let r = right[j];
            proof {
                assert(right@.take(j + 1) =~= right@.take(j as int).push(r));
                to_multiset_build(right@.take(j as int), r);
                to_multiset_build(before, r);
                assert forall|p: int| i <= p < left.len() implies r.position().le(
                    left@[p].position(),
                ) by {
                    lemma_le_transitive(
                        r.position(),
                        left@[i as int].position(),
                        left@[p].position(),
                    );
                }
            }
            out.push(r);
            j += 1;
        }
    }
    assert(left@.take(i as int) =~= left@);
    assert(right@.take(j as int) =~= right@);
    out
}

/// Sorts the receipts `records[lo..hi]` by merging its sorted halves.
fn sort_range(records: &Vec<Receipt>, lo: usize, hi: usize) -> (out: Vec<Receipt>)
    requires
        lo <= hi <= records.len(),
    ensures
        is_canonical(out@, records@.subrange(lo as int, hi as int)),
        out.len() == hi - lo,
    decreases hi - lo,
{
    broadcast use vstd::multiset::group_multiset_axioms;

    let ghost whole = records@.subrange(lo as int, hi as int);
    if hi - lo <= 1 {
        let mut out: Vec<Receipt> = Vec::new();
        if hi - lo == 1 {
            out.push(records[lo]);
        }
        assert(out@ =~= whole);
        out
    } else {
        let mid = lo + (hi - lo) / 2;
        let left = sort_range(records, lo, mid);
        let right = sort_range(records, mid, hi);
        let out = merge(&left, &right);
        proof {
            let a = records@.subrange(lo as int, mid as int);
            let b = records@.subrange(mid as int, hi as int);
            assert(whole =~= a + b);
            lemma_multiset_commutative(a, b);
            to_multiset_len(out@);
            to_multiset_len(whole);
        }
        out
    }
}

/// Returns the receipts of `records` in canonical order: ascending by
/// timestamp, then by identifier. Where no two receipts share a position
/// this order is the only one.
pub fn sort_receipts(records: &Vec<Receipt>) -> (sorted: Vec<Receipt>)
    ensures
        is_canonical(sorted@, records@),
        sorted.len() == records.len(),
        distinct_positions(records@) ==> sorted@ == canonical(records@),
{
    let sorted = sort_range(records, 0, records.len());
    proof {
        assert(records@.subrange(0, records.len() as int) =~= records@);
        if distinct_positions(records@) {
            lemma_canonical_of_distinct(records@, sorted@);
        }
    }
    sorted
}

} // verus!
