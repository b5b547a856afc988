//! The canonical order of a set of receipts: ascending by timestamp, ties
//! broken by the receipts' identifiers.

use vstd::prelude::*;
use vstd::seq_lib::{to_multiset_build, to_multiset_contains, to_multiset_len, to_multiset_remove};
use crate::cursor::{Cursor, lemma_cursor_lt_asymmetric, lemma_cursor_lt_total,
    lemma_cursor_lt_transitive};
use crate::receipt::Receipt;

verus! {

/// Each receipt is at or before every later one.
pub open spec fn ordered(s: Seq<Receipt>) -> bool {
    forall|i: int, j: int| 0 <= i < j < s.len() ==> s[i].position().le(s[j].position())
}

/// Each receipt is strictly before every later one.
pub open spec fn strictly_ordered(s: Seq<Receipt>) -> bool {
    forall|i: int, j: int| 0 <= i < j < s.len() ==> s[i].position().lt(s[j].position())
}

/// No two receipts share a position. The log guarantees this of the receipts
/// it creates, because every identifier is minted once.
pub open spec fn distinct_positions(s: Seq<Receipt>) -> bool {
    forall|i: int, j: int| 0 <= i < j < s.len() ==> s[i].position() != s[j].position()
}

/// `s` holds exactly the receipts of `records`, each as often as `records`
/// does, in ascending order.
pub open spec fn is_canonical(s: Seq<Receipt>, records: Seq<Receipt>) -> bool {
    ordered(s) && s.to_multiset() == records.to_multiset()
}

/// The receipts of `records` in canonical order. Where no two of them share
/// a position there is exactly one such sequence.
pub open spec fn canonical(records: Seq<Receipt>) -> Seq<Receipt> {
    choose|s: Seq<Receipt>| is_canonical(s, records)
}

/// `le` is transitive.
pub proof fn lemma_le_transitive(a: Cursor, b: Cursor, c: Cursor)
    requires
        a.le(b),
        b.le(c),
    ensures
        a.le(c),
{
    if a.lt(b) && b.lt(c) {
        lemma_cursor_lt_transitive(a, b, c);
    }
}

/// Where `b` is not before `a`, `a` is at or before `b`.
pub proof fn lemma_not_lt_is_le(a: Cursor, b: Cursor)
    requires
        !b.lt(a),
    ensures
        a.le(b),
{
    lemma_cursor_lt_total(a, b);
}

/// Puts `r` into an ordered sequence at its place.
spec fn place(s: Seq<Receipt>, r: Receipt) -> Seq<Receipt>
    decreases s.len(),
{
    if s.len() > 0 && r.position().lt(s.last().position()) {
        place(s.drop_last(), r).push(s.last())
    } else {
        s.push(r)
    }
}

proof fn lemma_place(s: Seq<Receipt>, r: Receipt, bound: Cursor)
    requires
        ordered(s),
    ensures
        ordered(place(s, r)),
        place(s, r).to_multiset() == s.to_multiset().insert(r),
        place(s, r).len() == s.len() + 1,
        (forall|i: int| 0 <= i < s.len() ==> s[i].position().le(bound)) && r.position().le(bound)
            ==> forall|i: int|
            0 <= i < place(s, r).len() ==> (#[trigger] place(s, r)[i]).position().le(bound),
    decreases s.len(),
{
    broadcast use vstd::multiset::group_multiset_axioms;

    let out = place(s, r);
    if s.len() > 0 && r.position().lt(s.last().position()) {
        let front = s.drop_last();
        let last = s.last();
        lemma_place(front, r, bound);
        lemma_place(front, r, last.position());
        let inner = place(front, r);
        assert(s =~= front.push(last));
        to_multiset_build(front, last);
        to_multiset_build(inner, last);
    } else {
        to_multiset_build(s, r);
        assert forall|i: int, j: int| 0 <= i < j < out.len() implies out[i].position().le(
            out[j].position(),
        ) by {
            if j == out.len() - 1 {
                lemma_not_lt_is_le(s.last().position(), r.position());
                if i < s.len() - 1 {
                    lemma_le_transitive(s[i].position(), s.last().position(), r.position());
                }
            }
        }
    }
}

/// An ordered arrangement of `records`, built one receipt at a time.
spec fn arrange(records: Seq<Receipt>) -> Seq<Receipt>
    decreases records.len(),
{
    if records.len() == 0 {
        records
    } else {
        place(arrange(records.drop_last()), records.last())
    }
}

proof fn lemma_arrange(records: Seq<Receipt>)
    ensures
        is_canonical(arrange(records), records),
    decreases records.len(),
{
    if records.len() > 0 {
        lemma_arrange(records.drop_last());
        lemma_place(arrange(records.drop_last()), records.last(), records.last().position());
        assert(records =~= records.drop_last().push(records.last()));
        to_multiset_build(records.drop_last(), records.last());
    }
}

/// Every set of receipts has a canonical order: `canonical(records)` is
/// ordered and holds exactly the receipts of `records`.
pub proof fn lemma_canonical_exists(records: Seq<Receipt>)
    ensures
        is_canonical(canonical(records), records),
        canonical(records).len() == records.len(),
{
    lemma_arrange(records);
    to_multiset_len(canonical(records));
    to_multiset_len(records);
}

/// Two sequences that hold the same receipts hold receipts at the same
/// positions.
pub proof fn lemma_same_receipts_distinct(x: Seq<Receipt>, y: Seq<Receipt>)
    requires
        x.to_multiset() == y.to_multiset(),
        distinct_positions(x),
    ensures
        distinct_positions(y),
    decreases x.len(),
{
    broadcast use vstd::multiset::group_multiset_axioms;

    to_multiset_len(x);
    to_multiset_len(y);
    assert forall|i: int, j: int| 0 <= i < j < y.len() implies y[i].position()
        != y[j].position() by {
        if y[i].position() == y[j].position() {
            // Both occur in x, where one position means one receipt: so y[i]
            // and y[j] are one receipt, which y holds twice and x once.
            to_multiset_contains(x, y[i]);
            to_multiset_contains(y, y[i]);
            to_multiset_contains(x, y[j]);
            to_multiset_contains(y, y[j]);
            let p = choose|p: int| 0 <= p < x.len() && x[p] == y[i];
            let rest = y.remove(j);
            to_multiset_remove(y, j);
            assert(rest[i] == y[i]);
            to_multiset_contains(rest, y[i]);
            lemma_count_at_most_one(x, p);
        }
    }
}

/// A receipt of a sequence with distinct positions occurs in it once.
proof fn lemma_count_at_most_one(x: Seq<Receipt>, p: int)
    requires
        distinct_positions(x),
        0 <= p < x.len(),
    ensures
        x.to_multiset().count(x[p]) == 1,
{
    broadcast use vstd::multiset::group_multiset_axioms;

    let rest = x.remove(p);
    to_multiset_remove(x, p);
    to_multiset_contains(rest, x[p]);
    to_multiset_contains(x, x[p]);
}

/// Receipts with distinct positions have one canonical order only.
pub proof fn lemma_canonical_unique(x: Seq<Receipt>, y: Seq<Receipt>)
    requires
        ordered(x),
        ordered(y),
        x.to_multiset() == y.to_multiset(),
        distinct_positions(x),
    ensures
        x == y,
    decreases x.len(),
{
    broadcast use vstd::multiset::group_multiset_axioms;

    to_multiset_len(x);
    to_multiset_len(y);
    if x.len() > 0 {
        let n = x.len() - 1;
        to_multiset_contains(x, x[n]);
        to_multiset_contains(y, x[n]);
        to_multiset_contains(x, y[n]);
        to_multiset_contains(y, y[n]);
        assert(x[n].position().le(y[n].position()));
        assert(y[n].position().le(x[n].position()));
        lemma_cursor_lt_asymmetric(x[n].position(), y[n].position());
        to_multiset_remove(x, n);
        to_multiset_remove(y, n);
        lemma_canonical_unique(x.drop_last(), y.drop_last());
        assert(x =~= x.drop_last().push(x[n]));
    }
}

/// An ordered sequence of receipts with distinct positions is strictly
/// ordered.
pub proof fn lemma_ordered_distinct_is_strict(s: Seq<Receipt>)
    requires
        ordered(s),
        distinct_positions(s),
    ensures
        strictly_ordered(s),
{
    assert forall|i: int, j: int| 0 <= i < j < s.len() implies s[i].position().lt(
        s[j].position(),
    ) by {
        assert(s[i].position().le(s[j].position()));
    }
}

/// The canonical order of receipts with distinct positions depends on which
/// receipts there are, not on the order they are handed over in; and it is
/// strict.
pub proof fn lemma_canonical_of_distinct(records: Seq<Receipt>, s: Seq<Receipt>)
    requires
        distinct_positions(records),
        is_canonical(s, records),
    ensures
        s == canonical(records),
        strictly_ordered(s),
        distinct_positions(s),
{
    lemma_canonical_exists(records);
    lemma_same_receipts_distinct(records, s);
    lemma_canonical_unique(s, canonical(records));
    lemma_ordered_distinct_is_strict(s);
}

} // verus!
