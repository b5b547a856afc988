//! What a caller sees who reads a deal page by page.

use vstd::prelude::*;
use crate::canonical::{canonical, distinct_positions, is_canonical, lemma_canonical_exists,
    lemma_canonical_of_distinct, lemma_canonical_unique, lemma_same_receipts_distinct,
    strictly_ordered};
use vstd::seq_lib::to_multiset_contains;
use crate::cursor::{Cursor, lemma_cursor_lt_asymmetric, lemma_cursor_lt_irreflexive,
    lemma_cursor_lt_transitive};
use crate::order::bytes_lt;
use crate::pagination::{first_after, is_page_of, lemma_first_after, lemma_first_after_is,
    page_of_sorted, page_spec, resume_index, valid_limit, PageView};
use crate::receipt::Receipt;

verus! {

/// In a strictly ordered sequence the page after the receipt at index `k`
/// starts at `k + 1`: the receipt itself is not repeated and none is skipped.
pub proof fn lemma_resume_after_member(s: Seq<Receipt>, k: int)
    requires
        strictly_ordered(s),
        0 <= k < s.len(),
    ensures
        first_after(s, s[k].position()) == k + 1,
{
    let c = s[k].position();
    assert forall|j: int| 0 <= j < k + 1 implies !c.lt(#[trigger] s[j].position()) by {
        if j < k {
            lemma_cursor_lt_asymmetric(s[j].position(), c);
        } else {
            lemma_cursor_lt_irreflexive(c);
        }
    }
    lemma_first_after_is(s, c, k + 1);
}

/// The receipts that a caller collects who asks for page after page of the
/// ordered sequence `s`, starting at `cursor` and handing each page's next
/// cursor to the following call, until a page names none.
pub open spec fn walk(s: Seq<Receipt>, limit: nat, cursor: Option<Cursor>) -> Seq<Receipt>
    decreases s.len() - resume_index(s, cursor),
    when limit >= 1 && strictly_ordered(s)
    via walk_decreases
{
    let page = page_of_sorted(s, limit, cursor);
    match page.next {
        Some(c) => page.receipts + walk(s, limit, Some(c)),
        None => page.receipts,
    }
}

#[via_fn]
proof fn walk_decreases(s: Seq<Receipt>, limit: nat, cursor: Option<Cursor>) {
    let start = resume_index(s, cursor) as int;
    if let Some(c) = cursor {
        lemma_first_after(s, c);
    }
    if start + limit < s.len() {
        lemma_resume_after_member(s, start + limit - 1);
    }
}

/// The same walk over the records of a deal, in whatever order they are
/// stored.
pub open spec fn walk_pages(records: Seq<Receipt>, limit: nat) -> Seq<Receipt> {
    walk(canonical(records), limit, None)
}

/// A walk that starts at `cursor` collects every receipt from the resume
/// point to the end, in order, and nothing else.
pub proof fn lemma_walk_from(s: Seq<Receipt>, limit: nat, cursor: Option<Cursor>)
    requires
        limit >= 1,
        strictly_ordered(s),
    ensures
        walk(s, limit, cursor) == s.skip(resume_index(s, cursor) as int),
    decreases s.len() - resume_index(s, cursor),
{
    let start = resume_index(s, cursor) as int;
    if let Some(c) = cursor {
        lemma_first_after(s, c);
    }
    let page = page_of_sorted(s, limit, cursor);
    if start + limit < s.len() {
        let end = start + limit;
        lemma_resume_after_member(s, end - 1);
        lemma_walk_from(s, limit, page.next);
    }
}

/// Reading a deal page by page, with any valid page size, yields every one
/// of its receipts exactly once, in ascending order of timestamp and then
/// identifier: nothing is skipped and nothing comes twice.
pub proof fn lemma_full_walk(records: Seq<Receipt>, limit: u32)
    requires
        distinct_positions(records),
        valid_limit(limit),
    ensures
        walk_pages(records, limit as nat) == canonical(records),
        walk_pages(records, limit as nat).to_multiset() == records.to_multiset(),
        walk_pages(records, limit as nat).len() == records.len(),
        strictly_ordered(walk_pages(records, limit as nat)),
{
    let s = canonical(records);
    lemma_canonical_exists(records);
    lemma_canonical_of_distinct(records, s);
    lemma_walk_from(s, limit as nat, None);
}

/// One page that is large enough for the whole deal holds the same receipts,
/// in the same order, as all the pages of a walk with a smaller page size
/// put together; and it names no next page.
pub proof fn lemma_one_page_is_walk(records: Seq<Receipt>, large: u32, small: u32)
    requires
        distinct_positions(records),
        valid_limit(large),
        valid_limit(small),
        records.len() <= large,
    ensures
        page_spec(records, large as nat, None).receipts == walk_pages(records, small as nat),
        page_spec(records, large as nat, None).next is None,
{
    lemma_full_walk(records, small);
}

/// A page is a function of which records there are, of the page size and of
/// the cursor: two calls on the same records, however each call found them
/// arranged, return the same page.
pub proof fn lemma_page_deterministic(
    first: PageView,
    second: PageView,
    records: Seq<Receipt>,
    rearranged: Seq<Receipt>,
    limit: u32,
    cursor: Option<Cursor>,
)
    requires
        distinct_positions(records),
        records.to_multiset() == rearranged.to_multiset(),
        is_page_of(first, records, limit as nat, cursor),
        is_page_of(second, rearranged, limit as nat, cursor),
    ensures
        first == second,
        first == page_spec(records, limit as nat, cursor),
        canonical(records) == canonical(rearranged),
{
    let s1 = choose|s: Seq<Receipt>| #[trigger]
        is_canonical(s, records) && first == page_of_sorted(s, limit as nat, cursor);
    let s2 = choose|s: Seq<Receipt>| #[trigger]
        is_canonical(s, rearranged) && second == page_of_sorted(s, limit as nat, cursor);
    lemma_canonical_of_distinct(records, s1);
    lemma_canonical_unique(s1, s2);
    lemma_same_receipts_distinct(records, rearranged);
    lemma_canonical_of_distinct(rearranged, s2);
}

/// What a page holds, whatever the cursor: exactly the records that lie
/// strictly after the cursor and, where the page names a next cursor, at or
/// before it. So a cursor that matches no record, or one taken before more
/// records were appended, resumes at the first record after it, and a
/// cursor at or beyond the last record yields an empty page.
pub proof fn lemma_page_contents(
    records: Seq<Receipt>,
    limit: u32,
    cursor: Option<Cursor>,
    r: Receipt,
)
    requires
        distinct_positions(records),
        valid_limit(limit),
    ensures
        page_spec(records, limit as nat, cursor).receipts.contains(r) <==> {
            &&& records.contains(r)
            &&& cursor matches Some(c) ==> c.lt(r.position())
            &&& page_spec(records, limit as nat, cursor).next matches Some(n) ==> r.position().le(n)
        },
        strictly_ordered(page_spec(records, limit as nat, cursor).receipts),
        page_spec(records, limit as nat, cursor).receipts.len() <= limit,
{
    let s = canonical(records);
    let page = page_spec(records, limit as nat, cursor);
    lemma_canonical_exists(records);
    lemma_canonical_of_distinct(records, s);
    to_multiset_contains(s, r);
    to_multiset_contains(records, r);
    let start = resume_index(s, cursor) as int;
    if let Some(c) = cursor {
        lemma_first_after(s, c);
    }
    let end = if start + limit < s.len() {
        start + limit
    } else {
        s.len() as int
    };
    if page.receipts.contains(r) {
        let i = choose|i: int| 0 <= i < page.receipts.len() && page.receipts[i] == r;
        let k = start + i;
        if let Some(c) = cursor {
            if k > start {
                lemma_cursor_lt_transitive(c, s[start].position(), s[k].position());
            }
        }
    }
    if s.contains(r) {
        let k = choose|k: int| 0 <= k < s.len() && s[k] == r;
        let after_cursor = cursor matches Some(c) ==> c.lt(r.position());
        let before_next = page.next matches Some(n) ==> r.position().le(n);
        if after_cursor && before_next {
            if end < s.len() && k >= end {
                lemma_cursor_lt_asymmetric(s[end - 1].position(), s[k].position());
                lemma_cursor_lt_irreflexive(s[k].position());
            }
            assert(page.receipts[k - start] == r);
        }
    }
}

/// Receipts with the same timestamp appear in ascending order of their
/// identifiers, whatever order they were appended in.
pub proof fn lemma_ties_ascend_by_identifier(
    records: Seq<Receipt>,
    rearranged: Seq<Receipt>,
    i: int,
    j: int,
)
    requires
        distinct_positions(records),
        records.to_multiset() == rearranged.to_multiset(),
        0 <= i < j < records.len(),
        canonical(records)[i].timestamp == canonical(records)[j].timestamp,
    ensures
        bytes_lt(canonical(records)[i].tx_id@, canonical(records)[j].tx_id@),
        canonical(rearranged) == canonical(records),
{
    let s = canonical(records);
    lemma_canonical_exists(records);
    lemma_canonical_of_distinct(records, s);
    assert(s[i].position().lt(s[j].position()));
    lemma_canonical_exists(rearranged);
    lemma_canonical_unique(s, canonical(rearranged));
}

} // verus!
