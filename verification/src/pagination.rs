//! Cursor pagination over a deal's receipts: where a page starts, what it
//! holds, and what cursor it hands on.

use vstd::prelude::*;
use crate::canonical::{canonical, distinct_positions, is_canonical, ordered};
use crate::cursor::{Cursor, lemma_cursor_lt_transitive};
use crate::error::PaymentsError;
use crate::receipt::{Receipt, ReceiptPage};
use crate::sort::sort_receipts;

verus! {

/// The largest page size a caller may ask for.
pub const MAX_PAGE_SIZE: u32 = 100;

/// Whether `limit` is an acceptable page size.
pub open spec fn valid_limit(limit: u32) -> bool {
    1 <= limit <= MAX_PAGE_SIZE
}

/// What a page says: its receipts, and the cursor for the page after it
/// where there is one.
pub struct PageView {
    pub receipts: Seq<Receipt>,
    pub next: Option<Cursor>,
}

impl View for ReceiptPage {
    type V = PageView;

    open spec fn view(&self) -> PageView {
        PageView {
            receipts: self.receipts@,
            next: if self.has_next {
                Some(self.next_cursor)
            } else {
                None
            },
        }
    }
}

impl ReceiptPage {
    /// A page that announces no further page carries the sentinel cursor.
    pub open spec fn wf(&self) -> bool {
        !self.has_next ==> self.next_cursor.is_sentinel()
    }
}

/// Index of the first receipt of `s` that lies strictly after `c`, or the
/// length of `s` where none does.
pub open spec fn first_after(s: Seq<Receipt>, c: Cursor) -> nat
    decreases s.len(),
{
    if s.len() == 0 || c.lt(s[0].position()) {
        0
    } else {
        1 + first_after(s.drop_first(), c)
    }
}

/// Where a page that resumes at `cursor` starts: at the front without a
/// cursor, else at the first receipt strictly after it.
pub open spec fn resume_index(s: Seq<Receipt>, cursor: Option<Cursor>) -> nat {
    match cursor {
        None => 0,
        Some(c) => first_after(s, c),
    }
}

/// The page of at most `limit` receipts that resumes at `cursor` in the
/// ordered sequence `s`. It names a next cursor, the position of its last
/// receipt, exactly when receipts remain after it.
pub open spec fn page_of_sorted(s: Seq<Receipt>, limit: nat, cursor: Option<Cursor>) -> PageView
    recommends
        limit >= 1,
{
    let start = resume_index(s, cursor) as int;
    let end = if start + limit < s.len() {
        start + limit
    } else {
        s.len() as int
    };
    PageView {
        receipts: s.subrange(start, end),
        next: if end < s.len() {
            Some(s[end - 1].position())
        } else {
            None
        },
    }
}

/// The page of `records` taken in canonical order.
pub open spec fn page_spec(records: Seq<Receipt>, limit: nat, cursor: Option<Cursor>) -> PageView
    recommends
        limit >= 1,
{
    page_of_sorted(canonical(records), limit, cursor)
}

/// `page` is a page of `records` taken in some canonical order of them.
/// Records that share a position may have more than one.
pub open spec fn is_page_of(
    page: PageView,
    records: Seq<Receipt>,
    limit: nat,
    cursor: Option<Cursor>,
) -> bool {
    exists|s: Seq<Receipt>| #[trigger]
        is_canonical(s, records) && page == page_of_sorted(s, limit, cursor)
}

/// `first_after` is a valid index or the length; no receipt before it lies
/// after `c`, and the receipt at it does.
pub proof fn lemma_first_after(s: Seq<Receipt>, c: Cursor)
    ensures
        first_after(s, c) <= s.len(),
        forall|k: int| 0 <= k < first_after(s, c) ==> !c.lt(#[trigger] s[k].position()),
        first_after(s, c) < s.len() ==> c.lt(s[first_after(s, c) as int].position()),
    decreases s.len(),
{
    if s.len() > 0 && !c.lt(s[0].position()) {
        let rest = s.drop_first();
        lemma_first_after(rest, c);
        assert forall|k: int| 0 <= k < first_after(s, c) implies !c.lt(
            #[trigger] s[k].position(),
        ) by {
            if k > 0 {
                assert(s[k] == rest[k - 1]);
            }
        }
    }
}

/// An index that splits `s` into receipts not after `c` and a receipt after
/// `c` is `first_after(s, c)`.
pub proof fn lemma_first_after_is(s: Seq<Receipt>, c: Cursor, i: int)
    requires
        0 <= i <= s.len(),
        forall|k: int| 0 <= k < i ==> !c.lt(#[trigger] s[k].position()),
        i < s.len() ==> c.lt(s[i].position()),
    ensures
        first_after(s, c) == i,
    decreases s.len(),
{
    if s.len() > 0 && !c.lt(s[0].position()) {
        lemma_first_after_is(s.drop_first(), c, i - 1);
    }
}

/// Finds where a page that resumes at `cursor` starts in the ordered
/// receipts `sorted`.
pub fn resume_point(sorted: &Vec<Receipt>, cursor: &Option<Cursor>) -> (index: usize)
    requires
        ordered(sorted@),
    ensures
        index == resume_index(sorted@, *cursor),
        index <= sorted.len(),
{
    match cursor {
        None => 0,
        Some(c) => {
            let mut lo: usize = 0;
            let mut hi: usize = sorted.len();
            while lo < hi
                invariant
                    0 <= lo <= hi <= sorted.len(),
                    ordered(sorted@),
                    forall|k: int| 0 <= k < lo ==> !c.lt(#[trigger] sorted@[k].position()),
                    forall|k: int| hi <= k < sorted.len() ==> c.lt(#[trigger] sorted@[k].position()),
                decreases hi - lo,
            {
                let mid = lo + (hi - lo) / 2;
                let at_mid = sorted[mid].position();
                if c.precedes(&at_mid) {
                    proof {
                        assert forall|k: int| mid <= k < sorted.len() implies c.lt(
                            #[trigger] sorted@[k].position(),
                        ) by {
                            if k > mid {
                                let p = sorted@[k].position();
                                assert(at_mid.le(p));
                                if at_mid.lt(p) {
                                    lemma_cursor_lt_transitive(*c, at_mid, p);
                                }
                            }
                        }
                    }
                    hi = mid;
                } else {
                    proof {
                        assert forall|k: int| 0 <= k < mid + 1 implies !c.lt(
                            #[trigger] sorted@[k].position(),
                        ) by {
                            let p = sorted@[k].position();
                            if k < mid && c.lt(p) {
                                assert(p.le(at_mid));
                                if p.lt(at_mid) {
                                    lemma_cursor_lt_transitive(*c, p, at_mid);
                                }
                            }
                        }
                    }
                    lo = mid + 1;
                }
            }
            proof {
                lemma_first_after_is(sorted@, *c, lo as int);
            }
            lo
        },
    }
}

/// Cuts the page that resumes at `cursor` out of the ordered receipts
/// `sorted`.
pub fn assemble_page(sorted: &Vec<Receipt>, limit: u32, cursor: &Option<Cursor>) -> (page:
    ReceiptPage)
    requires
        ordered(sorted@),
        valid_limit(limit),
    ensures
        page@ == page_of_sorted(sorted@, limit as nat, *cursor),
        page.wf(),
{
    let start = resume_point(sorted, cursor);
    let len = sorted.len();
    let end = if (limit as usize) < len - start {
        start + limit as usize
    } else {
        len
    };
    let mut receipts: Vec<Receipt> = Vec::with_capacity(end - start);
    let mut i = start;
    while i < end
        invariant
            start <= i <= end <= sorted.len(),
            receipts@ == sorted@.subrange(start as int, i as int),
        decreases end - i,
    {
        receipts.push(sorted[i]);
        i += 1;
    }
    if end < len {
        ReceiptPage { receipts, has_next: true, next_cursor: sorted[end - 1].position() }
    } else {
        ReceiptPage { receipts, has_next: false, next_cursor: Cursor::sentinel() }
    }
}

/// Returns one page of `records`: up to `limit` of them in canonical order,
/// starting after `cursor`, or from the front without one. The records may
/// come in any order. Any cursor is accepted, whether or not a record sits
/// at it. The call is rejected exactly when `limit` is not between 1 and
/// 100.
pub fn paginate(records: &Vec<Receipt>, limit: u32, cursor: Option<Cursor>) -> (result: Result<
    ReceiptPage,
    PaymentsError,
>)
    ensures
        !valid_limit(limit) ==> result == Err::<ReceiptPage, PaymentsError>(
            PaymentsError::InvalidLimit,
        ),
        valid_limit(limit) ==> result is Ok,
        result matches Ok(page) ==> {
            &&& page.wf()
            &&& is_page_of(page@, records@, limit as nat, cursor)
            &&& distinct_positions(records@) ==> page@ == page_spec(
                records@,
                limit as nat,
                cursor,
            )
        },
{
    if limit == 0 || limit > MAX_PAGE_SIZE {
        return Err(PaymentsError::InvalidLimit);
    }
    let sorted = sort_receipts(records);
    let page = assemble_page(&sorted, limit, &cursor);
    Ok(page)
}

} // verus!
