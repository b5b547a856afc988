//! Receipts and pages of receipts.

use vstd::prelude::*;
use crate::address::Address;
use crate::cursor::{Cursor, Timestamp, TxId};

verus! {

/// Identifies a deal: the partition that a receipt belongs to.
pub type DealId = u64;

/// Number of a receipt within its deal, counted from 1.
pub type ReceiptId = u64;

/// The record of one payment made under a deal.
#[derive(Clone, Copy, Debug, PartialEq, Eq)]
pub struct Receipt {
    pub id: ReceiptId,
    pub deal_id: DealId,
    pub amount: i128,
    pub timestamp: Timestamp,
    pub tx_id: TxId,
    pub payer: Address,
}

impl Receipt {
    /// The receipt's place in the canonical order.
    pub open spec fn spec_position(&self) -> Cursor {
        Cursor { timestamp: self.timestamp, tx_id: self.tx_id }
    }

    /// The receipt's place in the canonical order.
    #[verifier::when_used_as_spec(spec_position)]
    pub fn position(&self) -> (c: Cursor)
        ensures
            c == self.spec_position(),
    {
        Cursor { timestamp: self.timestamp, tx_id: self.tx_id }
    }
}

/// One page of a deal's receipts.
#[derive(Debug, PartialEq, Eq)]
pub struct ReceiptPage {
    /// The receipts of this page, in canonical order.
    pub receipts: Vec<Receipt>,
    /// Whether receipts remain after this page.
    pub has_next: bool,
    /// Where the next page starts; the sentinel unless `has_next`.
    pub next_cursor: Cursor,
}

impl Clone for ReceiptPage {
    fn clone(&self) -> (copy: Self)
        ensures
            copy.receipts@ == self.receipts@,
            copy.has_next == self.has_next,
            copy.next_cursor == self.next_cursor,
    {
        let mut receipts: Vec<Receipt> = Vec::with_capacity(self.receipts.len());
        let mut i: usize = 0;
        while i < self.receipts.len()
            invariant
                0 <= i <= self.receipts.len(),
                receipts@ == self.receipts@.take(i as int),
            decreases self.receipts.len() - i,
        {
            receipts.push(self.receipts[i]);
            i += 1;
        }
        ReceiptPage { receipts, has_next: self.has_next, next_cursor: self.next_cursor }
    }
}

} // verus!
