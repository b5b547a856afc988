//! The receipt log: an append-only record of payments, kept per deal, which
//! its administrator extends and anyone may read page by page.

use vstd::prelude::*;
use vstd::seq_lib::to_multiset_contains;
use crate::address::Address;
use crate::canonical::{canonical, distinct_positions, lemma_canonical_exists,
    lemma_canonical_of_distinct, ordered, strictly_ordered};
pub use crate::cursor::{Cursor, Timestamp, TxId};
pub use crate::error::PaymentsError;
use crate::pagination::{lemma_first_after, page_spec, paginate, valid_limit};
pub use crate::receipt::{DealId, Receipt, ReceiptId, ReceiptPage};
use crate::tx_id::{lemma_minted_order, mint_tx_id, minted};
use crate::walk::{lemma_full_walk, walk_pages};
use crate::wire::{be_bytes, be_value, lemma_be_bytes_len, lemma_be_value_bound,
    lemma_be_value_of_bytes, lemma_pow256_values};

verus! {

/// Names the slots of the log's store.
#[derive(Clone, Copy, Debug, PartialEq, Eq)]
pub enum DataKey {
    /// The administrator.
    Admin,
    /// Reserved; the log never fills it.
    Deals,
    /// The receipts of one deal.
    Receipts(DealId),
    /// How many receipts one deal has.
    ReceiptCount(DealId),
}

/// Selects the receipts of one deal.
pub open spec fn in_deal(deal_id: DealId) -> spec_fn(Receipt) -> bool {
    |r: Receipt| r.deal_id == deal_id
}

/// The receipts of `deal_id` among `log`, in the order of `log`.
pub open spec fn partition(log: Seq<Receipt>, deal_id: DealId) -> Seq<Receipt> {
    log.filter(in_deal(deal_id))
}

/// The counter value that a receipt's identifier was minted from.
pub open spec fn counter_of(r: Receipt) -> nat {
    be_value(r.tx_id@.subrange(8, 16))
}

/// Each receipt's number is its place among the receipts of its deal,
/// counted from 1 in the order of creation.
pub open spec fn numbered(log: Seq<Receipt>) -> bool {
    forall|i: int|
        0 <= i < log.len() ==> (#[trigger] log[i]).id == partition(
            log.take(i),
            log[i].deal_id,
        ).len() + 1
}

/// Each identifier was minted at its receipt's timestamp, from a counter
/// value between 1 and `minted_so_far` that is larger than those of all
/// earlier receipts.
pub open spec fn minted_in_order(log: Seq<Receipt>, minted_so_far: nat) -> bool {
    &&& forall|i: int|
        0 <= i < log.len() ==> 1 <= counter_of(#[trigger] log[i]) <= minted_so_far
    &&& forall|i: int|
        0 <= i < log.len() ==> (#[trigger] log[i]).tx_id@ == minted(
            log[i].timestamp,
            counter_of(log[i]) as u64,
        )
    &&& forall|i: int, j: int|
        0 <= i < j < log.len() ==> counter_of(#[trigger] log[i]) < counter_of(#[trigger] log[j])
}

/// What holds of every log: its receipts are numbered per deal, carry
/// positive amounts and have identifiers minted in order.
pub open spec fn well_formed_log(log: Seq<Receipt>, minted_so_far: nat) -> bool {
    &&& numbered(log)
    &&& minted_in_order(log, minted_so_far)
    &&& forall|i: int| 0 <= i < log.len() ==> (#[trigger] log[i]).amount > 0
}

/// The receipt that the log creates next for `deal_id`, after `count`
/// receipts of that deal and `minted_so_far` identifiers.
pub open spec fn next_receipt_spec(
    count: nat,
    minted_so_far: nat,
    timestamp: Timestamp,
    deal_id: DealId,
    amount: i128,
    payer: Address,
    r: Receipt,
) -> bool {
    &&& r.id == count + 1
    &&& r.deal_id == deal_id
    &&& r.amount == amount
    &&& r.timestamp == timestamp
    &&& r.tx_id@ == minted(timestamp, (minted_so_far + 1) as u64)
    &&& r.payer == payer
}

/// The contract's state as a value.
pub struct PaymentsView {
    /// The administrator, once the log is initialised.
    pub admin: Option<Address>,
    /// Every receipt, in the order of creation.
    pub log: Seq<Receipt>,
    /// How many identifiers have been minted.
    pub minted: nat,
}

/// The receipt log of all deals.
pub struct RentPayments {
    admin: Option<Address>,
    log: Vec<Receipt>,
    minted: u64,
}

impl View for RentPayments {
    type V = PaymentsView;

    closed spec fn view(&self) -> PaymentsView {
        PaymentsView { admin: self.admin, log: self.log@, minted: self.minted as nat }
    }
}

impl RentPayments {
    #[verifier::type_invariant]
    spec fn inv(self) -> bool {
        well_formed_log(self.log@, self.minted as nat)
    }

    /// A log without administrator and without receipts.
    pub fn new() -> (state: Self)
        ensures
            state@ == (PaymentsView { admin: None, log: Seq::empty(), minted: 0 }),
    {
        RentPayments { admin: None, log: Vec::new(), minted: 0 }
    }

    /// The administrator, once `init` has named one.
    pub fn admin(&self) -> (admin: Option<Address>)
        ensures
            admin == self@.admin,
    {
        self.admin
    }

    /// Names the administrator. This is done once: the call is rejected
    /// exactly when the log has an administrator already.
    pub fn init(&mut self, admin: Address) -> (result: Result<(), PaymentsError>)
        ensures
            old(self)@.admin is Some ==> result == Err::<(), PaymentsError>(
                PaymentsError::AlreadyInitialized,
            ) && final(self)@ == old(self)@,
            old(self)@.admin is None ==> result is Ok && final(self)@ == (PaymentsView {
                admin: Some(admin),
                ..old(self)@
            }),
    {
        proof {
            use_type_invariant(&*self);
        }
        if self.admin.is_some() {
            return Err(PaymentsError::AlreadyInitialized);
        }
        self.admin = Some(admin);
        Ok(())
    }

    /// Whether the call may go on: the log has an administrator, and
    /// `caller` is the one.
    pub fn require_admin(&self, caller: &Address) -> (result: Result<(), PaymentsError>)
        ensures
            result == authorize(self@.admin, *caller),
    {
        match &self.admin {
            None => Err(PaymentsError::AdminNotSet),
            Some(admin) => {
                if admin.same_as(caller) {
                    Ok(())
                } else {
                    Err(PaymentsError::NotAuthorized)
                }
            },
        }
    }

    /// The receipts of `deal_id`, in the order of creation.
    pub fn get_receipts(&self, deal_id: DealId) -> (receipts: Vec<Receipt>)
        ensures
            receipts@ == partition(self@.log, deal_id),
            well_formed_log(self@.log, self@.minted),
    {
        proof {
            use_type_invariant(self);
        }
        let mut receipts: Vec<Receipt> = Vec::new();
        let mut i: usize = 0;
        proof {
            Seq::<Receipt>::empty().lemma_filter_len(in_deal(deal_id));
        }
        while i < self.log.len()
            invariant
                0 <= i <= self.log.len(),
                receipts@ == partition(self.log@.take(i as int), deal_id),
            decreases self.log.len() - i,
        {
            let r = self.log[i];
            proof {
                assert(self.log@.take(i + 1) =~= self.log@.take(i as int).push(r));
                self.log@.take(i as int).lemma_filter_push(r, in_deal(deal_id));
            }
            if r.deal_id == deal_id {
                receipts.push(r);
            }
            i += 1;
        }
        assert(self.log@.take(i as int) =~= self.log@);
        receipts
    }

    /// How many receipts were ever created for `deal_id`. The number never
    /// goes down.
    pub fn receipt_count(&self, deal_id: DealId) -> (count: u64)
        ensures
            count == partition(self@.log, deal_id).len(),
    {
        let mut count: u64 = 0;
        let mut i: usize = 0;
        proof {
            Seq::<Receipt>::empty().lemma_filter_len(in_deal(deal_id));
        }
        while i < self.log.len()
            invariant
                0 <= i <= self.log.len(),
                count == partition(self.log@.take(i as int), deal_id).len(),
                count <= i,
            decreases self.log.len() - i,
        {
            let r = self.log[i];
            proof {
                assert(self.log@.take(i + 1) =~= self.log@.take(i as int).push(r));
                self.log@.take(i as int).lemma_filter_push(r, in_deal(deal_id));
            }
            if r.deal_id == deal_id {
                count += 1;
            }
            i += 1;
        }
        assert(self.log@.take(i as int) =~= self.log@);
        count
    }

    /// Whether the slot that `key` names holds anything.
    pub fn has(&self, key: &DataKey) -> (present: bool)
        ensures
            present == match *key {
                DataKey::Admin => self@.admin is Some,
                DataKey::Deals => false,
                DataKey::Receipts(deal_id) => partition(self@.log, deal_id).len() > 0,
                DataKey::ReceiptCount(deal_id) => partition(self@.log, deal_id).len() > 0,
            },
    {
        match key {
            DataKey::Admin => self.admin.is_some(),
            DataKey::Deals => false,
            DataKey::Receipts(deal_id) => self.receipt_count(*deal_id) > 0,
            DataKey::ReceiptCount(deal_id) => self.receipt_count(*deal_id) > 0,
        }
    }

    /// Builds the receipt that follows `count` receipts of `deal_id` and
    /// `minted_so_far` identifiers. The amount must be positive, and both
    /// counters must have room for one more.
    pub fn next_receipt(
        count: u64,
        minted_so_far: u64,
        timestamp: Timestamp,
        deal_id: DealId,
        amount: i128,
        payer: Address,
    ) -> (result: Result<Receipt, PaymentsError>)
        ensures
            amount <= 0 ==> result == Err::<Receipt, PaymentsError>(PaymentsError::InvalidAmount),
            amount > 0 && (count == u64::MAX || minted_so_far == u64::MAX) ==> result == Err::<
                Receipt,
                PaymentsError,
            >(PaymentsError::CounterExhausted),
            amount > 0 && count < u64::MAX && minted_so_far < u64::MAX ==> result is Ok,
            result matches Ok(r) ==> next_receipt_spec(
                count as nat,
                minted_so_far as nat,
                timestamp,
                deal_id,
                amount,
                payer,
                r,
            ),
    {
        if amount <= 0 {
            return Err(PaymentsError::InvalidAmount);
        }
        if count == u64::MAX || minted_so_far == u64::MAX {
            return Err(PaymentsError::CounterExhausted);
        }
        let tx_id = mint_tx_id(timestamp, minted_so_far + 1);
        Ok(Receipt { id: count + 1, deal_id, amount, timestamp, tx_id, payer })
    }

    /// Records a payment of `amount` by `payer` under `deal_id`, made at
    /// `timestamp`, and returns its receipt. Only the administrator may do
    /// this, and the amount must be positive. A rejected call leaves the log
    /// as it was; an accepted one appends the receipt and touches no other.
    pub fn create_receipt(
        &mut self,
        caller: &Address,
        deal_id: DealId,
        amount: i128,
        payer: Address,
        timestamp: Timestamp,
    ) -> (result: Result<Receipt, PaymentsError>)
        ensures
            create_check(old(self)@, *caller, amount) matches Err(e) ==> result == Err::<
                Receipt,
                PaymentsError,
            >(e) && final(self)@ == old(self)@,
            create_check(old(self)@, *caller, amount) is Ok ==> result is Ok,
            result matches Ok(r) ==> {
                &&& next_receipt_spec(
                    partition(old(self)@.log, deal_id).len(),
                    old(self)@.minted,
                    timestamp,
                    deal_id,
                    amount,
                    payer,
                    r,
                )
                &&& final(self)@ == (PaymentsView {
                    log: old(self)@.log.push(r),
                    minted: old(self)@.minted + 1,
                    ..old(self)@
                })
                &&& partition(final(self)@.log, deal_id) == partition(old(self)@.log, deal_id).push(
                    r,
                )
                &&& forall|other: DealId|
                    other != deal_id ==> #[trigger] partition(final(self)@.log, other) == partition(
                        old(self)@.log,
                        other,
                    )
            },
    {
        proof {
            use_type_invariant(&*self);
            lemma_partition_of_log(self.log@, self.minted as nat, deal_id);
        }
        match self.require_admin(caller) {
            Err(e) => {
                return Err(e);
            },
            Ok(()) => {},
        }
        let count = self.receipt_count(deal_id);
        let receipt = match RentPayments::next_receipt(
            count,
            self.minted,
            timestamp,
            deal_id,
            amount,
            payer,
        ) {
            Err(e) => {
                return Err(e);
            },
            Ok(r) => r,
        };
        proof {
            lemma_appended_log(self.log@, self.minted as nat, receipt);
        }
        let mut log: Vec<Receipt> = Vec::new();
        std::mem::swap(&mut self.log, &mut log);
        log.push(receipt);
        self.minted = self.minted + 1;
        self.log = log;
        Ok(receipt)
    }

    /// Returns one page of the receipts of `deal_id`: up to `limit` of them
    /// in canonical order, starting after `cursor`, or from the front
    /// without one. Receipts of other deals never appear. The call is
    /// rejected exactly when `limit` is not between 1 and 100; any cursor is
    /// accepted.
    pub fn list_receipts_by_deal(
        &self,
        deal_id: DealId,
        limit: u32,
        cursor: Option<Cursor>,
    ) -> (result: Result<ReceiptPage, PaymentsError>)
        ensures
            !valid_limit(limit) ==> result == Err::<ReceiptPage, PaymentsError>(
                PaymentsError::InvalidLimit,
            ),
            valid_limit(limit) ==> result is Ok,
            result matches Ok(page) ==> {
                &&& page.wf()
                &&& page@ == page_spec(partition(self@.log, deal_id), limit as nat, cursor)
                &&& forall|i: int|
                    0 <= i < page.receipts.len() ==> (#[trigger] page.receipts@[i]).deal_id
                        == deal_id
            },
    {
        let records = self.get_receipts(deal_id);
        proof {
            use_type_invariant(self);
            lemma_partition_of_log(self.log@, self.minted as nat, deal_id);
        }
        let result = paginate(&records, limit, cursor);
        proof {
            if let Ok(page) = &result {
                lemma_page_within(records@, limit as nat, cursor);
                assert forall|i: int| 0 <= i < page.receipts.len() implies (
                #[trigger] page.receipts@[i]).deal_id == deal_id by {
                    let r = page.receipts@[i];
                    assert(records@.contains(r));
                }
            }
        }
        result
    }
}

/// Whether a call that `caller` authorised may change a contract whose
/// administrator is `admin`.
pub open spec fn authorize(admin: Option<Address>, caller: Address) -> Result<(), PaymentsError> {
    match admin {
        None => Err(PaymentsError::AdminNotSet),
        Some(a) => if a == caller {
            Ok(())
        } else {
            Err(PaymentsError::NotAuthorized)
        },
    }
}

/// Whether `create_receipt` goes ahead: the first rule that a call breaks
/// decides its error.
pub open spec fn create_check(state: PaymentsView, caller: Address, amount: i128) -> Result<
    (),
    PaymentsError,
> {
    if authorize(state.admin, caller) is Err {
        authorize(state.admin, caller)
    } else if amount <= 0 {
        Err(PaymentsError::InvalidAmount)
    } else if state.minted >= u64::MAX {
        Err(PaymentsError::CounterExhausted)
    } else {
        Ok(())
    }
}

/// Every receipt of a page is one of the records that the page was taken
/// from.
pub proof fn lemma_page_within(records: Seq<Receipt>, limit: nat, cursor: Option<Cursor>)
    requires
        limit >= 1,
    ensures
        forall|r: Receipt|
            page_spec(records, limit, cursor).receipts.contains(r) ==> records.contains(r),
{
    let s = canonical(records);
    let page = page_spec(records, limit, cursor);
    lemma_canonical_exists(records);
    assert forall|r: Receipt| page.receipts.contains(r) implies records.contains(r) by {
        if let Some(c) = cursor {
            lemma_first_after(s, c);
        }
        to_multiset_contains(s, r);
        to_multiset_contains(records, r);
    }
}

/// Appending the next receipt keeps a log well formed, adds the receipt to
/// its own deal and changes the receipts of no other deal.
pub proof fn lemma_appended_log(log: Seq<Receipt>, minted_so_far: nat, r: Receipt)
    requires
        well_formed_log(log, minted_so_far),
        minted_so_far < u64::MAX,
        r.amount > 0,
        r.id == partition(log, r.deal_id).len() + 1,
        r.tx_id@ == minted(r.timestamp, (minted_so_far + 1) as u64),
    ensures
        well_formed_log(log.push(r), minted_so_far + 1),
        partition(log.push(r), r.deal_id) == partition(log, r.deal_id).push(r),
        forall|other: DealId|
            other != r.deal_id ==> #[trigger] partition(log.push(r), other) == partition(
                log,
                other,
            ),
{
    let grown = log.push(r);
    lemma_counter_of_minted(r, r.timestamp, (minted_so_far + 1) as u64);
    assert forall|i: int| 0 <= i < grown.len() implies (#[trigger] grown[i]).id == partition(
        grown.take(i),
        grown[i].deal_id,
    ).len() + 1 by {
        if i < log.len() {
            assert(grown.take(i) =~= log.take(i));
        } else {
            assert(grown.take(i) =~= log);
        }
    }
    assert(minted_in_order(grown, minted_so_far + 1));
    log.lemma_filter_push(r, in_deal(r.deal_id));
    assert forall|other: DealId| other != r.deal_id implies #[trigger] partition(grown, other)
        == partition(log, other) by {
        log.lemma_filter_push(r, in_deal(other));
    }
}

/// Of two receipts of a well-formed log, the one created later lies later in
/// the canonical order unless it carries an earlier timestamp: among
/// receipts of one instant the identifiers keep the order of creation.
pub proof fn lemma_creation_order(log: Seq<Receipt>, minted_so_far: nat, i: int, j: int)
    requires
        well_formed_log(log, minted_so_far),
        0 <= i < j < log.len(),
        log[i].timestamp <= log[j].timestamp,
    ensures
        log[i].position().lt(log[j].position()),
{
    lemma_pow256_values();
    lemma_be_value_bound(log[i].tx_id@.subrange(8, 16));
    lemma_be_value_bound(log[j].tx_id@.subrange(8, 16));
    lemma_minted_order(
        log[i].timestamp,
        counter_of(log[i]) as u64,
        log[j].timestamp,
        counter_of(log[j]) as u64,
    );
}

/// The timestamps of a log never go down.
pub open spec fn timestamps_ascend(log: Seq<Receipt>) -> bool {
    forall|i: int, j: int|
        0 <= i < j < log.len() ==> (#[trigger] log[i]).timestamp <= (#[trigger] log[j]).timestamp
}

/// Where the clock never went back, the canonical order of a deal is the
/// order in which its receipts were created.
pub proof fn lemma_canonical_is_creation_order(
    log: Seq<Receipt>,
    minted_so_far: nat,
    deal_id: DealId,
)
    requires
        well_formed_log(log, minted_so_far),
        timestamps_ascend(log),
    ensures
        strictly_ordered(partition(log, deal_id)),
        canonical(partition(log, deal_id)) == partition(log, deal_id),
    decreases log.len(),
{
    let part = partition(log, deal_id);
    if log.len() > 0 {
        let front = log.drop_last();
        let last = log.last();
        assert(log =~= front.push(last));
        assert forall|i: int| 0 <= i < front.len() implies (#[trigger] front[i]).id == partition(
            front.take(i),
            front[i].deal_id,
        ).len() + 1 by {
            assert(front.take(i) =~= log.take(i));
        }
        lemma_canonical_is_creation_order(front, minted_so_far, deal_id);
        let inner = partition(front, deal_id);
        front.lemma_filter_push(last, in_deal(deal_id));
        if in_deal(deal_id)(last) {
            assert forall|k: int, l: int| 0 <= k < l < part.len() implies part[k].position().lt(
                part[l].position(),
            ) by {
                if l == part.len() - 1 {
                    front.lemma_filter_contains_rev(in_deal(deal_id), inner[k]);
                    let p = choose|p: int| 0 <= p < front.len() && front[p] == inner[k];
                    lemma_creation_order(log, minted_so_far, p, log.len() - 1);
                }
            }
        }
    }
    assert(ordered(part));
    lemma_partition_of_log(log, minted_so_far, deal_id);
    lemma_canonical_of_distinct(part, part);
}

/// Reading one deal of a well-formed log page by page, with any valid page
/// size, yields each of its receipts exactly once, in canonical order.
pub proof fn lemma_walk_of_deal(log: Seq<Receipt>, minted_so_far: nat, deal_id: DealId, limit: u32)
    requires
        well_formed_log(log, minted_so_far),
        valid_limit(limit),
    ensures
        walk_pages(partition(log, deal_id), limit as nat) == canonical(partition(log, deal_id)),
        walk_pages(partition(log, deal_id), limit as nat).to_multiset() == partition(
            log,
            deal_id,
        ).to_multiset(),
        strictly_ordered(walk_pages(partition(log, deal_id), limit as nat)),
{
    lemma_partition_of_log(log, minted_so_far, deal_id);
    lemma_full_walk(partition(log, deal_id), limit);
}

/// The number of receipts of a deal never goes down: appending a receipt
/// adds one to the count of its own deal and leaves every other count.
pub proof fn lemma_count_never_drops(log: Seq<Receipt>, r: Receipt, deal_id: DealId)
    ensures
        partition(log.push(r), deal_id).len() == partition(log, deal_id).len() + (if r.deal_id
            == deal_id {
            1nat
        } else {
            0nat
        }),
{
    log.lemma_filter_push(r, in_deal(deal_id));
}

/// Deals are isolated from each other: a receipt appended under one deal
/// changes no page of another deal and appears in none.
pub proof fn lemma_deals_isolated(
    log: Seq<Receipt>,
    r: Receipt,
    other: DealId,
    limit: u32,
    cursor: Option<Cursor>,
)
    requires
        r.deal_id != other,
        valid_limit(limit),
    ensures
        partition(log.push(r), other) == partition(log, other),
        page_spec(partition(log.push(r), other), limit as nat, cursor) == page_spec(
            partition(log, other),
            limit as nat,
            cursor,
        ),
        !page_spec(partition(log.push(r), other), limit as nat, cursor).receipts.contains(r),
{
    log.lemma_filter_push(r, in_deal(other));
    let part = partition(log, other);
    lemma_page_within(part, limit as nat, cursor);
    if part.contains(r) {
        let k = choose|k: int| 0 <= k < part.len() && part[k] == r;
        log.lemma_filter_pred(in_deal(other), k);
    }
}

/// The counter value is read back from a minted identifier.
pub proof fn lemma_counter_of_minted(r: Receipt, timestamp: u64, counter: u64)
    requires
        r.tx_id@ == minted(timestamp, counter),
    ensures
        counter_of(r) == counter,
{
    lemma_be_bytes_len(timestamp as nat, 8);
    lemma_be_bytes_len(counter as nat, 8);
    assert(r.tx_id@.subrange(8, 16) =~= be_bytes(counter as nat, 8));
    lemma_pow256_values();
    lemma_be_value_of_bytes(counter as nat, 8);
}

/// The receipts of one deal in a well-formed log are numbered 1, 2, 3, ...
/// and no two of them share a position.
pub proof fn lemma_partition_of_log(log: Seq<Receipt>, minted_so_far: nat, deal_id: DealId)
    requires
        well_formed_log(log, minted_so_far),
    ensures
        distinct_positions(partition(log, deal_id)),
        forall|k: int|
            0 <= k < partition(log, deal_id).len() ==> {
                &&& (#[trigger] partition(log, deal_id)[k]).id == k + 1
                &&& partition(log, deal_id)[k].deal_id == deal_id
                &&& counter_of(partition(log, deal_id)[k]) <= minted_so_far
            },
        forall|k: int, l: int|
            0 <= k < l < partition(log, deal_id).len() ==> counter_of(
                #[trigger] partition(log, deal_id)[k],
            ) < counter_of(#[trigger] partition(log, deal_id)[l]),
        partition(log, deal_id).len() <= log.len(),
        log.len() <= minted_so_far,
    decreases log.len(),
{
    if log.len() > 0 {
        let front = log.drop_last();
        let last = log.last();
        assert forall|i: int| 0 <= i < front.len() implies (#[trigger] front[i]).id == partition(
            front.take(i),
            front[i].deal_id,
        ).len() + 1 by {
            assert(front.take(i) =~= log.take(i));
        }
        assert(well_formed_log(front, minted_so_far));
        lemma_partition_of_log(front, minted_so_far, deal_id);
        let inner = partition(front, deal_id);
        assert(log =~= front.push(last));
        front.lemma_filter_push(last, in_deal(deal_id));
        // Every receipt of `inner` sits in `front`, so its counter is below that of `last`.
        assert forall|k: int| 0 <= k < inner.len() implies counter_of(#[trigger] inner[k])
            < counter_of(last) by {
            front.lemma_filter_contains_rev(in_deal(deal_id), inner[k]);
        }
        lemma_counters_grow(log, minted_so_far, log.len() - 1);
    }
}

/// The `i`-th receipt of a well-formed log was minted from a counter value
/// above `i`.
proof fn lemma_counters_grow(log: Seq<Receipt>, minted_so_far: nat, i: int)
    requires
        minted_in_order(log, minted_so_far),
        0 <= i < log.len(),
    ensures
        i + 1 <= counter_of(log[i]),
    decreases i,
{
    if i > 0 {
        lemma_counters_grow(log, minted_so_far, i - 1);
    }
}

} // verus!
