use rent_contracts::address::Address;
use rent_contracts::cursor::Cursor;
use rent_contracts::error::PaymentsError;
use rent_contracts::receipt::{Receipt, ReceiptPage};
use rent_contracts::rent_payments::{DataKey, RentPayments};

fn address(tag: u8) -> Address {
    Address { strkey: [tag; 56] }
}

fn setup() -> (Address, RentPayments) {
    let admin = address(b'A');
    let mut contract = RentPayments::new();
    contract.init(admin).unwrap();
    (admin, contract)
}

fn list(contract: &RentPayments, deal_id: u64, limit: u32, cursor: Option<Cursor>) -> ReceiptPage {
    match contract.list_receipts_by_deal(deal_id, limit, cursor) {
        Ok(page) => page,
        Err(e) => panic!("{}", e.message()),
    }
}

fn create(contract: &mut RentPayments, admin: &Address, deal_id: u64, amount: i128, payer: Address) -> Receipt {
    contract.create_receipt(admin, deal_id, amount, payer, 0).unwrap()
}

#[test]
fn test_list_receipts_by_deal_empty() {
    let (_admin, contract) = setup();
    let deal_id = 1u64;

    let page = list(&contract, deal_id, 10u32, None);
    assert_eq!(page.receipts.len(), 0);
    assert!(!page.has_next);
}

#[test]
fn test_list_receipts_by_deal_single_page() {
    let (admin, mut contract) = setup();
    let deal_id = 1u64;
    let payer = address(b'P');

    for i in 1..=5 {
        create(&mut contract, &admin, deal_id, i * 1000, payer);
    }

    let page = list(&contract, deal_id, 10u32, None);
    assert_eq!(page.receipts.len(), 5);
    assert!(!page.has_next);
}

#[test]
fn test_list_receipts_by_deal_pagination() {
    let (admin, mut contract) = setup();
    let deal_id = 1u64;
    let payer = address(b'P');

    for i in 1..=15 {
        create(&mut contract, &admin, deal_id, i * 1000, payer);
    }

    let page1 = list(&contract, deal_id, 10u32, None);
    assert_eq!(page1.receipts.len(), 10);
    assert!(page1.has_next);

    let cursor1 = page1.next_cursor.clone();
    let page2 = list(&contract, deal_id, 10u32, Some(cursor1));
    assert_eq!(page2.receipts.len(), 5);
    assert!(!page2.has_next);

    let page1_ids: Vec<u64> = page1.receipts.iter().map(|r| r.id).collect();
    let page2_ids: Vec<u64> = page2.receipts.iter().map(|r| r.id).collect();

    for id in &page1_ids {
        assert!(!page2_ids.contains(id), "Duplicate receipt found: {}", id);
    }
}

#[test]
fn test_list_receipts_by_deal_no_skipping() {
    let (admin, mut contract) = setup();
    let deal_id = 1u64;
    let payer = address(b'P');

    for i in 1..=25 {
        create(&mut contract, &admin, deal_id, i * 1000, payer);
    }

    let mut all_receipt_ids = Vec::new();
    let mut cursor = None;

    loop {
        let page = list(&contract, deal_id, 10u32, cursor);

        for receipt in page.receipts.iter() {
            all_receipt_ids.push(receipt.id);
        }

        if !page.has_next {
            break;
        }
        cursor = Some(page.next_cursor.clone());
    }

    assert_eq!(all_receipt_ids.len(), 25);

    let mut sorted_ids = all_receipt_ids.clone();
    sorted_ids.sort();
    sorted_ids.dedup();
    assert_eq!(sorted_ids.len(), 25, "Found duplicate receipts");
}

#[test]
fn test_list_receipts_by_deal_stable_ordering() {
    let (admin, mut contract) = setup();
    let deal_id = 1u64;
    let payer = address(b'P');

    for i in 1..=10 {
        create(&mut contract, &admin, deal_id, i * 1000, payer);
    }

    let all_page = list(&contract, deal_id, 100u32, None);

    let mut cursor = None;
    let mut prev_timestamp = 0u64;
    let mut prev_tx_id: Option<[u8; 32]> = None;

    loop {
        let page = list(&contract, deal_id, 3u32, cursor);

        for receipt in page.receipts.iter() {
            assert!(
                receipt.timestamp >= prev_timestamp,
                "Receipts not in ascending timestamp order"
            );

            if receipt.timestamp == prev_timestamp {
                if let Some(ref prev) = prev_tx_id {
                    let receipt_array = receipt.tx_id;
                    let prev_array = *prev;
                    assert!(
                        receipt_array >= prev_array,
                        "Receipts with same timestamp not in ascending tx_id order"
                    );
                }
            }

            prev_timestamp = receipt.timestamp;
            prev_tx_id = Some(receipt.tx_id.clone());
        }

        if !page.has_next {
            break;
        }
        cursor = Some(page.next_cursor.clone());
    }

    let mut paginated_ids: Vec<u64> = Vec::new();
    cursor = None;
    loop {
        let page = list(&contract, deal_id, 3u32, cursor);
        for receipt in page.receipts.iter() {
            paginated_ids.push(receipt.id);
        }
        if !page.has_next {
            break;
        }
        cursor = Some(page.next_cursor.clone());
    }

    let all_ids: Vec<u64> = all_page.receipts.iter().map(|r| r.id).collect();
    assert_eq!(paginated_ids, all_ids, "Paginated results don't match full results");
}

#[test]
#[should_panic(expected = "limit must be between 1 and 100")]
fn test_list_receipts_by_deal_invalid_limit_zero() {
    let (_admin, contract) = setup();
    let deal_id = 1u64;

    list(&contract, deal_id, 0u32, None);
}

#[test]
#[should_panic(expected = "limit must be between 1 and 100")]
fn test_list_receipts_by_deal_invalid_limit_too_large() {
    let (_admin, contract) = setup();
    let deal_id = 1u64;

    list(&contract, deal_id, 101u32, None);
}

#[test]
fn test_list_receipts_by_deal_different_deals() {
    let (admin, mut contract) = setup();
    let payer = address(b'P');

    for i in 1..=5 {
        create(&mut contract, &admin, 1u64, i * 1000, payer);
    }

    for i in 1..=3 {
        create(&mut contract, &admin, 2u64, i * 2000, payer);
    }

    let page1 = list(&contract, 1u64, 10u32, None);
    assert_eq!(page1.receipts.len(), 5);

    let page2 = list(&contract, 2u64, 10u32, None);
    assert_eq!(page2.receipts.len(), 3);
}

#[test]
fn invalid_limits_are_rejected_and_bounds_accepted() {
    let (admin, mut contract) = setup();
    create(&mut contract, &admin, 1, 10, address(b'P'));
    assert_eq!(contract.list_receipts_by_deal(1, 0, None), Err(PaymentsError::InvalidLimit));
    assert_eq!(contract.list_receipts_by_deal(1, 101, None), Err(PaymentsError::InvalidLimit));
    assert_eq!(contract.list_receipts_by_deal(1, u32::MAX, None), Err(PaymentsError::InvalidLimit));
    assert!(contract.list_receipts_by_deal(1, 1, None).is_ok());
    assert!(contract.list_receipts_by_deal(1, 100, None).is_ok());
}

#[test]
fn exact_page_reports_no_more() {
    let (admin, mut contract) = setup();
    for i in 1..=5 {
        create(&mut contract, &admin, 9, i, address(b'P'));
    }
    let page = list(&contract, 9, 5, None);
    assert_eq!(page.receipts.len(), 5);
    assert!(!page.has_next);
    assert_eq!(page.next_cursor, Cursor { timestamp: 0, tx_id: [0u8; 32] });
}

#[test]
fn receipts_are_numbered_per_deal() {
    let (admin, mut contract) = setup();
    let payer = address(b'P');
    let a1 = create(&mut contract, &admin, 1, 100, payer);
    let b1 = create(&mut contract, &admin, 2, 200, payer);
    let a2 = create(&mut contract, &admin, 1, 300, payer);
    assert_eq!((a1.id, a1.deal_id, a1.amount), (1, 1, 100));
    assert_eq!((b1.id, b1.deal_id, b1.amount), (1, 2, 200));
    assert_eq!((a2.id, a2.deal_id, a2.amount), (2, 1, 300));
    assert_eq!(a2.payer, payer);
    assert_eq!(contract.receipt_count(1), 2);
    assert_eq!(contract.receipt_count(2), 1);
    assert_eq!(contract.receipt_count(3), 0);
    assert_eq!(contract.get_receipts(1), vec![a1, a2]);
    assert_eq!(contract.get_receipts(2), vec![b1]);
}

#[test]
fn created_receipt_carries_minted_identifier() {
    let (admin, mut contract) = setup();
    let r = contract
        .create_receipt(&admin, 7, 5, address(b'P'), 0x0102_0304_0506_0708)
        .unwrap();
    let mut expected = [0u8; 32];
    expected[..8].copy_from_slice(&[1, 2, 3, 4, 5, 6, 7, 8]);
    expected[8..16].copy_from_slice(&[0, 0, 0, 0, 0, 0, 0, 1]);
    for i in 16..32 {
        expected[i] = 8u8.wrapping_add(i as u8);
    }
    assert_eq!(r.tx_id, expected);
    assert_eq!(r.timestamp, 0x0102_0304_0506_0708);
    let s = contract.create_receipt(&admin, 7, 5, address(b'P'), 0x0102_0304_0506_0708).unwrap();
    assert_eq!(s.tx_id[15], 2);
    assert!(r.tx_id < s.tx_id);
}

#[test]
fn create_receipt_rejections() {
    let mut fresh = RentPayments::new();
    let admin = address(b'A');
    let other = address(b'B');
    assert_eq!(
        fresh.create_receipt(&admin, 1, 10, other, 0),
        Err(PaymentsError::AdminNotSet)
    );
    assert_eq!(fresh.init(admin), Ok(()));
    assert_eq!(fresh.init(other), Err(PaymentsError::AlreadyInitialized));
    assert_eq!(fresh.admin(), Some(admin));
    assert_eq!(
        fresh.create_receipt(&other, 1, 10, other, 0),
        Err(PaymentsError::NotAuthorized)
    );
    assert_eq!(
        fresh.create_receipt(&admin, 1, 0, other, 0),
        Err(PaymentsError::InvalidAmount)
    );
    assert_eq!(
        fresh.create_receipt(&admin, 1, -5, other, 0),
        Err(PaymentsError::InvalidAmount)
    );
    assert_eq!(fresh.receipt_count(1), 0);
    assert!(fresh.create_receipt(&admin, 1, 1, other, 0).is_ok());
}

#[test]
fn next_receipt_checks_counters() {
    let payer = address(b'P');
    assert_eq!(
        RentPayments::next_receipt(u64::MAX, 3, 0, 1, 10, payer),
        Err(PaymentsError::CounterExhausted)
    );
    assert_eq!(
        RentPayments::next_receipt(3, u64::MAX, 0, 1, 10, payer),
        Err(PaymentsError::CounterExhausted)
    );
    assert_eq!(
        RentPayments::next_receipt(3, 4, 0, 1, 0, payer),
        Err(PaymentsError::InvalidAmount)
    );
    let r = RentPayments::next_receipt(3, 4, 9, 1, 10, payer).unwrap();
    assert_eq!(r.id, 4);
    assert_eq!(r.tx_id[15], 5);
    assert_eq!(r.tx_id[7], 9);
}

#[test]
fn slots_fill_as_the_log_grows() {
    let mut contract = RentPayments::new();
    let admin = address(b'A');
    assert!(!contract.has(&DataKey::Admin));
    contract.init(admin).unwrap();
    assert!(contract.has(&DataKey::Admin));
    assert!(!contract.has(&DataKey::Deals));
    assert!(!contract.has(&DataKey::Receipts(4)));
    assert!(!contract.has(&DataKey::ReceiptCount(4)));
    create(&mut contract, &admin, 4, 1, admin);
    assert!(contract.has(&DataKey::Receipts(4)));
    assert!(contract.has(&DataKey::ReceiptCount(4)));
    assert!(!contract.has(&DataKey::Receipts(5)));
}

#[test]
fn other_deals_never_show_up() {
    let (admin, mut contract) = setup();
    let payer = address(b'P');
    for i in 0..20u64 {
        contract.create_receipt(&admin, i % 3, 1 + i as i128, payer, 100 - i).unwrap();
    }
    let before = list(&contract, 1, 100, None);
    create(&mut contract, &admin, 2, 77, payer);
    create(&mut contract, &admin, 0, 78, payer);
    let after = list(&contract, 1, 100, None);
    assert_eq!(before, after);
    assert!(after.receipts.iter().all(|r| r.deal_id == 1));
    assert_eq!(after.receipts.len(), 7);
}

#[test]
fn later_timestamps_sort_later_whatever_the_append_order() {
    let (admin, mut contract) = setup();
    let payer = address(b'P');
    let late = contract.create_receipt(&admin, 1, 1, payer, 500).unwrap();
    let early = contract.create_receipt(&admin, 1, 2, payer, 100).unwrap();
    let tie_a = contract.create_receipt(&admin, 1, 3, payer, 300).unwrap();
    let tie_b = contract.create_receipt(&admin, 1, 4, payer, 300).unwrap();
    let page = list(&contract, 1, 100, None);
    assert_eq!(page.receipts, vec![early, tie_a, tie_b, late]);
    let first = list(&contract, 1, 2, None);
    assert_eq!(first.receipts, vec![early, tie_a]);
    assert!(first.has_next);
    assert_eq!(first.next_cursor, Cursor { timestamp: 300, tx_id: tie_a.tx_id });
    let second = list(&contract, 1, 2, Some(first.next_cursor));
    assert_eq!(second.receipts, vec![tie_b, late]);
    assert!(!second.has_next);
}

#[test]
fn error_messages() {
    assert_eq!(PaymentsError::AlreadyInitialized.message(), "already initialized");
    assert_eq!(PaymentsError::AdminNotSet.message(), "admin not set");
    assert_eq!(PaymentsError::NotAuthorized.message(), "not authorized");
    assert_eq!(PaymentsError::InvalidAmount.message(), "amount must be positive");
    assert_eq!(PaymentsError::InvalidLimit.message(), "limit must be between 1 and 100");
    assert_eq!(PaymentsError::CounterExhausted.message(), "counter exhausted");
}
