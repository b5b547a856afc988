use rent_contracts::address::Address;
use rent_contracts::cursor::Cursor;
use rent_contracts::error::PaymentsError;
use rent_contracts::order::bytes_less;
use rent_contracts::pagination::{assemble_page, paginate, resume_point, MAX_PAGE_SIZE};
use rent_contracts::receipt::Receipt;
use rent_contracts::sort::sort_receipts;
use rent_contracts::tx_id::mint_tx_id;
use rent_contracts::wire::{get_be_u64, put_be_u64};

fn id_from(byte: u8) -> [u8; 32] {
    let mut id = [0u8; 32];
    id[31] = byte;
    id
}

fn record(id: u64, timestamp: u64, last_byte: u8) -> Receipt {
    Receipt {
        id,
        deal_id: 1,
        amount: 1000,
        timestamp,
        tx_id: id_from(last_byte),
        payer: Address { strkey: [b'P'; 56] },
    }
}

fn ids(records: &[Receipt]) -> Vec<u64> {
    records.iter().map(|r| r.id).collect()
}

fn sentinel() -> Cursor {
    Cursor { timestamp: 0, tx_id: [0u8; 32] }
}

fn walk(records: &Vec<Receipt>, limit: u32) -> Vec<Receipt> {
    let mut all = Vec::new();
    let mut cursor = None;
    loop {
        let page = paginate(records, limit, cursor).unwrap();
        assert!(page.receipts.len() <= limit as usize);
        all.extend(page.receipts.iter().cloned());
        if !page.has_next {
            assert_eq!(page.next_cursor, sentinel());
            break;
        }
        assert_eq!(page.next_cursor, page.receipts.last().unwrap().position());
        cursor = Some(page.next_cursor);
    }
    all
}

#[test]
fn empty_partition_gives_empty_page() {
    let page = paginate(&Vec::new(), 10, None).unwrap();
    assert!(page.receipts.is_empty());
    assert!(!page.has_next);
    assert_eq!(page.next_cursor, sentinel());
    let page = paginate(&Vec::new(), 1, Some(Cursor { timestamp: 5, tx_id: [9u8; 32] })).unwrap();
    assert!(page.receipts.is_empty());
    assert!(!page.has_next);
}

#[test]
fn limit_bounds() {
    let records = vec![record(1, 1, 1)];
    assert_eq!(MAX_PAGE_SIZE, 100);
    assert_eq!(paginate(&records, 0, None), Err(PaymentsError::InvalidLimit));
    assert_eq!(paginate(&records, 101, None), Err(PaymentsError::InvalidLimit));
    assert_eq!(paginate(&records, 1, None).unwrap().receipts, records);
    assert_eq!(paginate(&records, 100, None).unwrap().receipts, records);
}

#[test]
fn split_page_fifteen_by_ten() {
    let records: Vec<Receipt> = (1..=15).map(|i| record(i, 1000 - i, i as u8)).collect();
    let first = paginate(&records, 10, None).unwrap();
    assert_eq!(ids(&first.receipts), vec![15, 14, 13, 12, 11, 10, 9, 8, 7, 6]);
    assert!(first.has_next);
    assert_eq!(first.next_cursor, Cursor { timestamp: 994, tx_id: id_from(6) });
    let second = paginate(&records, 10, Some(first.next_cursor)).unwrap();
    assert_eq!(ids(&second.receipts), vec![5, 4, 3, 2, 1]);
    assert!(!second.has_next);
    assert_eq!(second.next_cursor, sentinel());
}

#[test]
fn exact_page_has_no_next() {
    let records: Vec<Receipt> = (1..=5).map(|i| record(i, i, 0)).collect();
    let page = paginate(&records, 5, None).unwrap();
    assert_eq!(ids(&page.receipts), vec![1, 2, 3, 4, 5]);
    assert!(!page.has_next);
    let page = paginate(&records, 4, None).unwrap();
    assert_eq!(ids(&page.receipts), vec![1, 2, 3, 4]);
    assert!(page.has_next);
    let last = paginate(&records, 4, Some(page.next_cursor)).unwrap();
    assert_eq!(ids(&last.receipts), vec![5]);
    assert!(!last.has_next);
}

#[test]
fn ties_are_broken_by_identifier() {
    let a = record(1, 50, 9);
    let b = record(2, 50, 3);
    let c = record(3, 50, 200);
    let d = record(4, 49, 255);
    for order in [vec![a, b, c, d], vec![d, c, b, a], vec![b, d, a, c]] {
        assert_eq!(ids(&sort_receipts(&order)), vec![4, 2, 1, 3]);
        for limit in 1..=4 {
            assert_eq!(ids(&walk(&order, limit)), vec![4, 2, 1, 3]);
        }
    }
}

#[test]
fn identifiers_compare_most_significant_byte_first() {
    let mut high = [0u8; 32];
    high[0] = 1;
    let mut low = [0xffu8; 32];
    low[0] = 0;
    assert!(bytes_less(&low, &high));
    assert!(!bytes_less(&high, &low));
    assert!(!bytes_less(&high, &high));
    let mut almost = high;
    almost[31] = 1;
    assert!(bytes_less(&high, &almost));
    let mut unsigned = [0u8; 32];
    unsigned[5] = 0x80;
    let mut small = [0u8; 32];
    small[5] = 0x7f;
    assert!(bytes_less(&small, &unsigned));
}

#[test]
fn cursor_order() {
    let early = Cursor { timestamp: 1, tx_id: [9u8; 32] };
    let late = Cursor { timestamp: 2, tx_id: [0u8; 32] };
    let later = Cursor { timestamp: 2, tx_id: id_from(1) };
    assert!(early.precedes(&late));
    assert!(late.precedes(&later));
    assert!(!later.precedes(&late));
    assert!(!late.precedes(&late));
    assert!(!late.precedes(&early));
}

#[test]
fn same_call_same_page() {
    let records: Vec<Receipt> = (1..=30).map(|i| record(i, (i * 7) % 11, i as u8)).collect();
    let mut reversed = records.clone();
    reversed.reverse();
    let cursor = Some(Cursor { timestamp: 4, tx_id: id_from(10) });
    let first = paginate(&records, 7, cursor).unwrap();
    let second = paginate(&records, 7, cursor).unwrap();
    let third = paginate(&reversed, 7, cursor).unwrap();
    assert_eq!(first, second);
    assert_eq!(first, third);
    assert_eq!(first.receipts.len(), 7);
}

#[test]
fn every_page_size_walks_all_records_once() {
    for n in [0u64, 1, 2, 9, 10, 11, 57, 100, 101, 250] {
        let records: Vec<Receipt> =
            (1..=n).map(|i| record(i, (i * 37) % 13, (i % 251) as u8 + (i / 251) as u8)).collect();
        let sorted = sort_receipts(&records);
        assert_eq!(sorted.len(), n as usize);
        for pair in sorted.windows(2) {
            assert!(pair[0].position().precedes(&pair[1].position()));
        }
        for limit in [1u32, 2, 3, 10, 99, 100] {
            assert_eq!(walk(&records, limit), sorted);
        }
        if n <= 100 {
            let whole = paginate(&records, 100, None).unwrap();
            assert_eq!(whole.receipts, sorted);
            assert!(!whole.has_next);
        }
    }
}

#[test]
fn cursor_that_matches_no_record() {
    let records = vec![record(1, 10, 5), record(2, 20, 5), record(3, 30, 5)];
    let before_all = Some(Cursor { timestamp: 1, tx_id: [0xff; 32] });
    assert_eq!(ids(&paginate(&records, 10, before_all).unwrap().receipts), vec![1, 2, 3]);
    let between = Some(Cursor { timestamp: 20, tx_id: id_from(4) });
    assert_eq!(ids(&paginate(&records, 10, between).unwrap().receipts), vec![2, 3]);
    let just_after = Some(Cursor { timestamp: 20, tx_id: id_from(6) });
    assert_eq!(ids(&paginate(&records, 10, just_after).unwrap().receipts), vec![3]);
    let at_last = Some(Cursor { timestamp: 30, tx_id: id_from(5) });
    let page = paginate(&records, 10, at_last).unwrap();
    assert!(page.receipts.is_empty());
    assert!(!page.has_next);
    let beyond = Some(Cursor { timestamp: u64::MAX, tx_id: [0xff; 32] });
    let page = paginate(&records, 10, beyond).unwrap();
    assert!(page.receipts.is_empty());
    assert!(!page.has_next);
    assert_eq!(page.next_cursor, sentinel());
    let zero = Some(sentinel());
    assert_eq!(ids(&paginate(&records, 1, zero).unwrap().receipts), vec![1]);
}

#[test]
fn resume_point_on_sorted_records() {
    let sorted = vec![record(1, 10, 1), record(2, 10, 2), record(3, 12, 0)];
    assert_eq!(resume_point(&sorted, &None), 0);
    assert_eq!(resume_point(&sorted, &Some(Cursor { timestamp: 9, tx_id: [0xff; 32] })), 0);
    assert_eq!(resume_point(&sorted, &Some(Cursor { timestamp: 10, tx_id: id_from(1) })), 1);
    assert_eq!(resume_point(&sorted, &Some(Cursor { timestamp: 10, tx_id: id_from(2) })), 2);
    assert_eq!(resume_point(&sorted, &Some(Cursor { timestamp: 11, tx_id: id_from(0) })), 2);
    assert_eq!(resume_point(&sorted, &Some(Cursor { timestamp: 12, tx_id: id_from(0) })), 3);
    assert_eq!(resume_point(&Vec::new(), &Some(sentinel())), 0);
    let page = assemble_page(&sorted, 1, &Some(Cursor { timestamp: 10, tx_id: id_from(1) }));
    assert_eq!(ids(&page.receipts), vec![2]);
    assert!(page.has_next);
    assert_eq!(page.next_cursor, Cursor { timestamp: 10, tx_id: id_from(2) });
}

#[test]
fn records_appended_between_calls_are_picked_up() {
    let mut records: Vec<Receipt> = (1..=4).map(|i| record(i, i * 10, 0)).collect();
    let first = paginate(&records, 2, None).unwrap();
    assert_eq!(ids(&first.receipts), vec![1, 2]);
    records.push(record(5, 25, 0));
    records.push(record(6, 50, 0));
    let second = paginate(&records, 2, Some(first.next_cursor)).unwrap();
    assert_eq!(ids(&second.receipts), vec![5, 3]);
    let third = paginate(&records, 2, Some(second.next_cursor)).unwrap();
    assert_eq!(ids(&third.receipts), vec![4, 6]);
    assert!(!third.has_next);
}

#[test]
fn cursor_wire_form() {
    let mut tx_id = [0u8; 32];
    for (i, b) in tx_id.iter_mut().enumerate() {
        *b = 0xa0 + i as u8;
    }
    let cursor = Cursor { timestamp: 0x0102_0304_0506_0708, tx_id };
    let wire = cursor.to_bytes();
    assert_eq!(wire.len(), 40);
    assert_eq!(&wire[..8], &[1, 2, 3, 4, 5, 6, 7, 8]);
    assert_eq!(&wire[8..], &tx_id[..]);
    assert_eq!(Cursor::from_bytes(&wire), cursor);
    let max = Cursor { timestamp: u64::MAX, tx_id: [0xff; 32] };
    assert_eq!(max.to_bytes(), [0xffu8; 40]);
    assert_eq!(Cursor::from_bytes(&[0xffu8; 40]), max);
    assert_eq!(Cursor::from_bytes(&[0u8; 40]), sentinel());
    assert_eq!(sentinel().to_bytes(), [0u8; 40]);
    let one = Cursor { timestamp: 1, tx_id: [0u8; 32] };
    let mut expected = [0u8; 40];
    expected[7] = 1;
    assert_eq!(one.to_bytes(), expected);
}

#[test]
fn next_cursor_survives_the_wire() {
    let records: Vec<Receipt> = (1..=9).map(|i| record(i, 1 << (7 * i), i as u8)).collect();
    let first = paginate(&records, 4, None).unwrap();
    let sent = first.next_cursor.to_bytes();
    let received = Cursor::from_bytes(&sent);
    let second = paginate(&records, 4, Some(received)).unwrap();
    assert_eq!(ids(&second.receipts), vec![5, 6, 7, 8]);
}

#[test]
fn big_endian_words() {
    let mut buf = [0xeeu8; 12];
    put_be_u64(&mut buf, 2, 0x1122_3344_5566_7788);
    assert_eq!(buf, [0xee, 0xee, 0x11, 0x22, 0x33, 0x44, 0x55, 0x66, 0x77, 0x88, 0xee, 0xee]);
    assert_eq!(get_be_u64(&buf, 2), 0x1122_3344_5566_7788);
    assert_eq!(get_be_u64(&buf, 0), 0xeeee_1122_3344_5566);
    put_be_u64(&mut buf, 4, 0);
    assert_eq!(buf, [0xee, 0xee, 0x11, 0x22, 0, 0, 0, 0, 0, 0, 0, 0]);
    put_be_u64(&mut buf, 0, u64::MAX);
    assert_eq!(get_be_u64(&buf, 0), u64::MAX);
}

#[test]
fn minted_identifier_layout() {
    let id = mint_tx_id(0x0000_0001_0000_02fe, 0x0a0b_0c0d_0e0f_1011);
    assert_eq!(&id[..8], &[0, 0, 0, 1, 0, 0, 2, 0xfe]);
    assert_eq!(&id[8..16], &[0x0a, 0x0b, 0x0c, 0x0d, 0x0e, 0x0f, 0x10, 0x11]);
    let filler: Vec<u8> = (16u8..32).map(|i| 0xfeu8.wrapping_add(i)).collect();
    assert_eq!(&id[16..], &filler[..]);
    assert_eq!(id[16], 0x0e);
    assert_eq!(id[17], 0x0f);
    assert_eq!(id[31], 0x1d);
}

#[test]
fn identifiers_grow_with_the_counter() {
    let mut previous = mint_tx_id(7, 0);
    for counter in [1u64, 2, 255, 256, 257, 65535, 65536, 1 << 40, u64::MAX] {
        let next = mint_tx_id(7, counter);
        assert!(bytes_less(&previous, &next));
        assert!(previous < next);
        previous = next;
    }
    assert!(bytes_less(&mint_tx_id(7, u64::MAX), &mint_tx_id(8, 0)));
    assert_ne!(mint_tx_id(1, 2), mint_tx_id(2, 1));
}

#[test]
fn addresses_compare_by_their_characters() {
    let a = Address { strkey: [b'G'; 56] };
    let mut b = a;
    assert!(a.same_as(&b));
    b.strkey[55] = b'H';
    assert!(!a.same_as(&b));
    assert!(!b.same_as(&a));
    let mut c = a;
    c.strkey[0] = b'C';
    assert!(!a.same_as(&c));
}

#[test]
fn page_clone_is_equal() {
    let records: Vec<Receipt> = (1..=6).map(|i| record(i, i, 0)).collect();
    let page = paginate(&records, 4, None).unwrap();
    let copy = page.clone();
    assert_eq!(copy, page);
    assert_eq!(copy.receipts.len(), 4);
    assert!(copy.has_next);
}
