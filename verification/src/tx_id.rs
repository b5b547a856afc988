//! Minting the identifiers of receipts.

use vstd::prelude::*;
use crate::cursor::TxId;
use crate::order::{bytes_lt, lemma_bytes_lt_common_prefix, lemma_bytes_lt_extend};
use crate::wire::{be_bytes, lemma_be_bytes_len, lemma_be_order, lemma_be_value_of_bytes,
    lemma_pow256_values, put_be_u64};

verus! {

/// The last 16 bytes of an identifier: the low byte of the timestamp plus
/// the byte's index in the identifier, wrapped to a byte.
pub open spec fn filler(timestamp: u64) -> Seq<u8> {
    Seq::new(16, |k: int| ((timestamp % 256 + 16 + k) % 256) as u8)
}

/// The identifier minted at `timestamp` from the counter value `counter`:
/// the timestamp, then the counter, each as 8 bytes with the most
/// significant first, then the filler.
pub open spec fn minted(timestamp: u64, counter: u64) -> Seq<u8> {
    be_bytes(timestamp as nat, 8) + be_bytes(counter as nat, 8) + filler(timestamp)
}

/// Mints the identifier for a receipt created at `timestamp`, from a counter
/// value that no earlier receipt has used.
pub fn mint_tx_id(timestamp: u64, counter: u64) -> (id: TxId)
    ensures
        id@ == minted(timestamp, counter),
{
    let mut id = [0u8; 32];
    put_be_u64(&mut id, 0, timestamp);
    put_be_u64(&mut id, 8, counter);
    proof {
        lemma_be_bytes_len(timestamp as nat, 8);
        lemma_be_bytes_len(counter as nat, 8);
    }
    let low = timestamp % 256;
    let mut i: usize = 16;
    while i < 32
        invariant
            16 <= i <= 32,
            low == timestamp % 256,
            id@.len() == 32,
            id@.subrange(0, 16) == be_bytes(timestamp as nat, 8) + be_bytes(counter as nat, 8),
            id@.subrange(16, i as int) == filler(timestamp).subrange(0, i - 16),
        decreases 32 - i,
    {
        let byte = ((low + i as u64) % 256) as u8;
        id[i] = byte;
        i += 1;
    }
    proof {
        assert(filler(timestamp).subrange(0, 16) =~= filler(timestamp));
    }
    id
}

/// Identifiers minted at different timestamps or from different counter
/// values differ.
pub proof fn lemma_minted_injective(t1: u64, c1: u64, t2: u64, c2: u64)
    requires
        minted(t1, c1) == minted(t2, c2),
    ensures
        t1 == t2,
        c1 == c2,
{
    lemma_be_bytes_len(t1 as nat, 8);
    lemma_be_bytes_len(c1 as nat, 8);
    lemma_be_bytes_len(t2 as nat, 8);
    lemma_be_bytes_len(c2 as nat, 8);
    assert(minted(t1, c1).subrange(0, 8) =~= be_bytes(t1 as nat, 8));
    assert(minted(t2, c2).subrange(0, 8) =~= be_bytes(t2 as nat, 8));
    assert(minted(t1, c1).subrange(8, 16) =~= be_bytes(c1 as nat, 8));
    assert(minted(t2, c2).subrange(8, 16) =~= be_bytes(c2 as nat, 8));
    lemma_pow256_values();
    lemma_be_value_of_bytes(t1 as nat, 8);
    lemma_be_value_of_bytes(t2 as nat, 8);
    lemma_be_value_of_bytes(c1 as nat, 8);
    lemma_be_value_of_bytes(c2 as nat, 8);
}

/// Identifiers come out in the order in which they were minted: a later
/// timestamp, or the same timestamp and a larger counter value, gives the
/// lexicographically larger identifier.
pub proof fn lemma_minted_order(t1: u64, c1: u64, t2: u64, c2: u64)
    requires
        t1 < t2 || (t1 == t2 && c1 < c2),
    ensures
        bytes_lt(minted(t1, c1), minted(t2, c2)),
{
    let a1 = be_bytes(t1 as nat, 8);
    let a2 = be_bytes(t2 as nat, 8);
    let b1 = be_bytes(c1 as nat, 8);
    let b2 = be_bytes(c2 as nat, 8);
    lemma_be_bytes_len(t1 as nat, 8);
    lemma_be_bytes_len(c1 as nat, 8);
    lemma_be_bytes_len(t2 as nat, 8);
    lemma_be_bytes_len(c2 as nat, 8);
    lemma_pow256_values();
    lemma_be_value_of_bytes(t1 as nat, 8);
    lemma_be_value_of_bytes(t2 as nat, 8);
    lemma_be_value_of_bytes(c1 as nat, 8);
    lemma_be_value_of_bytes(c2 as nat, 8);
    if t1 < t2 {
        lemma_be_order(a1, a2);
        lemma_bytes_lt_extend(a1, a2, b1 + filler(t1), b2 + filler(t2));
        assert(minted(t1, c1) =~= a1 + (b1 + filler(t1)));
        assert(minted(t2, c2) =~= a2 + (b2 + filler(t2)));
    } else {
        lemma_be_order(b1, b2);
        lemma_bytes_lt_extend(b1, b2, filler(t1), filler(t2));
        lemma_bytes_lt_common_prefix(a1, b1 + filler(t1), b2 + filler(t2));
        assert(minted(t1, c1) =~= a1 + (b1 + filler(t1)));
        assert(minted(t2, c2) =~= a1 + (b2 + filler(t2)));
    }
}

} // verus!
