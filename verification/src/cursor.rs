//! Positions in the canonical order of a deal's receipts.

use vstd::prelude::*;
use crate::order::{bytes_less, bytes_lt, lemma_bytes_lt_asymmetric, lemma_bytes_lt_irreflexive,
    lemma_bytes_lt_total, lemma_bytes_lt_transitive};
use crate::wire::{be_bytes, get_be_u64, lemma_be_bytes_len, lemma_be_bytes_of_value,
    lemma_be_value_of_bytes, lemma_pow256_values, put_be_u64};

verus! {

/// Seconds since the epoch, as the ledger reports them.
pub type Timestamp = u64;

/// A 32-byte identifier, unique to one receipt.
pub type TxId = [u8; 32];

/// A position in the canonical order: the ordering key of the last receipt
/// a caller has already seen. It need not be the key of any stored receipt.
#[derive(Clone, Copy, Debug, PartialEq, Eq)]
pub struct Cursor {
    pub timestamp: Timestamp,
    pub tx_id: TxId,
}

impl Cursor {
    /// The canonical order on positions: earlier timestamp first, and among
    /// equal timestamps the lexicographically smaller identifier first.
    pub open spec fn lt(self, other: Cursor) -> bool {
        self.timestamp < other.timestamp || (self.timestamp == other.timestamp && bytes_lt(
            self.tx_id@,
            other.tx_id@,
        ))
    }

    /// `self` is at or before `other`.
    pub open spec fn le(self, other: Cursor) -> bool {
        self == other || self.lt(other)
    }

    /// Whether this is the position a page carries when no further page
    /// exists: zero timestamp, zero-filled identifier.
    pub open spec fn is_sentinel(self) -> bool {
        self.timestamp == 0 && forall|i: int| 0 <= i < 32 ==> self.tx_id@[i] == 0
    }

    /// The cursor on the wire: the timestamp as 8 bytes, most significant
    /// first, then the 32 bytes of the identifier.
    pub open spec fn wire(self) -> Seq<u8> {
        be_bytes(self.timestamp as nat, 8) + self.tx_id@
    }

    /// Writes the cursor in its wire form.
    pub fn to_bytes(&self) -> (out: [u8; 40])
        ensures
            out@ == self.wire(),
    {
        let mut out = [0u8; 40];
        put_be_u64(&mut out, 0, self.timestamp);
        proof {
            lemma_be_bytes_len(self.timestamp as nat, 8);
        }
        let mut i: usize = 0;
        while i < 32
            invariant
                0 <= i <= 32,
                out@.len() == 40,
                out@.subrange(0, 8) == be_bytes(self.timestamp as nat, 8),
                out@.subrange(8, 8 + i) == self.tx_id@.subrange(0, i as int),
            decreases 32 - i,
        {
            out[8 + i] = self.tx_id[i];
            i += 1;
        }
        proof {
            assert(self.tx_id@.subrange(0, 32) =~= self.tx_id@);
        }
        out
    }

    /// Reads a cursor from its wire form. Every 40 bytes are the wire form of
    /// exactly one cursor.
    pub fn from_bytes(bytes: &[u8; 40]) -> (c: Cursor)
        ensures
            c.wire() == bytes@,
    {
        let timestamp = get_be_u64(bytes, 0);
        let mut tx_id = [0u8; 32];
        let mut i: usize = 0;
        while i < 32
            invariant
                0 <= i <= 32,
                bytes@.len() == 40,
                tx_id@.len() == 32,
                tx_id@.subrange(0, i as int) == bytes@.subrange(8, 8 + i),
            decreases 32 - i,
        {
            tx_id[i] = bytes[8 + i];
            i += 1;
        }
        proof {
            lemma_be_bytes_of_value(bytes@.subrange(0, 8));
            assert(tx_id@.subrange(0, 32) =~= tx_id@);
        }
        Cursor { timestamp, tx_id }
    }

    /// Decides `lt`.
    pub fn precedes(&self, other: &Cursor) -> (before: bool)
        ensures
            before == self.lt(*other),
    {
        self.timestamp < other.timestamp || (self.timestamp == other.timestamp && bytes_less(
            &self.tx_id,
            &other.tx_id,
        ))
    }

    /// Builds the sentinel position: zero timestamp, zero-filled identifier.
    pub fn sentinel() -> (c: Cursor)
        ensures
            c.is_sentinel(),
    {
        Cursor { timestamp: 0, tx_id: [0u8; 32] }
    }
}

/// No position comes before itself.
pub proof fn lemma_cursor_lt_irreflexive(a: Cursor)
    ensures
        !a.lt(a),
{
    lemma_bytes_lt_irreflexive(a.tx_id@);
}

/// Two positions are never each before the other.
pub proof fn lemma_cursor_lt_asymmetric(a: Cursor, b: Cursor)
    ensures
        !(a.lt(b) && b.lt(a)),
{
    lemma_bytes_lt_asymmetric(a.tx_id@, b.tx_id@);
}

/// The canonical order is transitive.
pub proof fn lemma_cursor_lt_transitive(a: Cursor, b: Cursor, c: Cursor)
    requires
        a.lt(b),
        b.lt(c),
    ensures
        a.lt(c),
{
    if a.timestamp == b.timestamp && b.timestamp == c.timestamp {
        lemma_bytes_lt_transitive(a.tx_id@, b.tx_id@, c.tx_id@);
    }
}

/// Any two positions are equal or ordered one way round: the canonical order
/// is a strict total order.
pub proof fn lemma_cursor_lt_total(a: Cursor, b: Cursor)
    ensures
        a.lt(b) || b.lt(a) || a == b,
{
    lemma_bytes_lt_total(a.tx_id@, b.tx_id@);
    if a.timestamp == b.timestamp && a.tx_id@ == b.tx_id@ {
        assert(a.tx_id == b.tx_id);
    }
}

/// Distinct cursors differ on the wire, so a cursor written with `to_bytes`
/// and read with `from_bytes` comes back unchanged.
pub proof fn lemma_wire_injective(a: Cursor, b: Cursor)
    requires
        a.wire() == b.wire(),
    ensures
        a == b,
{
    let ta = be_bytes(a.timestamp as nat, 8);
    let tb = be_bytes(b.timestamp as nat, 8);
    lemma_be_bytes_len(a.timestamp as nat, 8);
    lemma_be_bytes_len(b.timestamp as nat, 8);
    assert(a.wire().subrange(0, 8) =~= ta);
    assert(b.wire().subrange(0, 8) =~= tb);
    assert(a.wire().subrange(8, 40) =~= a.tx_id@);
    assert(b.wire().subrange(8, 40) =~= b.tx_id@);
    lemma_pow256_values();
    lemma_be_value_of_bytes(a.timestamp as nat, 8);
    lemma_be_value_of_bytes(b.timestamp as nat, 8);
    assert(a.tx_id =~= b.tx_id);
}

} // verus!
