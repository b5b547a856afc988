//! Unsigned integers as bytes, most significant byte first.

use vstd::prelude::*;
use crate::order::bytes_lt;

verus! {

/// 256 to the power `n`.
pub open spec fn pow256(n: nat) -> nat
    decreases n,
{
    if n == 0 {
        1
    } else {
        256 * pow256((n - 1) as nat)
    }
}

/// The `n` low-order bytes of `x`, most significant first.
pub open spec fn be_bytes(x: nat, n: nat) -> Seq<u8>
    decreases n,
{
    if n == 0 {
        Seq::empty()
    } else {
        be_bytes(x / 256, (n - 1) as nat).push((x % 256) as u8)
    }
}

/// The number that the bytes of `s` spell, most significant first.
pub open spec fn be_value(s: Seq<u8>) -> nat
    decreases s.len(),
{
    if s.len() == 0 {
        0
    } else {
        be_value(s.drop_last()) * 256 + s.last() as nat
    }
}

/// The powers of 256 up to the range of a `u64`.
pub proof fn lemma_pow256_values()
    ensures
        pow256(0) == 1,
        pow256(1) == 0x100,
        pow256(2) == 0x1_0000,
        pow256(3) == 0x100_0000,
        pow256(4) == 0x1_0000_0000,
        pow256(5) == 0x100_0000_0000,
        pow256(6) == 0x1_0000_0000_0000,
        pow256(7) == 0x100_0000_0000_0000,
        pow256(8) == 0x1_0000_0000_0000_0000,
{
    reveal_with_fuel(pow256, 10);
}

/// `be_bytes(x, n)` has `n` bytes.
pub proof fn lemma_be_bytes_len(x: nat, n: nat)
    ensures
        be_bytes(x, n).len() == n,
    decreases n,
{
    if n > 0 {
        lemma_be_bytes_len(x / 256, (n - 1) as nat);
    }
}

/// A number that fits in `n` bytes is read back from its `n` bytes.
pub proof fn lemma_be_value_of_bytes(x: nat, n: nat)
    requires
        x < pow256(n),
    ensures
        be_value(be_bytes(x, n)) == x,
    decreases n,
{
    if n > 0 {
        let front = be_bytes(x / 256, (n - 1) as nat);
        lemma_be_value_of_bytes(x / 256, (n - 1) as nat);
        assert(front.push((x % 256) as u8).drop_last() =~= front);
    }
}

/// The bytes of a string spell a number below 256 to the power of its length.
pub proof fn lemma_be_value_bound(s: Seq<u8>)
    ensures
        be_value(s) < pow256(s.len()),
    decreases s.len(),
{
    if s.len() > 0 {
        lemma_be_value_bound(s.drop_last());
    }
}

/// A byte string is written back from the number it spells.
pub proof fn lemma_be_bytes_of_value(s: Seq<u8>)
    ensures
        be_bytes(be_value(s), s.len()) == s,
    decreases s.len(),
{
    if s.len() > 0 {
        lemma_be_bytes_of_value(s.drop_last());
    }
}

/// The number that a string spells, taken apart at its first byte.
proof fn lemma_be_value_front(s: Seq<u8>)
    requires
        s.len() > 0,
    ensures
        be_value(s) == s[0] * pow256((s.len() - 1) as nat) + be_value(s.drop_first()),
    decreases s.len(),
{
    if s.len() == 1 {
        assert(s.drop_last() =~= Seq::<u8>::empty());
        assert(s.drop_first() =~= Seq::<u8>::empty());
        assert(s[0] * pow256(0) == s[0]) by (nonlinear_arith)
            requires
                pow256(0) == 1,
        ;
    } else {
        let front = s.drop_last();
        let tail = s.drop_first();
        lemma_be_value_front(front);
        assert(front.drop_first() =~= tail.drop_last());
        let p = pow256((s.len() - 2) as nat);
        let head = s[0] as nat;
        let mid = be_value(front.drop_first());
        assert((head * p + mid) * 256 == head * (256 * p) + mid * 256) by (nonlinear_arith);
    }
}

/// Among strings of one length the lexicographic order is the order of the
/// numbers that they spell.
pub proof fn lemma_be_order(a: Seq<u8>, b: Seq<u8>)
    requires
        a.len() == b.len(),
    ensures
        bytes_lt(a, b) <==> be_value(a) < be_value(b),
    decreases a.len(),
{
    if a.len() > 0 {
        lemma_be_value_front(a);
        lemma_be_value_front(b);
        lemma_be_value_bound(a.drop_first());
        lemma_be_value_bound(b.drop_first());
        let p = pow256((a.len() - 1) as nat);
        let x = a[0] as nat;
        let y = b[0] as nat;
        if x < y {
            assert((x + 1) * p <= y * p) by (nonlinear_arith)
                requires
                    x + 1 <= y,
            ;
            assert((x + 1) * p == x * p + p) by (nonlinear_arith);
        } else if y < x {
            assert((y + 1) * p <= x * p) by (nonlinear_arith)
                requires
                    y + 1 <= x,
            ;
            assert((y + 1) * p == y * p + p) by (nonlinear_arith);
        } else {
            lemma_be_order(a.drop_first(), b.drop_first());
        }
    }
}

/// Writes `x` into `buf[offset..offset + 8]`, most significant byte first,
/// and leaves the rest of `buf` as it was.
pub fn put_be_u64<const N: usize>(buf: &mut [u8; N], offset: usize, x: u64)
    requires
        offset + 8 <= N,
    ensures
        final(buf)@ == old(buf)@.subrange(0, offset as int) + be_bytes(x as nat, 8) + old(
            buf,
        )@.subrange(offset + 8, N as int),
{
    let ghost before = buf@;
    let mut v: u64 = x;
    let mut k: usize = 8;
    while k > 0
        invariant
            0 <= k <= 8,
            offset + 8 <= N,
            buf@.len() == N,
            before.len() == N,
            be_bytes(x as nat, 8) == be_bytes(v as nat, k as nat) + buf@.subrange(
                offset + k,
                offset + 8,
            ),
            buf@.subrange(0, offset as int) == before.subrange(0, offset as int),
            buf@.subrange(offset + 8, N as int) == before.subrange(offset + 8, N as int),
        decreases k,
    {
        k -= 1;
        buf[offset + k] = (v % 256) as u8;
        v = v / 256;
    }
    proof {
        lemma_be_bytes_len(x as nat, 8);
    }
}

/// Reads the number that `buf[offset..offset + 8]` spells, most significant
/// byte first.
pub fn get_be_u64<const N: usize>(buf: &[u8; N], offset: usize) -> (x: u64)
    requires
        offset + 8 <= N,
    ensures
        x == be_value(buf@.subrange(offset as int, offset + 8)),
{
    let mut acc: u64 = 0;
    let mut i: usize = 0;
    proof {
        lemma_pow256_values();
    }
    while i < 8
        invariant
            0 <= i <= 8,
            offset + 8 <= N,
            buf@.len() == N,
            acc == be_value(buf@.subrange(offset as int, offset + i)),
            acc < pow256(i as nat),
        decreases 8 - i,
    {
        let byte = buf[offset + i];
        proof {
            let next = buf@.subrange(offset as int, offset + i + 1);
            assert(next.drop_last() =~= buf@.subrange(offset as int, offset + i));
            lemma_be_value_bound(next);
            lemma_pow256_values();
            assert(pow256((i + 1) as nat) <= pow256(8)) by {
                reveal_with_fuel(pow256, 10);
            }
        }
        acc = acc * 256 + byte as u64;
        i += 1;
    }
    acc
}

} // verus!
