//! Little-endian integers as mathematics: what a run of bytes is worth, and
//! which bytes a number is written as.

use vstd::prelude::*;

verus! {

/// 256 to the power `n`.
pub open spec fn pow256(n: nat) -> nat
    decreases n,
{
    if n == 0 {
        1
    } else {
        256 * pow256((n - 1) as nat)
    }
}

/// The positional sum of `bytes`, least significant byte first.
pub open spec fn le_unsigned(bytes: Seq<u8>) -> nat
    decreases bytes.len(),
{
    if bytes.len() == 0 {
        0
    } else {
        le_unsigned(bytes.drop_last()) + bytes.last() as nat * pow256((bytes.len() - 1) as nat)
    }
}

/// The two's complement reading of `bytes`, least significant byte first.
pub open spec fn le_signed(bytes: Seq<u8>) -> int {
    let u = le_unsigned(bytes);
    if bytes.len() > 0 && 2 * u >= pow256(bytes.len()) {
        u - pow256(bytes.len())
    } else {
        u as int
    }
}

/// The four bytes that hold `v` in two's complement, least significant first.
pub open spec fn le_bytes_i32(v: i32) -> Seq<u8> {
    let u: int = if v < 0 {
        v + 0x1_0000_0000
    } else {
        v as int
    };
    seq![
        (u % 256) as u8,
        ((u / 0x100) % 256) as u8,
        ((u / 0x1_0000) % 256) as u8,
        ((u / 0x100_0000) % 256) as u8,
    ]
}

/// A positional sum of `n` bytes stays below 256 to the `n`.
pub proof fn lemma_le_unsigned_bound(bytes: Seq<u8>)
    ensures
        le_unsigned(bytes) < pow256(bytes.len()),
    decreases bytes.len(),
{
    if bytes.len() > 0 {
        lemma_le_unsigned_bound(bytes.drop_last());
        let p = pow256((bytes.len() - 1) as nat);
        assert(bytes.last() as nat * p <= 255 * p) by (nonlinear_arith)
            requires
                bytes.last() <= 255,
        ;
    }
}

/// The first powers of 256, as numbers.
pub proof fn lemma_pow256_values()
    ensures
        pow256(0) == 1,
        pow256(1) == 0x100,
        pow256(2) == 0x1_0000,
        pow256(3) == 0x100_0000,
        pow256(4) == 0x1_0000_0000,
        pow256(5) == 0x100_0000_0000,
        pow256(6) == 0x1_0000_0000_0000,
        pow256(7) == 0x100_0000_0000_0000,
        pow256(8) == 0x1_0000_0000_0000_0000,
{
    reveal_with_fuel(pow256, 10);
}

/// The positional sum of four bytes, written out.
pub proof fn lemma_le_unsigned_four(bytes: Seq<u8>)
    requires
        bytes.len() == 4,
    ensures
        le_unsigned(bytes) == bytes[0] + 0x100 * bytes[1] + 0x1_0000 * bytes[2] + 0x100_0000
            * bytes[3],
{
    lemma_pow256_values();
    let b3 = bytes.drop_last();
    let b2 = b3.drop_last();
    let b1 = b2.drop_last();
    let b0 = b1.drop_last();
    assert(b0.len() == 0);
    assert(le_unsigned(b0) == 0);
    assert(le_unsigned(b1) == le_unsigned(b0) + b1.last() as nat * pow256(0));
    assert(le_unsigned(b2) == le_unsigned(b1) + b2.last() as nat * pow256(1));
    assert(le_unsigned(b3) == le_unsigned(b2) + b3.last() as nat * pow256(2));
    assert(le_unsigned(bytes) == le_unsigned(b3) + bytes.last() as nat * pow256(3));
}

/// Reading back the four bytes of a number gives the number.
pub proof fn lemma_le_bytes_i32_signed(v: i32)
    ensures
        le_bytes_i32(v).len() == 4,
        le_signed(le_bytes_i32(v)) == v,
{
    let bytes = le_bytes_i32(v);
    lemma_le_unsigned_four(bytes);
    lemma_pow256_values();
}

/// A higher power of 256 is no smaller.
pub proof fn lemma_pow256_monotone(a: nat, b: nat)
    requires
        a <= b,
    ensures
        pow256(a) <= pow256(b),
        pow256(a) >= 1,
    decreases b,
{
    if a < b {
        lemma_pow256_monotone(a, (b - 1) as nat);
    } else if a > 0 {
        lemma_pow256_monotone((a - 1) as nat, (a - 1) as nat);
    }
}

/// What one more byte at the high end adds to a positional sum.
pub proof fn lemma_le_unsigned_push(bytes: Seq<u8>, b: u8)
    ensures
        le_unsigned(bytes.push(b)) == le_unsigned(bytes) + b as nat * pow256(bytes.len()),
{
    assert(bytes.push(b).drop_last() =~= bytes);
}

} // verus!
