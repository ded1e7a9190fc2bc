//! The bit stream that a byte sequence packs, least significant bit first,
//! and the two ways in which DEFLATE reads a group of bits as a number.
use vstd::arithmetic::div_mod::{lemma_div_denominator, lemma_fundamental_div_mod_converse};
use vstd::arithmetic::power2::{
    lemma2_to64, lemma_pow2_adds, lemma_pow2_pos, lemma_pow2_strictly_increases, lemma_pow2_unfold,
    pow2,
};
use vstd::prelude::*;

verus! {

/// The number of bits in `bytes`.
pub open spec fn bit_count(bytes: Seq<u8>) -> nat {
    8 * bytes.len()
}

/// Bit `i` of the stream, as 0 or 1: bit `i % 8` of byte `i / 8`, bit 0 being
/// the least significant.
pub open spec fn bit(bytes: Seq<u8>, i: nat) -> nat {
    (bytes[(i / 8) as int] as nat / pow2(i % 8)) % 2
}

/// The `n` bits from `pos` on read as a number whose least significant bit
/// comes first in the stream. Header fields and extra bits are packed so.
pub open spec fn lsb_first(bytes: Seq<u8>, pos: nat, n: nat) -> nat
    decreases n,
{
    if n == 0 {
        0
    } else {
        bit(bytes, pos) + 2 * lsb_first(bytes, pos + 1, (n - 1) as nat)
    }
}

/// The `n` bits from `pos` on read as a number whose most significant bit
/// comes first in the stream. Huffman codes are packed so.
pub open spec fn msb_first(bytes: Seq<u8>, pos: nat, n: nat) -> nat
    decreases n,
{
    if n == 0 {
        0
    } else {
        2 * msb_first(bytes, pos, (n - 1) as nat) + bit(bytes, (pos + n - 1) as nat)
    }
}

/// `v` with its low `n` bits in reverse order.
pub open spec fn reverse_low(v: nat, n: nat) -> nat
    decreases n,
{
    if n == 0 {
        0
    } else {
        (v % 2) * pow2((n - 1) as nat) + reverse_low(v / 2, (n - 1) as nat)
    }
}

/// The next power of two is twice the one before.
pub proof fn lemma_pow2_double(n: nat, x: int)
    ensures
        pow2(n + 1) == 2 * pow2(n),
        pow2(n + 1) * x == 2 * (pow2(n) * x),
        pow2(n) > 0,
{
    lemma_pow2_unfold(n + 1);
    lemma_pow2_pos(n);
    assert(pow2(n + 1) * x == 2 * (pow2(n) * x)) by (nonlinear_arith)
        requires
            pow2(n + 1) == 2 * pow2(n),
    ;
}

/// Dividing by two powers of two in turn divides by their product.
pub proof fn lemma_div_pow2_twice(x: nat, a: nat, b: nat)
    ensures
        (x / pow2(a)) / pow2(b) == x / pow2(a + b),
{
    lemma_pow2_pos(a);
    lemma_pow2_pos(b);
    lemma_pow2_adds(a, b);
    lemma_div_denominator(x as int, pow2(a) as int, pow2(b) as int);
}

/// `b` low bits `low` under the high part `high` come apart again.
pub proof fn lemma_join_split(high: nat, low: nat, b: nat)
    requires
        low < pow2(b),
    ensures
        (high * pow2(b) + low) / pow2(b) == high,
        (high * pow2(b) + low) % pow2(b) == low,
{
    lemma_pow2_pos(b);
    lemma_fundamental_div_mod_converse(
        (high * pow2(b) + low) as int,
        pow2(b) as int,
        high as int,
        low as int,
    );
}

/// A number is its part above the low `b` bits and those bits.
pub proof fn lemma_split_join(x: nat, b: nat)
    ensures
        x == (x / pow2(b)) * pow2(b) + x % pow2(b),
        x % pow2(b) < pow2(b),
{
    lemma_pow2_pos(b);
    vstd::arithmetic::div_mod::lemma_fundamental_div_mod(x as int, pow2(b) as int);
    assert((x / pow2(b)) * pow2(b) == pow2(b) * (x / pow2(b))) by (nonlinear_arith);
}

/// An `n`-bit field is below `2^n`.
pub proof fn lemma_lsb_first_bound(bytes: Seq<u8>, pos: nat, n: nat)
    ensures
        lsb_first(bytes, pos, n) < pow2(n),
    decreases n,
{
    if n == 0 {
        lemma2_to64();
    } else {
        lemma_lsb_first_bound(bytes, pos + 1, (n - 1) as nat);
        lemma_pow2_unfold(n);
    }
}

/// A field of at most 16 bits fits in a `u16`.
pub proof fn lemma_field_fits(bytes: Seq<u8>, pos: nat, bits: nat)
    requires
        bits <= 16,
    ensures
        lsb_first(bytes, pos, bits) < pow2(bits) <= 0x10000,
{
    lemma_lsb_first_bound(bytes, pos, bits);
    lemma2_to64();
    if bits < 16 {
        lemma_pow2_strictly_increases(bits, 16);
    }
}

/// An `n`-bit code is below `2^n`.
pub proof fn lemma_msb_first_bound(bytes: Seq<u8>, pos: nat, n: nat)
    ensures
        msb_first(bytes, pos, n) < pow2(n),
    decreases n,
{
    if n == 0 {
        lemma2_to64();
    } else {
        lemma_msb_first_bound(bytes, pos, (n - 1) as nat);
        lemma_pow2_unfold(n);
    }
}

/// Reading `a + b` bits at once gives the same bits as reading `a` bits and
/// then `b` bits: the first read holds the low `a` bits of the wide one, the
/// second its remaining bits. With `a == 1` this peels one bit at a time.
pub proof fn lemma_read_splits(bytes: Seq<u8>, pos: nat, a: nat, b: nat)
    ensures
        lsb_first(bytes, pos, a + b) == lsb_first(bytes, pos, a) + pow2(a) * lsb_first(
            bytes,
            pos + a,
            b,
        ),
        lsb_first(bytes, pos, a + b) % pow2(a) == lsb_first(bytes, pos, a),
        lsb_first(bytes, pos, a + b) / pow2(a) == lsb_first(bytes, pos + a, b),
    decreases a,
{
    let hi = lsb_first(bytes, pos + a, b);
    if a == 0 {
        lemma2_to64();
        assert(pow2(0) * hi == hi) by (nonlinear_arith)
            requires
                pow2(0) == 1,
        ;
    } else {
        let a1 = (a - 1) as nat;
        lemma_read_splits(bytes, pos + 1, a1, b);
        lemma_pow2_double(a1, hi as int);
        assert(a1 + b == (a + b - 1) as nat);
    }
    lemma_lsb_first_bound(bytes, pos, a);
    lemma_pow2_pos(a);
    assert(pow2(a) * hi == hi * pow2(a)) by (nonlinear_arith);
    lemma_fundamental_div_mod_converse(
        lsb_first(bytes, pos, a + b) as int,
        pow2(a) as int,
        hi as int,
        lsb_first(bytes, pos, a) as int,
    );
}

/// A field read at once holds the bits that single-bit reads peel off one
/// after the other: its binary digit `i` is the bit read `i` bits on.
pub proof fn lemma_read_bit_by_bit(bytes: Seq<u8>, pos: nat, n: nat, i: nat)
    requires
        i < n,
    ensures
        (lsb_first(bytes, pos, n) / pow2(i)) % 2 == lsb_first(bytes, pos + i, 1),
        lsb_first(bytes, pos + i, 1) == bit(bytes, pos + i),
{
    let rest = (n - i - 1) as nat;
    lemma_read_splits(bytes, pos, i, (n - i) as nat);
    assert(i + (n - i) as nat == n);
    lemma_read_splits(bytes, pos + i, 1, rest);
    assert(1 + rest == (n - i) as nat);
    lemma2_to64();
    reveal_with_fuel(lsb_first, 2);
}

/// A code of `a + b` bits is its first `a` bits followed by its last `b`.
pub proof fn lemma_code_splits(bytes: Seq<u8>, pos: nat, a: nat, b: nat)
    ensures
        msb_first(bytes, pos, a + b) == msb_first(bytes, pos, a) * pow2(b) + msb_first(
            bytes,
            pos + a,
            b,
        ),
        msb_first(bytes, pos, a + b) / pow2(b) == msb_first(bytes, pos, a),
        msb_first(bytes, pos, a + b) % pow2(b) == msb_first(bytes, pos + a, b),
    decreases b,
{
    let hi = msb_first(bytes, pos, a);
    if b == 0 {
        lemma2_to64();
        assert(hi * pow2(0) == hi) by (nonlinear_arith)
            requires
                pow2(0) == 1,
        ;
    } else {
        let b1 = (b - 1) as nat;
        lemma_code_splits(bytes, pos, a, b1);
        lemma_pow2_double(b1, hi as int);
        assert(a + b1 == (a + b - 1) as nat);
        assert(hi * pow2(b) == pow2(b) * hi) by (nonlinear_arith);
        assert(hi * pow2(b1) == pow2(b1) * hi) by (nonlinear_arith);
    }
    lemma_msb_first_bound(bytes, pos + a, b);
    lemma_pow2_pos(b);
    lemma_fundamental_div_mod_converse(
        msb_first(bytes, pos, a + b) as int,
        pow2(b) as int,
        hi as int,
        msb_first(bytes, pos + a, b) as int,
    );
}

/// The eight bits of a byte, read from a byte boundary, are the byte.
pub proof fn lemma_whole_byte(bytes: Seq<u8>, k: nat)
    requires
        k < bytes.len(),
    ensures
        lsb_first(bytes, 8 * k, 8) == bytes[k as int],
{
    let x: u8 = bytes[k as int];
    let p = 8 * k;
    lemma2_to64();
    reveal_with_fuel(lsb_first, 9);
    assert(bit(bytes, p) == (x as nat / 1) % 2);
    assert(bit(bytes, p + 1) == (x as nat / 2) % 2);
    assert(bit(bytes, p + 2) == (x as nat / 4) % 2);
    assert(bit(bytes, p + 3) == (x as nat / 8) % 2);
    assert(bit(bytes, p + 4) == (x as nat / 16) % 2);
    assert(bit(bytes, p + 5) == (x as nat / 32) % 2);
    assert(bit(bytes, p + 6) == (x as nat / 64) % 2);
    assert(bit(bytes, p + 7) == (x as nat / 128) % 2);
    assert(x == (x / 1) % 2 + 2 * ((x / 2) % 2 + 2 * ((x / 4) % 2 + 2 * ((x / 8) % 2 + 2 * ((x / 16)
        % 2 + 2 * ((x / 32) % 2 + 2 * ((x / 64) % 2 + 2 * ((x / 128) % 2)))))))) by (bit_vector);
}

/// Reversing the bits of a field read least significant bit first gives the
/// same bits read most significant bit first.
pub proof fn lemma_reverse_field(bytes: Seq<u8>, pos: nat, n: nat)
    ensures
        reverse_low(lsb_first(bytes, pos, n), n) == msb_first(bytes, pos, n),
    decreases n,
{
    if n > 0 {
        let n1 = (n - 1) as nat;
        let v = lsb_first(bytes, pos, n);
        let rest = lsb_first(bytes, pos + 1, n1);
        let b = bit(bytes, pos);
        assert(v == b + 2 * rest);
        assert(v % 2 == b);
        assert(v / 2 == rest);
        lemma_reverse_field(bytes, pos + 1, n1);
        // msb_first(pos, 1 + n1) == msb_first(pos, 1) * 2^n1 + msb_first(pos + 1, n1)
        lemma_code_splits(bytes, pos, 1, n1);
        reveal_with_fuel(msb_first, 2);
        assert(msb_first(bytes, pos, 1) == b);
        assert(1 + n1 == n);
        assert(b * pow2(n1) == (v % 2) * pow2(n1));
    }
}

} // verus!
