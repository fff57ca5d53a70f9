//! Bit-level facts behind the streaming re-basing loops of the c32 codec:
//! how a carry of a few bits absorbs a new digit and releases an output digit.
use vstd::arithmetic::power2::{lemma2_to64, lemma_pow2_adds, pow2};
use vstd::bits::{lemma_u16_shl_is_mul, lemma_u8_shl_is_mul};
use vstd::prelude::*;

verus! {

/// `1 << s` on `u8` is `2^s`.
pub proof fn lemma_u8_one_shl(s: u8)
    requires
        s < 8,
    ensures
        (1u8 << s) as nat == pow2(s as nat),
{
    lemma2_to64();
    lemma_u8_shl_is_mul(1u8, s);
}

/// `1 << s` on `u16` is `2^s`.
pub proof fn lemma_u16_one_shl(s: u16)
    requires
        s < 16,
    ensures
        (1u16 << s) as nat == pow2(s as nat),
{
    lemma2_to64();
    lemma_u16_shl_is_mul(1u16, s);
}

/// Encoding, first step for byte `x`: with a carry of `cb < 5` bits, the low
/// `5 - cb` bits of `x` complete a 5-bit digit and the remaining high bits of
/// `x` become a carry of `cb + 3` bits.
pub proof fn lemma_encode_low_digit(x: u8, carry: u8, cb: u8, ltt: u8, ncb: u8)
    requires
        cb < 5,
        ltt == 5 - cb,
        ncb == cb + 3,
        (carry as nat) < pow2(cb as nat),
    ensures
        (1u8 << ltt) >= 1,
        ((x & (((1u8 << ltt) - 1) as u8)) << cb) + carry < 32,
        ((x >> ltt) as nat) < pow2(ncb as nat),
        carry as nat + x as nat * pow2(cb as nat) == ((((x & (((1u8 << ltt) - 1) as u8)) << cb)
            + carry) as nat) + pow2(5) * ((x >> ltt) as nat),
{
    lemma_u8_one_shl(cb);
    lemma_u8_one_shl(ncb);
    lemma2_to64();
    assert(((1u8 << ltt) >= 1) && (((x & (((1u8 << ltt) - 1) as u8)) << cb) + carry < 32) && ((x
        >> ltt) < (1u8 << ncb)) && ((carry as u32) + (x as u32) * ((1u8 << cb) as u32) == ((((x & (((
    1u8 << ltt) - 1) as u8)) << cb) + carry) as u32) + 32 * ((x >> ltt) as u32))) by (bit_vector)
        requires
            cb < 5,
            ltt == 5 - cb,
            ncb == cb + 3,
            carry < (1u8 << cb),
    ;
}

/// Splitting a carry of `b` bits into its low `w` bits and the rest.
pub proof fn lemma_split_carry_u8(carry: u8, b: u8)
    requires
        5 <= b < 8,
        (carry as nat) < pow2(b as nat),
    ensures
        (1u8 << 5u8) >= 1,
        (carry & (((1u8 << 5u8) - 1) as u8)) < 32,
        carry as nat == (carry & (((1u8 << 5u8) - 1) as u8)) as nat + pow2(5) * ((carry >> 5u8) as nat),
        ((carry >> 5u8) as nat) < pow2((b - 5) as nat),
{
    lemma_u8_one_shl(b);
    lemma_u8_one_shl((b - 5) as u8);
    lemma2_to64();
    assert(((1u8 << 5u8) >= 1) && ((carry & (((1u8 << 5u8) - 1) as u8)) < 32) && (carry as u32 == (
    carry & (((1u8 << 5u8) - 1) as u8)) as u32 + 32 * ((carry >> 5u8) as u32)) && ((carry >> 5u8) < (
    1u8 << ((b - 5) as u8)))) by (bit_vector)
        requires
            5 <= b < 8,
            carry < (1u8 << b),
    ;
}

/// Decoding, absorbing 5-bit digit `d` above a carry of `cb < 8` bits.
pub proof fn lemma_decode_absorb(carry: u16, cb: u16, d: u8)
    requires
        cb < 8,
        (carry as nat) < pow2(cb as nat),
        d < 32,
    ensures
        ((d as u16) << cb) as nat == d as nat * pow2(cb as nat),
        carry as nat + (((d as u16) << cb) as nat) < pow2((cb + 5) as nat),
        pow2((cb + 5) as nat) <= 4096,
{
    if cb + 5 < 12 {
        vstd::arithmetic::power2::lemma_pow2_strictly_increases((cb + 5) as nat, 12);
    }
    lemma2_to64();
    lemma_u16_one_shl(cb);
    let p = pow2(cb as nat);
    assert(d as nat * p <= 31 * 128) by (nonlinear_arith)
        requires
            d < 32,
            p <= 128,
    ;
    lemma_u16_shl_is_mul(d as u16, cb);
    lemma_pow2_adds(cb as nat, 5);
    assert(carry as nat + d as nat * p < p * 32) by (nonlinear_arith)
        requires
            carry < p,
            d < 32,
    ;
}

/// Decoding, releasing the low byte of a carry of `b >= 8` bits.
pub proof fn lemma_split_carry_u16(carry: u16, b: u16)
    requires
        8 <= b < 13,
        (carry as nat) < pow2(b as nat),
    ensures
        (1u16 << 8u16) >= 1,
        (carry & (((1u16 << 8u16) - 1) as u16)) < 256,
        carry as nat == (carry & (((1u16 << 8u16) - 1) as u16)) as nat + pow2(8) * ((carry >> 8u16) as nat),
        ((carry >> 8u16) as nat) < pow2((b - 8) as nat),
{
    lemma_u16_one_shl(b);
    lemma_u16_one_shl((b - 8) as u16);
    lemma2_to64();
    assert(((1u16 << 8u16) >= 1) && ((carry & (((1u16 << 8u16) - 1) as u16)) < 256) && (carry as u32
        == (carry & (((1u16 << 8u16) - 1) as u16)) as u32 + 256 * ((carry >> 8u16) as u32)) && ((carry
        >> 8u16) < (1u16 << ((b - 8) as u16)))) by (bit_vector)
        requires
            8 <= b < 13,
            carry < (1u16 << b),
    ;
}

/// A streaming step in numbers: a value `v` held as output digits worth `dv`
/// below a carry at weight `2^e`; absorbing `x` at weight `2^(e + cb)` and
/// releasing the output digit `c` (of `w` bits) leaves the carry `nc` at weight
/// `2^(e + w)`.
pub proof fn lemma_carry_step(v: nat, dv: nat, carry: nat, x: nat, e: nat, cb: nat, c: nat, nc: nat, w: nat)
    requires
        v == dv + carry * pow2(e),
        carry + x * pow2(cb) == c + pow2(w) * nc,
    ensures
        x * pow2(e + cb) + v == (dv + c * pow2(e)) + nc * pow2(e + w),
{
    lemma_pow2_adds(e, cb);
    lemma_pow2_adds(e, w);
    let pe = pow2(e);
    let pc = pow2(cb);
    let pw = pow2(w);
    assert(x * (pe * pc) + (dv + carry * pe) == (dv + c * pe) + nc * (pe * pw)) by (nonlinear_arith)
        requires
            carry + x * pc == c + pw * nc,
    ;
}

/// A streaming step that only absorbs: `x` at weight `2^(e + cb)` joins a
/// carry at weight `2^e` as `x * 2^cb`.
pub proof fn lemma_absorb_step(v: nat, dv: nat, carry: nat, x: nat, e: nat, cb: nat)
    requires
        v == dv + carry * pow2(e),
    ensures
        x * pow2(e + cb) + v == dv + (carry + x * pow2(cb)) * pow2(e),
{
    lemma_pow2_adds(e, cb);
    let pe = pow2(e);
    let pc = pow2(cb);
    assert(x * (pe * pc) + (dv + carry * pe) == dv + (carry + x * pc) * pe) by (nonlinear_arith);
}

/// Or-ing four bytes shifted into place gives their little-endian value.
pub proof fn lemma_le_bytes_u32(b0: u8, b1: u8, b2: u8, b3: u8)
    ensures
        (b0 as u32) | ((b1 as u32) << 8u32) | ((b2 as u32) << 16u32) | ((b3 as u32) << 24u32) == (b0
            as int + 0x100 * b1 as int + 0x1_0000 * b2 as int + 0x100_0000 * b3 as int) as u32,
{
    assert((b0 as u32) | ((b1 as u32) << 8u32) | ((b2 as u32) << 16u32) | ((b3 as u32) << 24u32)
        == (b0 as u32) + 0x100u32 * (b1 as u32) + 0x1_0000u32 * (b2 as u32) + 0x100_0000u32 * (b3
        as u32)) by (bit_vector);
}

} // verus!
