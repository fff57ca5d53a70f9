//! The mathematical meaning of c32 text: digit sequences, their values and
//! the re-basing that turns bytes into c32 digits and back.
use vstd::arithmetic::power2::pow2;
use vstd::prelude::*;

use super::Error;
use super::hash::sha256_digest;

verus! {

/// The c32 symbol of digit `d` (for `d < 32`): the decimal digits followed by
/// the upper-case letters other than `I`, `L`, `O` and `U`.
pub open spec fn c32_char(d: int) -> char {
    if d < 10 {
        (d + 48) as char  // '0'..='9'
    } else if d < 18 {
        (d + 55) as char  // 'A'..='H'
    } else if d < 20 {
        (d + 56) as char  // 'J', 'K'
    } else if d < 22 {
        (d + 57) as char  // 'M', 'N'
    } else if d < 27 {
        (d + 58) as char  // 'P'..='T'
    } else {
        (d + 59) as char  // 'V'..='Z'
    }
}

/// The 32 c32 symbols, in digit order.
pub open spec fn c32_alphabet() -> Seq<char> {
    Seq::new(32, |d: int| c32_char(d))
}

/// Every character of `s` is a c32 symbol.
pub open spec fn is_c32_text(s: Seq<char>) -> bool {
    forall|i: int| 0 <= i < s.len() ==> c32_alphabet().contains(#[trigger] s[i])
}

/// The digit that the c32 symbol `c` stands for.
pub open spec fn c32_digit(c: char) -> u8 {
    c32_alphabet().index_of(c) as u8
}

/// The digits that the c32 symbols of `s` stand for, in the same order.
pub open spec fn c32_digits(s: Seq<char>) -> Seq<u8> {
    s.map_values(|c: char| c32_digit(c))
}

/// The c32 symbols of `digits`, in the same order.
pub open spec fn c32_text(digits: Seq<u8>) -> Seq<char> {
    digits.map_values(|d: u8| c32_char(d as int))
}

/// The number written by `digits`, most significant digit first, each digit
/// holding `w` bits.
pub open spec fn be_value(digits: Seq<u8>, w: nat) -> nat
    decreases digits.len(),
{
    if digits.len() == 0 {
        0
    } else {
        be_value(digits.drop_last(), w) * pow2(w) + digits.last() as nat
    }
}

/// The shortest digit sequence, most significant digit first, that writes `n`
/// with `w` bits per digit (empty for zero).
pub open spec fn be_digits(n: nat, w: nat) -> Seq<u8>
    decreases n,
{
    if n == 0 || w == 0 {
        seq![]
    } else {
        proof {
            vstd::arithmetic::power2::lemma_pow2_strictly_increases(0, w);
            vstd::arithmetic::power2::lemma2_to64();
            vstd::arithmetic::div_mod::lemma_div_decreases(n as int, pow2(w) as int);
        }
        be_digits(n / pow2(w), w).push((n % pow2(w)) as u8)
    }
}

/// The number of zero digits that `s` starts with.
pub open spec fn leading_zeros(s: Seq<u8>) -> nat
    decreases s.len(),
{
    if s.len() > 0 && s[0] == 0 {
        1 + leading_zeros(s.drop_first())
    } else {
        0
    }
}

/// `k` zero digits.
pub open spec fn zeros(k: nat) -> Seq<u8> {
    Seq::new(k, |i: int| 0u8)
}

/// Rewrites `digits` (with `from` bits per digit) with `to` bits per digit:
/// each leading zero digit becomes one zero digit, and the rest is the
/// shortest digit sequence of the same number.
pub open spec fn rebase(digits: Seq<u8>, from: nat, to: nat) -> Seq<u8> {
    zeros(leading_zeros(digits)) + be_digits(be_value(digits, from), to)
}

/// Every digit of `digits` holds at most `w` bits.
pub open spec fn digits_fit(digits: Seq<u8>, w: nat) -> bool {
    forall|i: int| 0 <= i < digits.len() ==> (#[trigger] digits[i] as nat) < pow2(w)
}

/// The c32 text of a byte string: one `'0'` per leading zero byte, then the
/// base-32 digits of the bytes read as a big-endian number.
pub open spec fn c32_encode_spec(bytes: Seq<u8>) -> Seq<char> {
    c32_text(rebase(bytes, 8, 5))
}

/// The bytes of c32 text (of c32 symbols only): one zero byte per leading
/// `'0'`, then the big-endian bytes of the number the text writes in base 32.
pub open spec fn c32_decode_spec(s: Seq<char>) -> Seq<u8> {
    rebase(c32_digits(s), 5, 8)
}

/// The four-byte checksum of c32check: the first four bytes of SHA-256
/// applied twice.
pub open spec fn checksum_spec(data: Seq<u8>) -> Seq<u8> {
    sha256_digest(sha256_digest(data)@)@.take(4)
}

/// Four bytes read as a little-endian number.
pub open spec fn le_u32(b: Seq<u8>) -> u32 {
    (b[0] as int + 0x100 * b[1] as int + 0x1_0000 * b[2] as int + 0x100_0000 * b[3] as int) as u32
}

/// c32check text of `data` under `version` (for `version < 32`): the
/// version's symbol, then the c32 text of the data followed by the checksum of
/// the version byte and the data.
pub open spec fn c32check_encode_spec(version: u8, data: Seq<u8>) -> Seq<char> {
    seq![c32_char(version as int)] + c32_encode_spec(data + checksum_spec(seq![version] + data))
}

/// What reading c32check text gives: the text must hold at least two
/// characters, all c32 symbols, and its part after the version symbol must
/// decode to at least five bytes, the last four of which are the checksum of
/// the version and the bytes before them.
pub open spec fn c32check_decode_spec(s: Seq<char>) -> Result<(u8, Seq<u8>), Error> {
    if s.len() < 2 || !is_c32_text(s) || c32_decode_spec(s.skip(1)).len() < 5 {
        Err(Error::InvalidCrockford32)
    } else {
        let payload = c32_decode_spec(s.skip(1));
        let data = payload.take(payload.len() - 4);
        let expected = payload.skip(payload.len() - 4);
        let version = c32_digit(s[0]);
        let computed = checksum_spec(seq![version] + data);
        if computed == expected {
            Ok((version, data))
        } else {
            Err(Error::BadChecksum(le_u32(computed), le_u32(expected)))
        }
    }
}

/// The character is ASCII.
pub open spec fn is_ascii_char(c: char) -> bool {
    '\0' <= c <= '\u{7f}'
}

} // verus!
