//! c32 encoding, c32check encoding and c32 addresses.
use vstd::arithmetic::power2::{lemma2_to64, pow2};
use vstd::prelude::*;
use vstd::slice::slice_to_vec;
use vstd::string::StringSliceAdditionalSpecFns;

use super::c32_lemmas::{
    lemma_be_digits_unique, lemma_c32_char, lemma_c32_symbol, lemma_high_zeros,
    lemma_leading_zeros_count, lemma_push_low_digit, lemma_rebase_single,
};
use super::c32_spec::{
    be_digits, be_value, c32_alphabet, c32_char, c32_decode_spec, c32_digit, c32_digits,
    c32_encode_spec, c32_text, c32check_decode_spec, c32check_encode_spec, checksum_spec,
    digits_fit, is_ascii_char, is_c32_text, le_u32, rebase, zeros,
};
use super::hash::sha256;
use super::stream_lemmas::{
    lemma_absorb_step, lemma_carry_step, lemma_decode_absorb, lemma_encode_low_digit,
    lemma_le_bytes_u32, lemma_split_carry_u16, lemma_split_carry_u8,
};
use super::Error;

verus! {

const C32_CHARACTERS: &'static str = "0123456789ABCDEFGHJKMNPQRSTVWXYZ";

/// The alphabet string holds the 32 c32 symbols in digit order.
proof fn lemma_c32_characters()
    ensures
        C32_CHARACTERS@ == c32_alphabet(),
        vstd::string::is_ascii(C32_CHARACTERS),
{
    reveal_strlit("0123456789ABCDEFGHJKMNPQRSTVWXYZ");
    assert(C32_CHARACTERS@ =~= seq![
        '0', '1', '2', '3', '4', '5', '6', '7', '8', '9', 'A', 'B', 'C', 'D', 'E', 'F',
        'G', 'H', 'J', 'K', 'M', 'N', 'P', 'Q', 'R', 'S', 'T', 'V', 'W', 'X', 'Y', 'Z',
    ]);
    assert(C32_CHARACTERS@ =~= c32_alphabet());
}

/// Drops the zero digits at the most significant end of little-endian digits.
fn pop_high_zeros(digits: &mut Vec<u8>)
    ensures
        final(digits)@.len() <= old(digits)@.len(),
        old(digits)@ == final(digits)@ + zeros((old(digits)@.len() - final(digits)@.len()) as nat),
        final(digits)@.len() == 0 || final(digits)@.last() != 0,
{
    let ghost original = digits@;
    while digits.len() > 0 && digits[digits.len() - 1] == 0
        invariant
            digits@.len() <= original.len(),
            original == digits@ + zeros((original.len() - digits@.len()) as nat),
        decreases digits@.len(),
    {
        let ghost before = digits@;
        digits.pop();
        assert(before == digits@.push(0));
        assert(original =~= digits@ + zeros((original.len() - digits@.len()) as nat));
    }
}

/// Little-endian digits that fit in `w` bits, without zero digits at the most
/// significant end, are the reverse of the shortest digits of their value.
proof fn lemma_le_digits_unique(digits: Seq<u8>, w: nat)
    requires
        1 <= w <= 8,
        digits_fit(digits, w),
        digits.len() == 0 || digits.last() != 0,
    ensures
        be_digits(be_value(digits.reverse(), w), w) == digits.reverse(),
{
    let r = digits.reverse();
    assert(digits_fit(r, w)) by {
        assert forall|i: int| 0 <= i < r.len() implies (#[trigger] r[i] as nat) < pow2(w) by {
            assert(r[i] == digits[digits.len() - 1 - i]);
        }
    }
    if digits.len() > 0 {
        assert(r[0] == digits.last());
    }
    lemma_be_digits_unique(r, w);
}

/// Writes the c32 symbols of little-endian `digits`, most significant first.
fn c32_symbols_reversed(digits: &Vec<u8>) -> (text: String)
    requires
        forall|i: int| 0 <= i < digits@.len() ==> digits@[i] < 32,
    ensures
        text@ == c32_text(digits@.reverse()),
{
    proof {
        lemma_c32_characters();
    }
    let ghost r = digits@.reverse();
    let n = digits.len();
    let mut text = String::new();
    let mut k = n;
    while k > 0
        invariant
            k <= n == digits@.len(),
            r == digits@.reverse(),
            vstd::string::is_ascii(C32_CHARACTERS),
            C32_CHARACTERS@ == c32_alphabet(),
            forall|i: int| 0 <= i < digits@.len() ==> digits@[i] < 32,
            text@ == c32_text(r.take(n - k)),
        decreases k,
    {
        k = k - 1;
        let d = digits[k] as usize;
        let symbol = C32_CHARACTERS.substring_ascii(d, d + 1);
        text.append(symbol);
        assert(r[n - 1 - k] == digits@[k as int]);
        assert(c32_text(r.take(n - k)) =~= c32_text(r.take(n - 1 - k)) + symbol@);
    }
    assert(r.take(n as int) =~= r);
    text
}

/// The c32 text of a byte string: one `'0'` per leading zero byte, followed by
/// the base-32 digits of the bytes read as a big-endian number (none for
/// zero), most significant first.
pub fn c32_encode(input_bytes: &[u8]) -> (encoded: String)
    ensures
        encoded@ == c32_encode_spec(input_bytes@),
{
    let n = input_bytes.len();
    // base-32 digits of the value of the bytes read so far, least significant first
    let mut result: Vec<u8> = Vec::new();
    let mut carry: u8 = 0;
    let mut carry_bits: u8 = 0;
    let mut i = n;
    proof {
        lemma2_to64();
        assert(input_bytes@.subrange(n as int, n as int) =~= Seq::<u8>::empty());
        assert(result@.reverse() =~= Seq::<u8>::empty());
    }
    while i > 0
        invariant
            i <= n == input_bytes@.len(),
            carry_bits < 5,
            (carry as nat) < pow2(carry_bits as nat),
            8 * (n - i) == 5 * result@.len() + carry_bits,
            digits_fit(result@, 5),
            be_value(input_bytes@.subrange(i as int, n as int), 8) == be_value(result@.reverse(), 5)
                + carry as nat * pow2(5 * result@.len()),
        decreases i,
    {
        i = i - 1;
        let current_value = input_bytes[i];
        let ghost v_old = be_value(input_bytes@.subrange(i + 1, n as int), 8);
        let ghost digits_old = result@;
        let ghost carry_old = carry;
        let ghost bits_old = carry_bits;

        let low_bits_to_take: u8 = 5 - carry_bits;
        proof {
            lemma_encode_low_digit(current_value, carry, carry_bits, low_bits_to_take, (carry_bits + 3) as u8);
        }
        let low_bits: u8 = current_value & ((1u8 << low_bits_to_take) - 1);
        let c32_value: u8 = (low_bits << carry_bits) + carry;
        result.push(c32_value);
        carry_bits = (8 + carry_bits) - 5;
        carry = current_value >> (8 - carry_bits);
        proof {
            lemma2_to64();
            assert(input_bytes@.subrange(i as int, n as int) =~= seq![current_value]
                + input_bytes@.subrange(i + 1, n as int));
            super::c32_lemmas::lemma_be_value_prepend(
                current_value,
                input_bytes@.subrange(i + 1, n as int),
                8,
            );
            lemma_push_low_digit(digits_old, c32_value, 5);
            lemma_carry_step(
                v_old,
                be_value(digits_old.reverse(), 5),
                carry_old as nat,
                current_value as nat,
                5 * digits_old.len(),
                bits_old as nat,
                c32_value as nat,
                carry as nat,
                5,
            );
            assert(8 * (n - (i + 1)) == 5 * digits_old.len() + bits_old);
        }
        if carry_bits >= 5 {
            let ghost digits_mid = result@;
            let ghost carry_mid = carry;
            proof {
                lemma_split_carry_u8(carry, carry_bits);
            }
            let c32_value: u8 = carry & ((1u8 << 5u8) - 1);
            result.push(c32_value);
            carry_bits = carry_bits - 5;
            carry = carry >> 5u8;
            proof {
                lemma_push_low_digit(digits_mid, c32_value, 5);
                lemma_carry_step(
                    be_value(input_bytes@.subrange(i as int, n as int), 8),
                    be_value(digits_mid.reverse(), 5),
                    carry_mid as nat,
                    0,
                    5 * digits_mid.len(),
                    0,
                    c32_value as nat,
                    carry as nat,
                    5,
                );
            }
        }
    }
    if carry_bits > 0 {
        let ghost digits_old = result@;
        result.push(carry);
        proof {
            lemma_push_low_digit(digits_old, carry, 5);
            vstd::arithmetic::power2::lemma_pow2_strictly_increases(carry_bits as nat, 5);
        }
    }
    proof {
        assert(input_bytes@.subrange(0, n as int) =~= input_bytes@);
    }
    let ghost value = be_value(input_bytes@, 8);
    assert(be_value(result@.reverse(), 5) == value);

    // drop zero digits at the most significant end
    let ghost full = result@;
    pop_high_zeros(&mut result);
    proof {
        lemma_high_zeros(result@, (full.len() - result@.len()) as nat, 5);
        assert(digits_fit(result@, 5)) by {
            assert forall|k: int| 0 <= k < result@.len() implies (#[trigger] result@[k] as nat)
                < pow2(5) by {
                assert(result@[k] == full[k]);
            }
        }
        lemma_le_digits_unique(result@, 5);
    }
    let ghost significant = result@;

    // one zero digit per leading zero byte
    let mut j: usize = 0;
    while j < n && input_bytes[j] == 0
        invariant
            j <= n == input_bytes@.len(),
            forall|k: int| 0 <= k < j ==> input_bytes@[k] == 0,
            result@ == significant + zeros(j as nat),
        decreases n - j,
    {
        result.push(0);
        j = j + 1;
        assert(result@ =~= significant + zeros(j as nat));
    }
    proof {
        lemma_leading_zeros_count(input_bytes@, j as nat);
        assert(result@.reverse() =~= zeros(j as nat) + significant.reverse());
        assert(result@.reverse() == rebase(input_bytes@, 8, 5));
        assert forall|k: int| 0 <= k < result@.len() implies result@[k] < 32 by {
            if k < significant.len() {
                assert(result@[k] == significant[k]);
                assert((significant[k] as nat) < pow2(5));
            }
        }
    }
    c32_symbols_reversed(&result)
}

/// The position of the byte `c` in the c32 alphabet, if it is there.
fn c32_find(c: u8) -> (position: Option<u8>)
    ensures
        match position {
            Some(d) => d < 32 && c32_char(d as int) as u8 == c,
            None => forall|d: int| 0 <= d < 32 ==> c32_char(d) as u8 != c,
        },
{
    proof {
        lemma_c32_characters();
    }
    let c32_chars: &[u8] = C32_CHARACTERS.as_bytes();
    assert(c32_chars@.len() == 32);
    let mut d: usize = 0;
    while d < 32
        invariant
            c32_chars@ == C32_CHARACTERS.spec_bytes(),
            vstd::string::is_ascii(C32_CHARACTERS),
            C32_CHARACTERS@ == c32_alphabet(),
            d <= 32,
            forall|k: int| 0 <= k < d ==> c32_char(k) as u8 != c,
        decreases 32 - d,
    {
        assert(c32_chars@[d as int] == c32_char(d as int) as u8);
        if c32_chars[d] == c {
            return Some(d as u8);
        }
        d = d + 1;
    }
    None
}

/// Reverses a byte vector.
fn reversed(v: &Vec<u8>) -> (r: Vec<u8>)
    ensures
        r@ == v@.reverse(),
{
    let n = v.len();
    let mut r: Vec<u8> = Vec::new();
    let mut k = n;
    while k > 0
        invariant
            k <= n == v@.len(),
            r@ == v@.reverse().take(n - k),
        decreases k,
    {
        k = k - 1;
        r.push(v[k]);
        assert(r@ =~= v@.reverse().take(n - k));
    }
    assert(v@.reverse().take(n as int) =~= v@.reverse());
    r
}

/// Two ASCII characters with the same byte are the same character.
proof fn lemma_ascii_byte_eq(a: char, b: char)
    requires
        is_ascii_char(a),
        is_ascii_char(b),
        a as u8 == b as u8,
    ensures
        a == b,
{
}

/// The bytes of c32 text: one zero byte per leading `'0'`, followed by the
/// big-endian bytes (none for zero) of the number that the text writes in
/// base 32. Text with a character outside the c32 alphabet is refused.
pub fn c32_decode(input_str: &str) -> (decoded: Result<Vec<u8>, Error>)
    ensures
        match decoded {
            Ok(bytes) => is_c32_text(input_str@) && bytes@ == c32_decode_spec(input_str@),
            Err(e) => !is_c32_text(input_str@) && e == Error::InvalidCrockford32,
        },
{
    if !input_str.is_ascii() {
        proof {
            let k = choose|k: int|
                0 <= k < input_str@.len() && !('\0' <= #[trigger] input_str@[k] <= '\u{7f}');
            if c32_alphabet().contains(input_str@[k]) {
                lemma_c32_symbol(input_str@[k]);
            }
        }
        return Err(Error::InvalidCrockford32);
    }
    let input_bytes: &[u8] = input_str.as_bytes();
    let n = input_bytes.len();
    let ghost text = input_str@;
    let ghost digits = c32_digits(text);
    assert(n == text.len());
    // bytes of the value of the digits read so far, least significant first
    let mut result: Vec<u8> = Vec::new();
    let mut carry: u16 = 0;
    let mut carry_bits: u16 = 0;
    let mut i = n;
    proof {
        lemma2_to64();
        assert(digits.subrange(n as int, n as int) =~= Seq::<u8>::empty());
        assert(result@.reverse() =~= Seq::<u8>::empty());
    }
    while i > 0
        invariant
            i <= n == text.len(),
            text == input_str@,
            digits == c32_digits(text),
            input_bytes@ == Seq::new(text.len(), |k: int| text[k] as u8),
            vstd::string::is_ascii(input_str),
            forall|k: int| i <= k < n ==> c32_alphabet().contains(#[trigger] text[k]),
            carry_bits < 8,
            (carry as nat) < pow2(carry_bits as nat),
            5 * (n - i) == 8 * result@.len() + carry_bits,
            digits_fit(result@, 8),
            be_value(digits.subrange(i as int, n as int), 5) == be_value(result@.reverse(), 8)
                + carry as nat * pow2(8 * result@.len()),
        decreases i,
    {
        i = i - 1;
        let current_5bit = match c32_find(input_bytes[i]) {
            Some(d) => d,
            None => {
                proof {
                    assert(!is_ascii_char(text[i as int]) || is_ascii_char(text[i as int]));
                    if c32_alphabet().contains(text[i as int]) {
                        lemma_c32_symbol(text[i as int]);
                        assert(c32_char(c32_digit(text[i as int]) as int) as u8 == input_bytes@[i as int]);
                    }
                    assert(!c32_alphabet().contains(text[i as int]));
                }
                return Err(Error::InvalidCrockford32);
            },
        };
        proof {
            lemma_c32_char(current_5bit as int);
            lemma_ascii_byte_eq(c32_char(current_5bit as int), text[i as int]);
            assert(digits[i as int] == current_5bit);
        }
        let ghost v_old = be_value(digits.subrange(i + 1, n as int), 5);
        let ghost bytes_old = result@;
        let ghost carry_old = carry;
        let ghost bits_old = carry_bits;
        proof {
            lemma_decode_absorb(carry, carry_bits, current_5bit);
        }
        carry += (current_5bit as u16) << carry_bits;
        carry_bits += 5;
        proof {
            assert(digits.subrange(i as int, n as int) =~= seq![current_5bit]
                + digits.subrange(i + 1, n as int));
            super::c32_lemmas::lemma_be_value_prepend(
                current_5bit,
                digits.subrange(i + 1, n as int),
                5,
            );
            assert(5 * (n - (i + 1)) == 8 * bytes_old.len() + bits_old);
            lemma_absorb_step(
                v_old,
                be_value(bytes_old.reverse(), 8),
                carry_old as nat,
                current_5bit as nat,
                8 * bytes_old.len(),
                bits_old as nat,
            );
        }
        if carry_bits >= 8 {
            let ghost carry_mid = carry;
            proof {
                lemma_split_carry_u16(carry, carry_bits);
            }
            let byte: u8 = (carry & ((1u16 << 8u16) - 1)) as u8;
            result.push(byte);
            carry_bits -= 8;
            carry = carry >> 8u16;
            proof {
                lemma2_to64();
                lemma_push_low_digit(bytes_old, byte, 8);
                lemma_carry_step(
                    be_value(digits.subrange(i as int, n as int), 5),
                    be_value(bytes_old.reverse(), 8),
                    carry_mid as nat,
                    0,
                    8 * bytes_old.len(),
                    0,
                    byte as nat,
                    carry as nat,
                    8,
                );
                assert((byte as nat) < pow2(8));
            }
        }
    }
    if carry_bits > 0 {
        let ghost bytes_old = result@;
        proof {
            vstd::arithmetic::power2::lemma_pow2_strictly_increases(carry_bits as nat, 8);
        }
        result.push(carry as u8);
        proof {
            lemma_push_low_digit(bytes_old, carry as u8, 8);
        }
    }
    proof {
        assert(digits.subrange(0, n as int) =~= digits);
        assert(is_c32_text(text));
    }
    assert(be_value(result@.reverse(), 8) == be_value(digits, 5));

    // drop zero bytes at the most significant end
    let ghost full = result@;
    pop_high_zeros(&mut result);
    proof {
        lemma_high_zeros(result@, (full.len() - result@.len()) as nat, 8);
        assert(digits_fit(result@, 8)) by {
            assert forall|k: int| 0 <= k < result@.len() implies (#[trigger] result@[k] as nat)
                < pow2(8) by {
                assert(result@[k] == full[k]);
            }
        }
        lemma_le_digits_unique(result@, 8);
    }
    let ghost significant = result@;

    // one zero byte per leading '0'
    let mut j: usize = 0;
    while j < n && input_bytes[j] == '0' as u8
        invariant
            j <= n == text.len(),
            digits == c32_digits(text),
            input_bytes@ == Seq::new(text.len(), |k: int| text[k] as u8),
            is_c32_text(text),
            forall|k: int| 0 <= k < j ==> digits[k] == 0,
            result@ == significant + zeros(j as nat),
        decreases n - j,
    {
        proof {
            lemma_c32_symbol(text[j as int]);
            lemma_c32_char(c32_digit(text[j as int]) as int);
            lemma_ascii_byte_eq(text[j as int], '0');
        }
        result.push(0);
        j = j + 1;
        assert(result@ =~= significant + zeros(j as nat));
    }
    proof {
        if j < n {
            lemma_c32_symbol(text[j as int]);
            lemma_c32_char(c32_digit(text[j as int]) as int);
            assert(digits[j as int] != 0);
        }
        lemma_leading_zeros_count(digits, j as nat);
        assert(result@.reverse() =~= zeros(j as nat) + significant.reverse());
    }
    Ok(reversed(&result))
}

/// The c32check checksum of `data`: the first four bytes of SHA-256 applied
/// twice.
pub fn double_sha256_checksum(data: &[u8]) -> (checksum: Vec<u8>)
    ensures
        checksum@ == checksum_spec(data@),
{
    let first = sha256(data);
    let second = sha256(first.as_slice());
    let checksum = vec![second[0], second[1], second[2], second[3]];
    assert(checksum@ =~= checksum_spec(data@));
    checksum
}

/// The c32check text of `data` under `version` with a given `checksum`: the
/// version's symbol followed by the c32 text of the data and the checksum.
pub fn c32_check_assemble(version: u8, data: &[u8], checksum: &[u8]) -> (text: String)
    requires
        version < 32,
    ensures
        text@ == seq![c32_char(version as int)] + c32_encode_spec(data@ + checksum@),
{
    proof {
        lemma_c32_characters();
    }
    let mut encoding_data: Vec<u8> = slice_to_vec(data);
    encoding_data.extend_from_slice(checksum);
    assert(encoding_data@ =~= data@ + checksum@);
    let c32_string = c32_encode(encoding_data.as_slice());
    let version_char = C32_CHARACTERS.substring_ascii(version as usize, version as usize + 1);
    let mut text = String::from_str(version_char);
    text.append(c32_string.as_str());
    assert(text@ =~= seq![c32_char(version as int)] + c32_encode_spec(data@ + checksum@));
    text
}

/// c32check text: the version's symbol, then the c32 text of the data followed
/// by the checksum of the version byte and the data. Versions that do not fit
/// in one c32 digit are refused.
pub fn c32_check_encode(version: u8, data: &[u8]) -> (encoded: Result<String, Error>)
    ensures
        match encoded {
            Ok(text) => version < 32 && text@ == c32check_encode_spec(version, data@),
            Err(e) => version >= 32 && e == Error::InvalidVersion(version),
        },
{
    if version >= 32 {
        return Err(Error::InvalidVersion(version));
    }
    let mut check_data: Vec<u8> = vec![version];
    check_data.extend_from_slice(data);
    assert(check_data@ =~= seq![version] + data@);
    let checksum = double_sha256_checksum(check_data.as_slice());
    Ok(c32_check_assemble(version, data, checksum.as_slice()))
}

/// A UTF-8 encoding has at least one byte per character.
proof fn lemma_encode_utf8_len(chars: Seq<char>)
    ensures
        vstd::utf8::encode_utf8(chars).len() >= chars.len(),
    decreases chars.len(),
{
    if chars.len() > 0 {
        lemma_encode_utf8_len(chars.drop_first());
    }
}

/// Text that holds a non-ASCII character at position `k` is not c32 text.
proof fn lemma_not_ascii_not_c32(s: Seq<char>, k: int)
    requires
        0 <= k < s.len(),
        !('\0' <= s[k] <= '\u{7f}'),
    ensures
        !is_c32_text(s),
{
    if c32_alphabet().contains(s[k]) {
        lemma_c32_symbol(s[k]);
    }
}

/// Compares the checksum carried by c32check text with the one computed over
/// its version and data: equal checksums give the version and the data,
/// different ones give `BadChecksum` with both read as little-endian numbers.
pub fn c32_check_compare(
    version: u8,
    data: &[u8],
    expected_sum: &[u8],
    computed_sum: &[u8],
) -> (checked: Result<(u8, Vec<u8>), Error>)
    requires
        expected_sum@.len() == 4,
        computed_sum@.len() == 4,
    ensures
        match checked {
            Ok((v, d)) => computed_sum@ == expected_sum@ && v == version && d@ == data@,
            Err(e) => computed_sum@ != expected_sum@ && e == Error::BadChecksum(
                le_u32(computed_sum@),
                le_u32(expected_sum@),
            ),
        },
{
    if computed_sum[0] != expected_sum[0] || computed_sum[1] != expected_sum[1] || computed_sum[2]
        != expected_sum[2] || computed_sum[3] != expected_sum[3] {
        let computed_sum_u32 = (computed_sum[0] as u32) | ((computed_sum[1] as u32) << 8u32) | ((
        computed_sum[2] as u32) << 16u32) | ((computed_sum[3] as u32) << 24u32);
        let expected_sum_u32 = (expected_sum[0] as u32) | ((expected_sum[1] as u32) << 8u32) | ((
        expected_sum[2] as u32) << 16u32) | ((expected_sum[3] as u32) << 24u32);
        proof {
            lemma_le_bytes_u32(computed_sum[0], computed_sum[1], computed_sum[2], computed_sum[3]);
            lemma_le_bytes_u32(expected_sum[0], expected_sum[1], expected_sum[2], expected_sum[3]);
        }
        return Err(Error::BadChecksum(computed_sum_u32, expected_sum_u32));
    }
    assert(computed_sum@ =~= expected_sum@);
    Ok((version, slice_to_vec(data)))
}

/// Reads c32check text: the version symbol, then c32 text of the data followed
/// by a four-byte checksum of the version and the data.
pub fn c32_check_decode(check_data: &str) -> (decoded: Result<(u8, Vec<u8>), Error>)
    requires
        check_data.spec_bytes().len() >= 2 ==> is_ascii_char(check_data@[0]),
    ensures
        match decoded {
            Ok((version, data)) => c32check_decode_spec(check_data@) == Ok::<(u8, Seq<u8>), Error>(
                (version, data@),
            ),
            Err(e) => c32check_decode_spec(check_data@) == Err::<(u8, Seq<u8>), Error>(e),
        },
{
    if check_data.as_bytes().len() < 2 {
        proof {
            lemma_encode_utf8_len(check_data@);
        }
        return Err(Error::InvalidCrockford32);
    }
    if !check_data.is_ascii() {
        proof {
            let k = choose|k: int|
                0 <= k < check_data@.len() && !('\0' <= #[trigger] check_data@[k] <= '\u{7f}');
            lemma_not_ascii_not_c32(check_data@, k);
        }
        return Err(Error::InvalidCrockford32);
    }
    let ghost text = check_data@;
    let n = check_data.as_bytes().len();
    proof {
        vstd::string::is_ascii_spec_bytes(check_data);
    }
    assert(n == text.len());
    let version = check_data.substring_ascii(0, 1);
    let data = check_data.substring_ascii(1, n);
    assert(data@ == text.skip(1));
    assert(text =~= version@ + data@);
    let data_sum_bytes = match c32_decode(data) {
        Ok(bytes) => bytes,
        Err(e) => {
            proof {
                let k = choose|k: int|
                    0 <= k < data@.len() && !c32_alphabet().contains(#[trigger] data@[k]);
                assert(text[k + 1] == data@[k]);
            }
            return Err(e);
        },
    };
    if data_sum_bytes.len() < 5 {
        return Err(Error::InvalidCrockford32);
    }
    let (data_bytes, expected_sum) = data_sum_bytes.as_slice().split_at(data_sum_bytes.len() - 4);
    let mut check_bytes = match c32_decode(version) {
        Ok(bytes) => bytes,
        Err(e) => {
            proof {
                let k = choose|k: int|
                    0 <= k < version@.len() && !c32_alphabet().contains(#[trigger] version@[k]);
                assert(text[k] == version@[k]);
            }
            return Err(e);
        },
    };
    proof {
        assert(is_c32_text(text)) by {
            assert forall|k: int| 0 <= k < text.len() implies c32_alphabet().contains(
                #[trigger] text[k],
            ) by {
                if k == 0 {
                    assert(text[k] == version@[0]);
                } else {
                    assert(text[k] == data@[k - 1]);
                }
            }
        }
        lemma_c32_symbol(text[0]);
        assert(c32_digits(version@) =~= seq![c32_digit(text[0])]);
        lemma_rebase_single(c32_digit(text[0]));
    }
    check_bytes.extend_from_slice(data_bytes);
    assert(check_bytes@ =~= seq![c32_digit(text[0])] + data_bytes@);
    let computed_sum = double_sha256_checksum(check_bytes.as_slice());
    let version_byte = check_bytes[0];
    c32_check_compare(version_byte, data_bytes, expected_sum, computed_sum.as_slice())
}

/// Reads a c32 address: a leading character, which is skipped, then
/// c32check text. Addresses of at most five bytes are refused.
pub fn c32_address_decode(c32_address_str: &str) -> (decoded: Result<(u8, Vec<u8>), Error>)
    requires
        c32_address_str.spec_bytes().len() > 5 ==> is_ascii_char(c32_address_str@[0])
            && is_ascii_char(c32_address_str@[1]),
    ensures
        c32_address_str.spec_bytes().len() <= 5 ==> decoded == Err::<(u8, Vec<u8>), Error>(
            Error::InvalidCrockford32,
        ),
        c32_address_str.spec_bytes().len() > 5 ==> match decoded {
            Ok((version, data)) => c32check_decode_spec(c32_address_str@.skip(1)) == Ok::<
                (u8, Seq<u8>),
                Error,
            >((version, data@)),
            Err(e) => c32check_decode_spec(c32_address_str@.skip(1)) == Err::<(u8, Seq<u8>), Error>(
                e,
            ),
        },
{
    if c32_address_str.as_bytes().len() <= 5 {
        return Err(Error::InvalidCrockford32);
    }
    if !c32_address_str.is_ascii() {
        proof {
            let s = c32_address_str@;
            let k = choose|k: int| 0 <= k < s.len() && !('\0' <= #[trigger] s[k] <= '\u{7f}');
            assert(k >= 2);
            assert(s.skip(1)[k - 1] == s[k]);
            lemma_not_ascii_not_c32(s.skip(1), k - 1);
        }
        return Err(Error::InvalidCrockford32);
    }
    let n = c32_address_str.as_bytes().len();
    proof {
        vstd::string::is_ascii_spec_bytes(c32_address_str);
    }
    let rest = c32_address_str.substring_ascii(1, n);
    c32_check_decode(rest)
}

/// The c32 address of `data` under `version`: `'S'` followed by the c32check
/// text. Versions that do not fit in one c32 digit are refused.
pub fn c32_address(version: u8, data: &[u8]) -> (address: Result<String, Error>)
    ensures
        match address {
            Ok(text) => version < 32 && text@ == seq!['S'] + c32check_encode_spec(version, data@),
            Err(e) => version >= 32 && e == Error::InvalidVersion(version),
        },
{
    let c32_string = match c32_check_encode(version, data) {
        Ok(text) => text,
        Err(e) => return Err(e),
    };
    let mut address = String::from_str("S");
    address.append(c32_string.as_str());
    proof {
        reveal_strlit("S");
    }
    assert(address@ =~= seq!['S'] + c32check_encode_spec(version, data@));
    Ok(address)
}

} // verus!
