//! Facts about digit sequences and c32 text, and the laws of the library.
use vstd::arithmetic::div_mod::{lemma_fundamental_div_mod, lemma_fundamental_div_mod_converse};
use vstd::arithmetic::power2::{
    lemma2_to64, lemma_pow2_adds, lemma_pow2_pos, lemma_pow2_strictly_increases, pow2,
};
use vstd::prelude::*;
use vstd::utf8::{encode_utf8, is_ascii_chars, is_ascii_chars_encode_utf8};

use super::Error;
use super::c32_spec::{
    be_digits, be_value, c32_alphabet, c32_char, c32_decode_spec, c32_digit, c32_digits,
    c32_encode_spec, c32_text, c32check_decode_spec, c32check_encode_spec, checksum_spec,
    digits_fit, is_ascii_char, is_c32_text, leading_zeros, rebase, zeros,
};

verus! {

/// `2^w` is at least two and at most 256 for `1 <= w <= 8`.
pub proof fn lemma_pow2_digit_range(w: nat)
    requires
        1 <= w <= 8,
    ensures
        2 <= pow2(w) <= 256,
{
    lemma2_to64();
    lemma_pow2_strictly_increases(0, w);
    if w < 8 {
        lemma_pow2_strictly_increases(w, 8);
    }
}

/// Prepending digit `x` to `t` adds `x` times the weight of its position.
pub proof fn lemma_be_value_prepend(x: u8, t: Seq<u8>, w: nat)
    ensures
        be_value(seq![x] + t, w) == x as nat * pow2(w * t.len()) + be_value(t, w),
    decreases t.len(),
{
    let s = seq![x] + t;
    if t.len() == 0 {
        assert(s.drop_last() =~= Seq::<u8>::empty());
        assert(s.last() == x);
        lemma2_to64();
        assert(w * t.len() == 0);
        let p = pow2(w);
        assert(0 * p == 0) by (nonlinear_arith);
        assert(be_value(s, w) == x as nat);
        let one = pow2(w * t.len());
        assert(x * one == x) by (nonlinear_arith)
            requires
                one == 1,
        ;
    } else {
        let k = t.len();
        let km: nat = (k - 1) as nat;
        assert(s.drop_last() =~= seq![x] + t.drop_last());
        lemma_be_value_prepend(x, t.drop_last(), w);
        let a = pow2(w * km);
        let p = pow2(w);
        let b = be_value(t.drop_last(), w);
        assert(w * km + w == w * k) by (nonlinear_arith)
            requires
                km + 1 == k,
        ;
        lemma_pow2_adds(w * km, w);
        assert((x * a + b) * p == x * (a * p) + b * p) by (nonlinear_arith);
        assert(s.last() == t.last());
        assert(be_value(s, w) == be_value(s.drop_last(), w) * p + s.last() as nat);
        assert(be_value(t, w) == b * p + t.last() as nat);
    }
}

/// Leading zero digits do not change the value.
pub proof fn lemma_be_value_zeros(k: nat, t: Seq<u8>, w: nat)
    ensures
        be_value(zeros(k) + t, w) == be_value(t, w),
    decreases k,
{
    if k > 0 {
        let km: nat = (k - 1) as nat;
        assert(zeros(k) + t =~= seq![0u8] + (zeros(km) + t));
        lemma_be_value_prepend(0u8, zeros(km) + t, w);
        lemma_be_value_zeros(km, t, w);
    }
}

/// Digits that fit in `w` bits write a number below `2^(w * len)`.
pub proof fn lemma_be_value_bound(s: Seq<u8>, w: nat)
    requires
        digits_fit(s, w),
    ensures
        be_value(s, w) < pow2(w * s.len()),
    decreases s.len(),
{
    if s.len() == 0 {
        lemma2_to64();
        assert(w * s.len() == 0);
    } else {
        let k = s.len();
        let km: nat = (k - 1) as nat;
        let s1 = s.drop_last();
        assert(digits_fit(s1, w)) by {
            assert forall|i: int| 0 <= i < s1.len() implies (#[trigger] s1[i] as nat) < pow2(w) by {
                assert(s1[i] == s[i]);
            }
        }
        lemma_be_value_bound(s1, w);
        assert(w * km + w == w * k) by (nonlinear_arith)
            requires
                km + 1 == k,
        ;
        lemma_pow2_adds(w * km, w);
        let a = pow2(w * km);
        let p = pow2(w);
        let v = be_value(s1, w);
        let l = s.last() as nat;
        assert(s.last() == s[k - 1]);
        assert(v * p + l < a * p) by (nonlinear_arith)
            requires
                v < a,
                l < p,
        ;
    }
}

/// A digit sequence that starts with a non-zero digit writes a number of at
/// least `2^(w * (len - 1))`.
pub proof fn lemma_be_value_lower(s: Seq<u8>, w: nat)
    requires
        s.len() > 0,
        s[0] != 0,
    ensures
        be_value(s, w) >= pow2(w * (s.len() - 1) as nat),
        be_value(s, w) > 0,
{
    let t = s.drop_first();
    assert(s =~= seq![s[0]] + t);
    lemma_be_value_prepend(s[0], t, w);
    lemma_pow2_pos(w * t.len());
    let a = pow2(w * t.len());
    assert(s[0] as nat * a >= a) by (nonlinear_arith)
        requires
            s[0] >= 1,
            a > 0,
    ;
}

/// The shortest digits of `n` write `n`, fit in `w` bits and do not start with
/// a zero digit.
pub proof fn lemma_be_digits(n: nat, w: nat)
    requires
        1 <= w <= 8,
    ensures
        be_value(be_digits(n, w), w) == n,
        digits_fit(be_digits(n, w), w),
        be_digits(n, w).len() == 0 || be_digits(n, w)[0] != 0,
        n > 0 ==> be_digits(n, w).len() > 0,
    decreases n,
{
    if n > 0 {
        let p = pow2(w);
        lemma_pow2_digit_range(w);
        vstd::arithmetic::div_mod::lemma_div_decreases(n as int, p as int);
        let q = n / p;
        let r = n % p;
        lemma_be_digits(q, w);
        lemma_fundamental_div_mod(n as int, p as int);
        let d = be_digits(n, w);
        let dq = be_digits(q, w);
        assert(d == dq.push(r as u8));
        assert(d.drop_last() =~= dq);
        assert(q * p == p * q) by (nonlinear_arith);
        assert(digits_fit(d, w)) by {
            assert forall|i: int| 0 <= i < d.len() implies (#[trigger] d[i] as nat) < pow2(w) by {
                if i < dq.len() {
                    assert(d[i] == dq[i]);
                }
            }
        }
        if q == 0 {
            assert(d[0] == r as u8);
        } else {
            assert(d[0] == dq[0]);
        }
    }
}

/// Digit sequences that fit in `w` bits and do not start with a zero digit are
/// the shortest digits of their value.
pub proof fn lemma_be_digits_unique(s: Seq<u8>, w: nat)
    requires
        1 <= w <= 8,
        digits_fit(s, w),
        s.len() == 0 || s[0] != 0,
    ensures
        be_digits(be_value(s, w), w) == s,
    decreases s.len(),
{
    if s.len() > 0 {
        let p = pow2(w);
        lemma_pow2_digit_range(w);
        let s1 = s.drop_last();
        let l = s.last();
        assert(l == s[s.len() - 1]);
        let n = be_value(s, w);
        lemma_be_value_lower(s, w);
        assert(digits_fit(s1, w)) by {
            assert forall|i: int| 0 <= i < s1.len() implies (#[trigger] s1[i] as nat) < pow2(w) by {
                assert(s1[i] == s[i]);
            }
        }
        if s1.len() > 0 {
            assert(s1[0] == s[0]);
        }
        lemma_be_digits_unique(s1, w);
        lemma_fundamental_div_mod_converse(n as int, p as int, be_value(s1, w) as int, l as int);
        assert(s =~= s1.push(l));
    }
}

/// `s` is its leading zero digits followed by a part that is empty or starts
/// with a non-zero digit.
pub proof fn lemma_leading_zeros_split(s: Seq<u8>)
    ensures
        leading_zeros(s) <= s.len(),
        s =~= zeros(leading_zeros(s)) + s.skip(leading_zeros(s) as int),
        s.skip(leading_zeros(s) as int).len() == 0 || s.skip(leading_zeros(s) as int)[0] != 0,
    decreases s.len(),
{
    if s.len() > 0 && s[0] == 0 {
        let t = s.drop_first();
        lemma_leading_zeros_split(t);
        let z = leading_zeros(t);
        assert(s.skip((z + 1) as int) =~= t.skip(z as int));
        assert(s =~= zeros(z + 1) + s.skip((z + 1) as int)) by {
            assert forall|i: int| 0 <= i < s.len() implies s[i] == (zeros(z + 1) + s.skip((z + 1) as int))[i] by {
                if i > 0 {
                    assert(s[i] == t[i - 1]);
                }
            }
        }
    } else {
        assert(s.skip(0) =~= s);
        assert(s =~= zeros(0) + s);
    }
}

/// Counting the leading zeros of zeros followed by `t`.
pub proof fn lemma_leading_zeros_prefix(k: nat, t: Seq<u8>)
    ensures
        leading_zeros(zeros(k) + t) == k + leading_zeros(t),
    decreases k,
{
    if k > 0 {
        let km: nat = (k - 1) as nat;
        assert((zeros(k) + t).drop_first() =~= zeros(km) + t);
        assert((zeros(k) + t)[0] == 0);
        lemma_leading_zeros_prefix(km, t);
    } else {
        assert(zeros(0) + t =~= t);
    }
}

/// Zero digits fit in any width.
pub proof fn lemma_zeros_fit(k: nat, t: Seq<u8>, w: nat)
    requires
        digits_fit(t, w),
    ensures
        digits_fit(zeros(k) + t, w),
{
    lemma_pow2_pos(w);
    assert forall|i: int| 0 <= i < (zeros(k) + t).len() implies (#[trigger] (zeros(k) + t)[i] as nat)
        < pow2(w) by {
        if i >= k {
            assert((zeros(k) + t)[i] == t[i - k]);
        }
    }
}

/// Re-basing keeps digits within the target width, and re-basing back
/// restores the original digits.
pub proof fn lemma_rebase_roundtrip(x: Seq<u8>, a: nat, b: nat)
    requires
        1 <= a <= 8,
        1 <= b <= 8,
        digits_fit(x, a),
    ensures
        digits_fit(rebase(x, a, b), b),
        leading_zeros(rebase(x, a, b)) == leading_zeros(x),
        be_value(rebase(x, a, b), b) == be_value(x, a),
        rebase(rebase(x, a, b), b, a) == x,
{
    let z = leading_zeros(x);
    lemma_leading_zeros_split(x);
    let r = x.skip(z as int);
    lemma_be_value_zeros(z, r, a);
    let n = be_value(x, a);
    lemma_be_digits(n, b);
    let d = be_digits(n, b);
    let y = rebase(x, a, b);
    assert(y == zeros(z) + d);
    lemma_zeros_fit(z, d, b);
    lemma_leading_zeros_prefix(z, d);
    assert(leading_zeros(d) == 0);
    lemma_be_value_zeros(z, d, b);
    assert(digits_fit(r, a)) by {
        assert forall|i: int| 0 <= i < r.len() implies (#[trigger] r[i] as nat) < pow2(a) by {
            assert(r[i] == x[i + z]);
        }
    }
    lemma_be_digits_unique(r, a);
}

/// Re-basing bytes into 5-bit digits never shortens them.
pub proof fn lemma_rebase_8_5_len(x: Seq<u8>)
    requires
        digits_fit(x, 8),
    ensures
        rebase(x, 8, 5).len() >= x.len(),
{
    let z = leading_zeros(x);
    lemma_leading_zeros_split(x);
    let r = x.skip(z as int);
    let m = r.len();
    if m > 0 {
        lemma_be_value_zeros(z, r, 8);
        let n = be_value(x, 8);
        lemma_be_value_lower(r, 8);
        lemma_be_digits(n, 5);
        let d = be_digits(n, 5);
        lemma_be_value_bound(d, 5);
        let l = d.len();
        let lo: nat = (8 * (m - 1)) as nat;
        if 5 * l <= lo {
            if 5 * l < lo {
                lemma_pow2_strictly_increases(5 * l, lo);
            }
            assert(false);
        }
        assert(l >= m);
    }
}

/// Pushing a least significant digit `d` onto little-endian digits adds `d`
/// at the weight of its position.
pub proof fn lemma_push_low_digit(digits: Seq<u8>, d: u8, w: nat)
    ensures
        be_value(digits.push(d).reverse(), w) == d as nat * pow2(w * digits.len())
            + be_value(digits.reverse(), w),
{
    assert(digits.push(d).reverse() =~= seq![d] + digits.reverse());
    lemma_be_value_prepend(d, digits.reverse(), w);
}

/// Zero digits at the most significant end of little-endian digits do not
/// change the value.
pub proof fn lemma_high_zeros(digits: Seq<u8>, k: nat, w: nat)
    ensures
        be_value((digits + zeros(k)).reverse(), w) == be_value(digits.reverse(), w),
{
    assert((digits + zeros(k)).reverse() =~= zeros(k) + digits.reverse());
    lemma_be_value_zeros(k, digits.reverse(), w);
}

/// A prefix of `j` zero digits followed by the end or a non-zero digit is
/// exactly the leading zeros.
pub proof fn lemma_leading_zeros_count(s: Seq<u8>, j: nat)
    requires
        j <= s.len(),
        forall|k: int| 0 <= k < j ==> s[k] == 0,
        j == s.len() || s[j as int] != 0,
    ensures
        leading_zeros(s) == j,
    decreases j,
{
    if j > 0 {
        let t = s.drop_first();
        assert forall|k: int| 0 <= k < j - 1 implies t[k] == 0 by {
            assert(t[k] == s[k + 1]);
        }
        if j < s.len() {
            assert(t[j - 1] == s[j as int]);
        }
        lemma_leading_zeros_count(t, (j - 1) as nat);
    }
}

/// The c32 symbols are ASCII, stand for their own digit, and only digit zero
/// is written `'0'`.
pub proof fn lemma_c32_char(d: int)
    requires
        0 <= d < 32,
    ensures
        c32_alphabet().contains(c32_char(d)),
        c32_digit(c32_char(d)) == d,
        is_ascii_char(c32_char(d)),
        (c32_char(d) == '0') <==> (d == 0),
{
    let c = c32_char(d);
    assert(c32_alphabet()[d] == c);
    let i = c32_alphabet().index_of(c);
    assert(0 <= i < 32 && c32_char(i) == c);
}

/// A character in the c32 alphabet is the symbol of its digit.
pub proof fn lemma_c32_symbol(c: char)
    requires
        c32_alphabet().contains(c),
    ensures
        c32_digit(c) < 32,
        c32_char(c32_digit(c) as int) == c,
        is_ascii_char(c),
{
    let i = choose|i: int| 0 <= i < 32 && c32_alphabet()[i] == c;
    lemma_c32_char(i);
}

/// Digits of at most five bits written as c32 symbols read back as the same
/// digits.
pub proof fn lemma_c32_text_digits(digits: Seq<u8>)
    requires
        digits_fit(digits, 5),
    ensures
        is_c32_text(c32_text(digits)),
        c32_digits(c32_text(digits)) == digits,
{
    lemma2_to64();
    let t = c32_text(digits);
    assert forall|i: int| 0 <= i < t.len() implies c32_alphabet().contains(#[trigger] t[i]) by {
        assert((digits[i] as nat) < pow2(5));
        lemma_c32_char(digits[i] as int);
    }
    assert forall|i: int| 0 <= i < digits.len() implies c32_digits(t)[i] == digits[i] by {
        assert((digits[i] as nat) < pow2(5));
        lemma_c32_char(digits[i] as int);
    }
    assert(c32_digits(t) =~= digits);
}

/// c32 text is the c32 symbols of its digits, which fit in five bits.
pub proof fn lemma_c32_digits_text(s: Seq<char>)
    requires
        is_c32_text(s),
    ensures
        digits_fit(c32_digits(s), 5),
        c32_text(c32_digits(s)) == s,
{
    lemma2_to64();
    let d = c32_digits(s);
    assert forall|i: int| 0 <= i < d.len() implies (#[trigger] d[i] as nat) < pow2(5) by {
        lemma_c32_symbol(s[i]);
    }
    assert forall|i: int| 0 <= i < s.len() implies c32_text(d)[i] == s[i] by {
        lemma_c32_symbol(s[i]);
    }
    assert(c32_text(d) =~= s);
}

/// A single digit writes itself.
pub proof fn lemma_be_value_single(d: u8, w: nat)
    ensures
        be_value(seq![d], w) == d as nat,
{
    let s = seq![d];
    assert(s.drop_last() =~= Seq::<u8>::empty());
    assert(be_value(s.drop_last(), w) == 0);
    let p = pow2(w);
    assert(0 * p == 0) by (nonlinear_arith);
}

/// A single 5-bit digit re-based into bytes is the same single digit.
pub proof fn lemma_rebase_single(d: u8)
    requires
        d < 32,
    ensures
        rebase(seq![d], 5, 8) == seq![d],
{
    lemma2_to64();
    let s = seq![d];
    lemma_be_value_single(d, 5);
    lemma_be_value_single(d, 8);
    if d == 0 {
        assert(s.drop_first() =~= Seq::<u8>::empty());
        assert(leading_zeros(s.drop_first()) == 0);
        assert(leading_zeros(s) == 1);
        assert(rebase(s, 5, 8) =~= s);
    } else {
        assert(leading_zeros(s) == 0);
        assert(digits_fit(s, 8));
        lemma_be_digits_unique(s, 8);
        assert(rebase(s, 5, 8) =~= s);
    }
}

/// Every byte fits in eight bits.
pub proof fn lemma_bytes_fit(bytes: Seq<u8>)
    ensures
        digits_fit(bytes, 8),
{
    lemma2_to64();
}

/// Decoding the c32 text of a byte string gives back the byte string, and that
/// text holds c32 symbols only.
pub proof fn law_c32_decode_encode(bytes: Seq<u8>)
    ensures
        is_c32_text(c32_encode_spec(bytes)),
        c32_decode_spec(c32_encode_spec(bytes)) == bytes,
{
    lemma_bytes_fit(bytes);
    lemma_rebase_roundtrip(bytes, 8, 5);
    lemma_c32_text_digits(rebase(bytes, 8, 5));
}

/// Encoding the bytes of c32 text gives back the text.
pub proof fn law_c32_encode_decode(text: Seq<char>)
    requires
        is_c32_text(text),
    ensures
        c32_encode_spec(c32_decode_spec(text)) == text,
{
    lemma_c32_digits_text(text);
    lemma_rebase_roundtrip(c32_digits(text), 5, 8);
}

/// The c32 text of a byte string is ASCII and at least as long as the bytes.
pub proof fn law_c32_encode_ascii_len(bytes: Seq<u8>)
    ensures
        is_ascii_chars(c32_encode_spec(bytes)),
        c32_encode_spec(bytes).len() >= bytes.len(),
{
    lemma_bytes_fit(bytes);
    lemma_rebase_8_5_len(bytes);
    law_c32_decode_encode(bytes);
    let t = c32_encode_spec(bytes);
    assert forall|i: int| 0 <= i < t.len() implies '\0' <= #[trigger] t[i] <= '\u{7f}' by {
        lemma_c32_symbol(t[i]);
    }
}

/// Reading c32check text written for a version below 32 and non-empty data
/// gives back the version and the data.
pub proof fn law_c32check_roundtrip(version: u8, data: Seq<u8>)
    requires
        version < 32,
        data.len() >= 1,
    ensures
        c32check_decode_spec(c32check_encode_spec(version, data)) == Ok::<(u8, Seq<u8>), Error>(
            (version, data),
        ),
{
    let checksum = checksum_spec(seq![version] + data);
    let payload = data + checksum;
    let body = c32_encode_spec(payload);
    let text = c32check_encode_spec(version, data);
    assert(checksum.len() == 4);
    law_c32_decode_encode(payload);
    law_c32_encode_ascii_len(payload);
    lemma_c32_char(version as int);
    assert(text.skip(1) =~= body);
    assert(text[0] == c32_char(version as int));
    assert(is_c32_text(text)) by {
        assert forall|k: int| 0 <= k < text.len() implies c32_alphabet().contains(#[trigger] text[k]) by {
            if k > 0 {
                assert(text[k] == body[k - 1]);
            }
        }
    }
    assert(payload.take(payload.len() - 4) =~= data);
    assert(payload.skip(payload.len() - 4) =~= checksum);
}

/// Reading a c32 address written for a version below 32 and non-empty data
/// gives back the version and the data: the address is ASCII (one byte per
/// character), longer than five bytes, and its text after the leading `'S'`
/// is c32check text of the version and the data.
pub proof fn law_c32_address_roundtrip(version: u8, data: Seq<u8>)
    requires
        version < 32,
        data.len() >= 1,
    ensures
        ({
            let address = seq!['S'] + c32check_encode_spec(version, data);
            &&& is_ascii_chars(address)
            &&& encode_utf8(address).len() == address.len()
            &&& address.len() > 5
            &&& c32check_decode_spec(address.skip(1)) == Ok::<(u8, Seq<u8>), Error>(
                (version, data),
            )
        }),
{
    let checksum = checksum_spec(seq![version] + data);
    let payload = data + checksum;
    let body = c32_encode_spec(payload);
    let text = c32check_encode_spec(version, data);
    let address = seq!['S'] + text;
    assert(checksum.len() == 4);
    law_c32_encode_ascii_len(payload);
    law_c32check_roundtrip(version, data);
    lemma_c32_char(version as int);
    assert(address.skip(1) =~= text);
    assert forall|k: int| 0 <= k < address.len() implies '\0' <= #[trigger] address[k] <= '\u{7f}' by {
        if k >= 2 {
            assert(address[k] == body[k - 2]);
        }
    }
    is_ascii_chars_encode_utf8(address);
}

} // verus!
