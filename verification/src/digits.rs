//! Decimal digit strings: the lexical ground of the wire format.
//!
//! Every length prefix, array count and integer body is a run of ASCII
//! digits, optionally signed. This module gives the mathematical meaning of
//! such runs ([`digits_value`], [`int_text_value`]), the canonical rendering
//! of numbers ([`dec_digits`], [`i64_dec_text`]) and verified executable
//! conversions in both directions.

use vstd::prelude::*;
use vstd::slice::slice_subrange;

use crate::error::Error;

verus! {

/// The byte `0`.
pub const BYTE_0: u8 = 48;

/// The byte `1`.
pub const BYTE_1: u8 = 49;

/// The byte `9`.
pub const BYTE_9: u8 = 57;

/// The byte `+`.
pub const BYTE_PLUS: u8 = 43;

/// The byte `-`.
pub const BYTE_MINUS: u8 = 45;

/// The byte `.`.
pub const BYTE_DOT: u8 = 46;

/// The byte `:`.
pub const BYTE_COLON: u8 = 58;

/// The byte `;`.
pub const BYTE_SEMI: u8 = 59;

/// The byte `"`.
pub const BYTE_QUOTE: u8 = 34;

/// The byte `{`.
pub const BYTE_LBRACE: u8 = 123;

/// The byte `}`.
pub const BYTE_RBRACE: u8 = 125;

/// The type tag `N` of the null literal.
pub const TAG_NULL: u8 = 78;

/// The type tag `b` of booleans.
pub const TAG_BOOL: u8 = 98;

/// The type tag `i` of integers.
pub const TAG_INT: u8 = 105;

/// The type tag `d` of floats.
pub const TAG_FLOAT: u8 = 100;

/// The type tag `s` of byte strings.
pub const TAG_STR: u8 = 115;

/// The type tag `a` of arrays.
pub const TAG_ARRAY: u8 = 97;

/// The type tag `O` of objects, which this codec rejects.
pub const TAG_OBJECT: u8 = 79;

/// An ASCII decimal digit `0`..=`9`.
pub open spec fn is_digit(b: u8) -> bool {
    BYTE_0 <= b && b <= BYTE_9
}

/// Numeric value of one ASCII digit.
pub open spec fn digit_val(b: u8) -> int {
    b - BYTE_0
}

/// Every byte of `s` is an ASCII digit.
pub open spec fn all_digits(s: Seq<u8>) -> bool {
    forall|i: int| 0 <= i < s.len() ==> is_digit(#[trigger] s[i])
}

/// Value of a digit string read from the left; `digits_value(seq![b'4', b'2']) == 42`.
pub open spec fn digits_value(s: Seq<u8>) -> int
    decreases s.len(),
{
    if s.len() == 0 {
        0
    } else {
        digits_value(s.drop_last()) * 10 + digit_val(s.last())
    }
}

/// Canonical decimal rendering of a natural number, most significant digit
/// first, without leading zeros (`dec_digits(0) == seq![BYTE_0]`).
pub open spec fn dec_digits(n: nat) -> Seq<u8>
    decreases n,
{
    if n < 10 {
        seq![(n + BYTE_0) as u8]
    } else {
        dec_digits(n / 10).push(((n % 10) + BYTE_0) as u8)
    }
}

/// Canonical text of a signed 64-bit integer: `-` for negative values,
/// then the decimal digits of the magnitude.
pub open spec fn i64_dec_text(n: int) -> Seq<u8> {
    if n < 0 {
        seq![BYTE_MINUS] + dec_digits((-n) as nat)
    } else {
        dec_digits(n as nat)
    }
}

/// `s` is a signed integer literal: an optional `+` or `-` sign followed by
/// at least one digit, and nothing else.
pub open spec fn int_text_ok(s: Seq<u8>) -> bool {
    if s.len() > 0 && (s[0] == BYTE_PLUS || s[0] == BYTE_MINUS) {
        s.len() > 1 && all_digits(s.skip(1))
    } else {
        s.len() > 0 && all_digits(s)
    }
}

/// Value of a signed integer literal.
pub open spec fn int_text_value(s: Seq<u8>) -> int {
    if s.len() > 0 && s[0] == BYTE_MINUS {
        -digits_value(s.skip(1))
    } else if s.len() > 0 && s[0] == BYTE_PLUS {
        digits_value(s.skip(1))
    } else {
        digits_value(s)
    }
}

/// Length of the maximal digit run at the head of `s`; the first byte a
/// lexer collecting digits would stop at.
pub open spec fn digit_run_len(s: Seq<u8>) -> nat
    decreases s.len(),
{
    if s.len() == 0 || !is_digit(s[0]) {
        0
    } else {
        (1 + digit_run_len(s.skip(1))) as nat
    }
}

/// The digit run consists of digits.
pub proof fn lemma_digit_run_is_digits(s: Seq<u8>)
    ensures
        all_digits(s.take(digit_run_len(s) as int)),
    decreases s.len(),
{
    if s.len() > 0 && is_digit(s[0]) {
        lemma_digit_run_is_digits(s.skip(1));
        lemma_digit_run_le_len(s.skip(1));
        let k = digit_run_len(s) as int;
        assert(1 <= k <= s.len());
        assert(forall|i: int|
            1 <= i < k ==> #[trigger] s.take(k)[i] == s.skip(1).take(k - 1)[i - 1]);
        assert(s.take(k)[0] == s[0]);
        assert(all_digits(s.take(k)));
    }
}

/// The digit run never reaches past the end of the input.
pub proof fn lemma_digit_run_le_len(s: Seq<u8>)
    ensures
        digit_run_len(s) <= s.len(),
    decreases s.len(),
{
    if s.len() > 0 && is_digit(s[0]) {
        lemma_digit_run_le_len(s.skip(1));
    }
}

/// The digit run is the unique prefix made of digits that is ended by the
/// end of input or a non-digit.
pub proof fn lemma_digit_run_characterization(s: Seq<u8>, k: int)
    requires
        0 <= k <= s.len(),
        all_digits(s.take(k)),
        k == s.len() || !is_digit(s[k]),
    ensures
        k == digit_run_len(s),
    decreases s.len(),
{
    if s.len() == 0 {
    } else if !is_digit(s[0]) {
        assert(s.take(k).len() == k);
        if k > 0 {
            assert(is_digit(s.take(k)[0]));
        }
    } else {
        assert(is_digit(s.take(k)[0]) ==> is_digit(s[0]));
        if k == 0 {
            assert(is_digit(s[0]) && !is_digit(s[k]));
        } else {
            let t = s.skip(1);
            assert(all_digits(t.take(k - 1))) by {
                assert(forall|i: int|
                    0 <= i < k - 1 ==> #[trigger] t.take(k - 1)[i] == s.take(k)[i + 1]);
            }
            assert(k - 1 == t.len() || !is_digit(t[k - 1]));
            lemma_digit_run_characterization(t, k - 1);
        }
    }
}

/// A digit string's value does not shrink when more digits are appended.
pub proof fn lemma_digits_value_monotone(s: Seq<u8>, k: int)
    requires
        0 <= k <= s.len(),
        all_digits(s),
    ensures
        0 <= digits_value(s.take(k)),
        digits_value(s.take(k)) <= digits_value(s),
    decreases s.len() - k,
{
    assert(all_digits(s.take(k))) by {
        assert(forall|i: int| 0 <= i < k ==> #[trigger] s.take(k)[i] == s[i]);
    }
    lemma_digits_value_nonneg(s.take(k));
    if k == s.len() {
        assert(s.take(k) =~= s);
    } else {
        assert(s.take(k + 1).drop_last() =~= s.take(k));
        assert(s.take(k + 1).last() == s[k]);
        assert(digits_value(s.take(k + 1))
            == digits_value(s.take(k)) * 10 + digit_val(s[k]));
        assert(digits_value(s.take(k)) <= digits_value(s.take(k)) * 10);
        lemma_digits_value_monotone(s, k + 1);
    }
}

/// The value of a digit string is never negative.
pub proof fn lemma_digits_value_nonneg(s: Seq<u8>)
    requires
        all_digits(s),
    ensures
        digits_value(s) >= 0,
    decreases s.len(),
{
    if s.len() > 0 {
        assert(all_digits(s.drop_last())) by {
            assert(forall|i: int| 0 <= i < s.len() - 1 ==> #[trigger] s.drop_last()[i] == s[i]);
        }
        lemma_digits_value_nonneg(s.drop_last());
        assert(digit_val(s.last()) >= 0);
        assert(digits_value(s.drop_last()) * 10 >= 0);
    }
}

/// The canonical rendering is made of digits, is never empty, and starts
/// with `0` only for the number zero.
pub proof fn lemma_dec_digits_shape(n: nat)
    ensures
        dec_digits(n).len() >= 1,
        all_digits(dec_digits(n)),
        n > 0 ==> dec_digits(n)[0] != BYTE_0,
        n < 10 ==> dec_digits(n).len() == 1,
        n >= 10 ==> dec_digits(n).len() >= 2,
    decreases n,
{
    if n >= 10 {
        lemma_dec_digits_shape(n / 10);
        let d = dec_digits(n / 10);
        assert(forall|i: int| 0 <= i < d.len() ==> is_digit(#[trigger] d.push(((n % 10) + BYTE_0) as u8)[i]));
    }
}

/// Rendering a number and reading the digits back yields the number.
pub proof fn lemma_digits_value_of_dec(n: nat)
    ensures
        digits_value(dec_digits(n)) == n,
    decreases n,
{
    if n < 10 {
        let s = dec_digits(n);
        assert(s.len() == 1);
        assert(s.last() == (n + BYTE_0) as u8);
        assert(digit_val(s.last()) == n);
        assert(s.drop_last() =~= Seq::<u8>::empty());
        assert(digits_value(s) == digits_value(s.drop_last()) * 10 + digit_val(s.last()));
    } else {
        lemma_digits_value_of_dec(n / 10);
        let s = dec_digits(n);
        assert(s.drop_last() =~= dec_digits(n / 10));
        assert(s.last() == ((n % 10) + BYTE_0) as u8);
        assert(digit_val(s.last()) == n % 10);
        vstd::arithmetic::div_mod::lemma_fundamental_div_mod(n as int, 10);
        assert(digits_value(s) == (n / 10) * 10 + (n % 10));
    }
}

/// The canonical signed text of a representable integer is a well-shaped
/// literal and reads back as the integer itself.
pub proof fn lemma_i64_text_roundtrip(n: int)
    requires
        i64::MIN <= n <= i64::MAX,
    ensures
        int_text_ok(i64_dec_text(n)),
        int_text_value(i64_dec_text(n)) == n,
{
    if n < 0 {
        let d = dec_digits((-n) as nat);
        lemma_dec_digits_shape((-n) as nat);
        lemma_digits_value_of_dec((-n) as nat);
        assert(i64_dec_text(n) == seq![BYTE_MINUS] + d);
        assert((seq![BYTE_MINUS] + d)[0] == BYTE_MINUS);
        assert((seq![BYTE_MINUS] + d).skip(1) =~= d);
    } else {
        let d = dec_digits(n as nat);
        lemma_dec_digits_shape(n as nat);
        lemma_digits_value_of_dec(n as nat);
        assert(is_digit(d[0]));
    }
}

/// Reads a run of ASCII digits as an unsigned 64-bit number.
///
/// Succeeds exactly on non-empty all-digit inputs whose value fits in
/// `u64`; anything else is `NotAValidNumber`, mirroring a failed integer
/// parse of the collected text.
pub fn parse_bytes(digits: &[u8]) -> (r: Result<u64, Error>)
    ensures
        match r {
            Ok(v) => digits@.len() >= 1 && all_digits(digits@) && v == digits_value(digits@),
            Err(e) => e == Error::NotAValidNumber
                && !(digits@.len() >= 1 && all_digits(digits@)
                    && digits_value(digits@) <= u64::MAX),
        },
{
    if digits.len() == 0 {
        return Err(Error::NotAValidNumber);
    }
    let mut acc: u64 = 0;
    let mut i: usize = 0;
    while i < digits.len()
        invariant
            0 <= i <= digits@.len(),
            all_digits(digits@.take(i as int)),
            acc == digits_value(digits@.take(i as int)),
        decreases digits@.len() - i,
    {
        let b = digits[i];
        if b < BYTE_0 || b > BYTE_9 {
            return Err(Error::NotAValidNumber);
        }
        let d: u64 = (b - BYTE_0) as u64;
        proof {
            assert(digits@.take(i + 1).drop_last() =~= digits@.take(i as int));
            assert(digits@.take(i + 1).last() == digits@[i as int]);
            assert(digits_value(digits@.take(i + 1)) == acc * 10 + d);
        }
        if acc > (u64::MAX - d) / 10 {
            proof {
                assert(acc * 10 + d > u64::MAX) by (nonlinear_arith)
                    requires
                        acc > (u64::MAX - d) / 10,
                        0 <= d <= 9,
                        acc >= 0,
                {}
                if all_digits(digits@) {
                    lemma_digits_value_monotone(digits@, i + 1);
                }
            }
            return Err(Error::NotAValidNumber);
        }
        proof {
            assert(acc * 10 + d <= u64::MAX) by (nonlinear_arith)
                requires
                    0 <= acc,
                    0 <= d <= 9,
                    acc <= (u64::MAX - d) / 10,
            {}
        }
        acc = acc * 10 + d;
        i = i + 1;
    }
    proof {
        assert(digits@.take(digits@.len() as int) =~= digits@);
    }
    Ok(acc)
}

/// Reads a signed integer literal (optional sign, then digits) as an `i64`.
///
/// Succeeds exactly on well-shaped literals whose value is representable;
/// everything else is `NotAValidNumber`.
pub fn parse_int_bytes(buf: &[u8]) -> (r: Result<i64, Error>)
    ensures
        match r {
            Ok(v) => int_text_ok(buf@) && v == int_text_value(buf@),
            Err(e) => e == Error::NotAValidNumber
                && !(int_text_ok(buf@)
                    && i64::MIN <= int_text_value(buf@) <= i64::MAX),
        },
{
    if buf.len() == 0 {
        return Err(Error::NotAValidNumber);
    }
    let first = buf[0];
    let neg = first == BYTE_MINUS;
    let signed = neg || first == BYTE_PLUS;
    let digits: &[u8] = if signed {
        slice_subrange(buf, 1, buf.len())
    } else {
        buf
    };
    proof {
        if signed {
            assert(digits@ =~= buf@.skip(1));
        }
    }
    let mag = match parse_bytes(digits) {
        Ok(m) => m,
        Err(e) => {
            proof {
                if int_text_ok(buf@) && i64::MIN <= int_text_value(buf@)
                    && int_text_value(buf@) <= i64::MAX {
                    assert(false);
                }
            }
            return Err(e);
        },
    };
    if neg {
        if mag <= i64::MAX as u64 {
            Ok(-(mag as i64))
        } else if mag == i64::MAX as u64 + 1 {
            Ok(i64::MIN)
        } else {
            Err(Error::NotAValidNumber)
        }
    } else {
        if mag <= i64::MAX as u64 {
            Ok(mag as i64)
        } else {
            Err(Error::NotAValidNumber)
        }
    }
}

/// Renders a `u64` as its canonical decimal digits.
pub fn u64_to_digits(n: u64) -> (r: Vec<u8>)
    ensures
        r@ == dec_digits(n as nat),
    decreases n,
{
    if n < 10 {
        let mut v: Vec<u8> = Vec::new();
        v.push((n as u8) + BYTE_0);
        proof {
            assert(v@ =~= dec_digits(n as nat));
        }
        v
    } else {
        let mut v = u64_to_digits(n / 10);
        v.push(((n % 10) as u8) + BYTE_0);
        v
    }
}

/// Renders an `i64` as its canonical signed decimal text.
pub fn i64_to_text(n: i64) -> (r: Vec<u8>)
    ensures
        r@ == i64_dec_text(n as int),
{
    if n >= 0 {
        u64_to_digits(n as u64)
    } else {
        let mag: u64 = if n == i64::MIN {
            i64::MAX as u64 + 1
        } else {
            (-n) as u64
        };
        let digits = u64_to_digits(mag);
        let mut v: Vec<u8> = Vec::new();
        v.push(BYTE_MINUS);
        let mut i: usize = 0;
        while i < digits.len()
            invariant
                0 <= i <= digits@.len(),
                v@ == seq![BYTE_MINUS] + digits@.take(i as int),
            decreases digits@.len() - i,
        {
            let b = digits[i];
            v.push(b);
            proof {
                assert(v@ =~= seq![BYTE_MINUS] + digits@.take(i + 1));
            }
            i = i + 1;
        }
        proof {
            assert(digits@.take(digits@.len() as int) =~= digits@);
        }
        v
    }
}

} // verus!
