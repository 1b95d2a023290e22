//! Deserialization: from wire bytes to [`PhpValue`]s.
//!
//! [`PhpDeserializer`] dispatches on a one-byte type tag and recursively
//! builds values, driving [`ArraySequence`] and [`ArrayMapping`] cursors
//! through the two array kinds. [`from_bytes`] is the entry point;
//! [`deserialize_unordered_array`] is the one place where out-of-order or
//! sparse numeric keys are accepted.
//!
//! The central guarantee: whenever the input begins with the canonical
//! encoding of a well-formed value, the decoder returns exactly that value
//! and consumes exactly its encoding.

use vstd::prelude::*;
use vstd::slice::slice_to_vec;

use crate::buffer::{sv_as_slice, sv_bytes, sv_new};
use crate::digits::{
    all_digits, digit_run_len, dec_digits, int_text_ok, int_text_value, is_digit,
    lemma_dec_digits_shape, lemma_digit_run_characterization, lemma_digit_run_le_len,
    lemma_digits_value_of_dec, lemma_i64_text_roundtrip, parse_bytes, parse_int_bytes, BYTE_MINUS,
    BYTE_DOT, BYTE_PLUS, BYTE_SEMI,
};
use crate::error::Error;
use crate::reader::Lookahead1;
use crate::value::{
    encoding, float_model, float_tail, int_tail, key_encoding, map_frame, map_value_frame,
    seq_frame, str_encoding, value_model, wf_float, wf_value, FloatLit, PhpValue, SpecFloat,
    SpecValue,
};

verus! {

/// PHP deserializer.
///
/// Deserializes the format used by PHP's `serialize` function.
#[derive(Debug)]
pub struct PhpDeserializer {
    input: Lookahead1,
}

impl PhpDeserializer {
    /// The bytes not yet consumed.
    pub closed spec fn remaining(self) -> Seq<u8> {
        self.input.remaining()
    }

    /// Internal soundness of the underlying reader.
    pub closed spec fn wf(self) -> bool {
        self.input.wf()
    }

    /// Creates a deserializer over the given bytes.
    pub fn new(input: Vec<u8>) -> (r: PhpDeserializer)
        ensures
            r.wf(),
            r.remaining() == input@,
    {
        PhpDeserializer { input: Lookahead1::new(input) }
    }

    /// Peek at the next unread byte without consuming it.
    pub fn peek(&mut self) -> (r: Result<Option<u8>, Error>)
        requires
            old(self).wf(),
        ensures
            final(self).wf(),
            final(self).remaining() == old(self).remaining(),
            r == Ok::<Option<u8>, Error>(
                if old(self).remaining().len() > 0 {
                    Some(old(self).remaining()[0])
                } else {
                    None
                },
            ),
    {
        self.input.peek()
    }

    /// Reads the tail of an integer after its `i:` tag: an optional sign,
    /// digits, and the terminating `;`, parsed as a 64-bit signed integer.
    pub(crate) fn parse_int_tail(&mut self) -> (r: Result<i64, Error>)
        requires
            old(self).wf(),
        ensures
            final(self).wf(),
            final(self).remaining().len() <= old(self).remaining().len(),
            match r {
                Ok(v) => final(self).remaining().len() < old(self).remaining().len()
                    && exists|t: Seq<u8>|
                    #![trigger int_text_ok(t)]
                    int_text_ok(t) && int_text_value(t) == v && old(self).remaining() == t
                        + seq![BYTE_SEMI] + final(self).remaining(),
                Err(_) => true,
            },
            forall|n: int|
                i64::MIN <= n <= i64::MAX && (#[trigger] int_tail(n)).is_prefix_of(
                    old(self).remaining(),
                ) ==> match r {
                    Ok(v) => v == n && final(self).remaining() == old(self).remaining().skip(
                        int_tail(n).len() as int,
                    ),
                    Err(_) => false,
                },
    {
        let ghost s = old(self).remaining();
        proof {
            old(self).input.lemma_remaining_fits();
            lemma_int_tail_canonical(s);
        }
        let mut buf = sv_new();
        match self.input.collect_sign(&mut buf) {
            Ok(()) => {},
            Err(e) => {
                return Err(e);
            },
        }
        let ghost signed = s.len() > 0 && (s[0] == BYTE_PLUS || s[0] == BYTE_MINUS);
        let ghost s1 = self.remaining();
        match self.input.collect_unsigned(&mut buf) {
            Ok(()) => {},
            Err(e) => {
                proof {
                    assert forall|n: int|
                        !(i64::MIN <= n <= i64::MAX && (#[trigger] int_tail(n)).is_prefix_of(
                            s,
                        )) by {
                        if i64::MIN <= n <= i64::MAX && int_tail(n).is_prefix_of(s) {
                            assert(s1.len() > 0 && is_digit(s1[0]));
                            assert(false);
                        }
                    }
                }
                return Err(e);
            },
        }
        let ghost k = digit_run_len(s1) as int;
        let ghost s2 = self.remaining();
        proof {
            lemma_digit_run_le_len(s1);
        }
        match self.input.expect(BYTE_SEMI) {
            Ok(()) => {},
            Err(e) => {
                proof {
                    assert forall|n: int|
                        !(i64::MIN <= n <= i64::MAX && (#[trigger] int_tail(n)).is_prefix_of(
                            s,
                        )) by {
                        if i64::MIN <= n <= i64::MAX && int_tail(n).is_prefix_of(s) {
                            assert(s2[0] == BYTE_SEMI && s2.len() >= 1);
                        }
                    }
                }
                return Err(e);
            },
        }
        let digits = sv_as_slice(&buf);
        let v = match parse_int_bytes(digits) {
            Ok(v) => v,
            Err(e) => {
                proof {
                    assert forall|n: int|
                        !(i64::MIN <= n <= i64::MAX && (#[trigger] int_tail(n)).is_prefix_of(
                            s,
                        )) by {
                        if i64::MIN <= n <= i64::MAX && int_tail(n).is_prefix_of(s) {
                            lemma_i64_text_roundtrip(n);
                            assert(digits@ =~= crate::digits::i64_dec_text(n));
                            assert(false);
                        }
                    }
                }
                return Err(e);
            },
        };
        proof {
            let t = sv_bytes(buf);
            let fin = self.remaining();
            assert(s2 =~= seq![BYTE_SEMI] + fin);
            if signed {
                assert(t =~= seq![s[0]] + s1.take(k));
                assert(s =~= seq![s[0]] + s1);
                assert(s1 =~= s1.take(k) + s2);
                assert(s =~= t + seq![BYTE_SEMI] + fin);
            } else {
                assert(t =~= s.take(k));
                assert(s =~= s.take(k) + s2);
                assert(s =~= t + seq![BYTE_SEMI] + fin);
            }
            assert(int_text_ok(t));
            assert(fin.len() < s.len());
            assert forall|n: int|
                i64::MIN <= n <= i64::MAX && (#[trigger] int_tail(n)).is_prefix_of(s)
                implies v == n && fin == s.skip(int_tail(n).len() as int) by {
                let mag: nat = if n < 0 {
                    (-n) as nat
                } else {
                    n as nat
                };
                let d = dec_digits(mag);
                lemma_i64_text_roundtrip(n);
                let rest = s.skip(int_tail(n).len() as int);
                if n < 0 {
                    assert(t =~= crate::digits::i64_dec_text(n));
                    assert(s2 == s1.skip(k));
                    assert(s2 == seq![BYTE_SEMI] + rest);
                    assert(fin == s2.skip(1));
                    assert((seq![BYTE_SEMI] + rest).skip(1) =~= rest);
                } else {
                    assert(t =~= crate::digits::i64_dec_text(n));
                    assert(s2 == s.skip(k));
                    assert(s2 == seq![BYTE_SEMI] + rest);
                    assert(fin == s2.skip(1));
                    assert((seq![BYTE_SEMI] + rest).skip(1) =~= rest);
                }
            }
        }
        Ok(v)
    }

    /// Reads a whole integer value `i:<signed digits>;`.
    pub fn parse_i64(&mut self) -> (r: Result<i64, Error>)
        requires
            old(self).wf(),
        ensures
            final(self).wf(),
            final(self).remaining().len() <= old(self).remaining().len(),
            r is Ok ==> final(self).remaining().len() < old(self).remaining().len(),
            forall|n: int|
                i64::MIN <= n <= i64::MAX && (#[trigger] crate::value::encoding(
                    crate::value::SpecValue::Int(n),
                )).is_prefix_of(old(self).remaining()) ==> match r {
                    Ok(v) => v == n && final(self).remaining() == old(self).remaining().skip(
                        crate::value::encoding(crate::value::SpecValue::Int(n)).len() as int,
                    ),
                    Err(_) => false,
                },
    {
        let ghost s = old(self).remaining();
        match self.input.expect(crate::digits::TAG_INT) {
            Ok(()) => {},
            Err(e) => {
                proof {
                    lemma_int_encoding_head(s);
                }
                return Err(e);
            },
        }
        match self.input.expect(crate::digits::BYTE_COLON) {
            Ok(()) => {},
            Err(e) => {
                proof {
                    lemma_int_encoding_head(s);
                }
                return Err(e);
            },
        }
        let ghost s2 = self.remaining();
        let v = match self.parse_int_tail() {
            Ok(v) => v,
            Err(e) => {
                proof {
                    lemma_int_encoding_head(s);
                    assert forall|n: int|
                        !(i64::MIN <= n <= i64::MAX && (#[trigger] crate::value::encoding(
                            crate::value::SpecValue::Int(n),
                        )).is_prefix_of(s)) by {
                        if i64::MIN <= n <= i64::MAX && crate::value::encoding(
                            crate::value::SpecValue::Int(n),
                        ).is_prefix_of(s) {
                            assert(int_tail(n).is_prefix_of(s2));
                            assert(false);
                        }
                    }
                }
                return Err(e);
            },
        };
        proof {
            lemma_int_encoding_head(s);
            let fin = self.remaining();
            assert forall|n: int|
                i64::MIN <= n <= i64::MAX && (#[trigger] crate::value::encoding(
                    crate::value::SpecValue::Int(n),
                )).is_prefix_of(s) implies v == n && fin == s.skip(
                crate::value::encoding(crate::value::SpecValue::Int(n)).len() as int,
            ) by {
                assert(int_tail(n).is_prefix_of(s2));
                assert(fin == s2.skip(int_tail(n).len() as int));
                assert(s2 == s.skip(2));
                assert(fin =~= s.skip(2 + int_tail(n).len() as int));
                assert(crate::value::encoding(crate::value::SpecValue::Int(n)).len() == 2
                    + int_tail(n).len());
            }
        }
        Ok(v)
    }
}

impl PhpDeserializer {
    /// Reads the tail of a float after its `d:` tag: an optional sign, the
    /// integer digits, an optional `.` with the fractional digits, and the
    /// terminating `;`. The decimal literal is kept as it stands; `d:5;`
    /// and `d:5.0;` give different literals carrying the same number.
    pub(crate) fn parse_float_tail(&mut self) -> (r: Result<FloatLit, Error>)
        requires
            old(self).wf(),
        ensures
            final(self).wf(),
            final(self).remaining().len() <= old(self).remaining().len(),
            match r {
                Ok(f) => wf_float(float_model(f)) && final(self).remaining().len() < old(self).remaining().len(),
                Err(_) => true,
            },
            forall|f0: SpecFloat|
                wf_float(f0) && (#[trigger] float_tail(f0)).is_prefix_of(old(self).remaining())
                    ==> match r {
                    Ok(f) => float_model(f) == f0 && final(self).remaining() == old(self).remaining().skip(float_tail(f0).len() as int),
                    Err(_) => false,
                },
    {
        let ghost s = old(self).remaining();
        proof {
            old(self).input.lemma_remaining_fits();
            lemma_float_tail_canonical(s);
        }
        let mut sbuf = sv_new();
        match self.input.collect_sign(&mut sbuf) {
            Ok(()) => {},
            Err(e) => {
                return Err(e);
            },
        }
        let sslice = sv_as_slice(&sbuf);
        let neg = sslice.len() > 0 && sslice[0] == BYTE_MINUS;
        let ghost signed = s.len() > 0 && (s[0] == BYTE_PLUS || s[0] == BYTE_MINUS);
        let ghost s1 = self.remaining();
        let mut ibuf = sv_new();
        match self.input.collect_unsigned(&mut ibuf) {
            Ok(()) => {},
            Err(e) => {
                proof {
                    assert forall|f0: SpecFloat|
                        !(wf_float(f0) && (#[trigger] float_tail(f0)).is_prefix_of(s)) by {
                        if wf_float(f0) && float_tail(f0).is_prefix_of(s) {
                            assert(s1.len() > 0 && is_digit(s1[0]));
                            assert(false);
                        }
                    }
                }
                return Err(e);
            },
        }
        let ghost k1 = digit_run_len(s1) as int;
        let ghost s2 = self.remaining();
        proof {
            lemma_digit_run_le_len(s1);
            crate::digits::lemma_digit_run_is_digits(s1);
        }
        let int_digits = slice_to_vec(sv_as_slice(&ibuf));
        let next = match self.peek() {
            Ok(o) => o,
            Err(e) => {
                return Err(e);
            },
        };
        let frac_digits: Option<Vec<u8>>;
        let ghost mut s3: Seq<u8> = s2;
        let ghost mut k2: int = 0;
        if next == Some(BYTE_DOT) {
            match self.input.expect(BYTE_DOT) {
                Ok(()) => {},
                Err(e) => {
                    return Err(e);
                },
            }
            proof {
                s3 = self.remaining();
            }
            let mut fbuf = sv_new();
            match self.input.collect_unsigned(&mut fbuf) {
                Ok(()) => {},
                Err(e) => {
                    proof {
                        assert forall|f0: SpecFloat|
                            !(wf_float(f0) && (#[trigger] float_tail(f0)).is_prefix_of(s)) by {
                            if wf_float(f0) && float_tail(f0).is_prefix_of(s) {
                                assert(f0.frac_digits is Some);
                                assert(s3.len() > 0 && is_digit(s3[0]));
                                assert(false);
                            }
                        }
                    }
                    return Err(e);
                },
            }
            proof {
                k2 = digit_run_len(s3) as int;
                lemma_digit_run_le_len(s3);
                crate::digits::lemma_digit_run_is_digits(s3);
            }
            frac_digits = Some(slice_to_vec(sv_as_slice(&fbuf)));
        } else {
            frac_digits = None;
        }
        let ghost s4 = self.remaining();
        match self.input.expect(BYTE_SEMI) {
            Ok(()) => {},
            Err(e) => {
                proof {
                    assert forall|f0: SpecFloat|
                        !(wf_float(f0) && (#[trigger] float_tail(f0)).is_prefix_of(s)) by {
                        if wf_float(f0) && float_tail(f0).is_prefix_of(s) {
                            if f0.frac_digits is Some {
                                assert(s2[0] == crate::digits::BYTE_DOT);
                                assert(s4 == s3.skip(k2));
                                assert(s4[0] == BYTE_SEMI && s4.len() >= 1);
                            } else {
                                assert(s2[0] == BYTE_SEMI);
                                assert(s4 == s2);
                                assert(s4[0] == BYTE_SEMI && s4.len() >= 1);
                            }
                            assert(false);
                        }
                    }
                }
                return Err(e);
            },
        }
        let lit = FloatLit { neg, int_digits, frac_digits };
        proof {
            let fin = self.remaining();
            assert(float_model(lit).int_digits == s1.take(k1));
            assert(wf_float(float_model(lit)));
            assert forall|f0: SpecFloat|
                wf_float(f0) && (#[trigger] float_tail(f0)).is_prefix_of(s) implies float_model(
                lit,
            ) == f0 && fin == s.skip(float_tail(f0).len() as int) by {
                let rest = s.skip(float_tail(f0).len() as int);
                assert(f0.neg == neg);
                assert(s1.take(k1) == f0.int_digits);
                match f0.frac_digits {
                    Some(fd) => {
                        assert(s2[0] == crate::digits::BYTE_DOT);
                        assert(s3 == s2.skip(1));
                        assert(s3.take(k2) == fd);
                        assert(s4 == s3.skip(k2));
                        assert(s4 == seq![BYTE_SEMI] + rest);
                        assert(fin == s4.skip(1));
                        assert((seq![BYTE_SEMI] + rest).skip(1) =~= rest);
                        assert(float_model(lit).frac_digits == Some(fd));
                        assert(float_model(lit) =~= f0);
                    },
                    None => {
                        assert(s2[0] == BYTE_SEMI);
                        assert(s2 == seq![BYTE_SEMI] + rest);
                        assert(s4 == s2);
                        assert(fin == s4.skip(1));
                        assert((seq![BYTE_SEMI] + rest).skip(1) =~= rest);
                        assert(float_model(lit) =~= f0);
                    },
                }
            }
        }
        Ok(lit)
    }

    /// Reads a whole byte string value `s:<len>:"<bytes>";`. The bytes are
    /// handed out raw: they are not required to be valid text.
    pub fn parse_string(&mut self) -> (r: Result<Vec<u8>, Error>)
        requires
            old(self).wf(),
        ensures
            final(self).wf(),
            final(self).remaining().len() <= old(self).remaining().len(),
            r is Ok ==> final(self).remaining().len() < old(self).remaining().len(),
            forall|data0: Seq<u8>|
                (#[trigger] str_encoding(data0)).is_prefix_of(old(self).remaining())
                    ==> match r {
                    Ok(v) => v@ == data0 && final(self).remaining() == old(self).remaining().skip(
                        str_encoding(data0).len() as int,
                    ),
                    Err(_) => false,
                },
    {
        let ghost s = old(self).remaining();
        proof {
            lemma_str_encoding_head(s);
        }
        match self.input.expect(crate::digits::TAG_STR) {
            Ok(()) => {},
            Err(e) => {
                return Err(e);
            },
        }
        match self.input.expect(crate::digits::BYTE_COLON) {
            Ok(()) => {},
            Err(e) => {
                return Err(e);
            },
        }
        let ghost s2 = self.remaining();
        let data = match self.input.read_raw_string() {
            Ok(v) => v,
            Err(e) => {
                proof {
                    assert forall|data0: Seq<u8>|
                        !(#[trigger] str_encoding(data0)).is_prefix_of(s) by {
                        if str_encoding(data0).is_prefix_of(s) {
                            assert(crate::value::str_tail(data0).is_prefix_of(s2));
                            assert(false);
                        }
                    }
                }
                return Err(e);
            },
        };
        proof {
            let fin = self.remaining();
            assert(fin.len() < s.len());
            assert forall|data0: Seq<u8>| (#[trigger] str_encoding(data0)).is_prefix_of(s)
                implies data@ == data0 && fin == s.skip(str_encoding(data0).len() as int) by {
                assert(crate::value::str_tail(data0).is_prefix_of(s2));
                assert(fin == s2.skip(crate::value::str_tail(data0).len() as int));
                assert(s2 == s.skip(2));
                assert(fin =~= s.skip(2 + crate::value::str_tail(data0).len() as int));
                assert(str_encoding(data0).len() == 2 + crate::value::str_tail(data0).len());
            }
        }
        Ok(data)
    }

    /// Reads a character, serialized as its 32-bit code point `i:<digits>;`
    /// without a sign; fails with `CharConversionFailed` when the number is
    /// no Unicode scalar value.
    pub fn parse_char(&mut self) -> (r: Result<char, Error>)
        requires
            old(self).wf(),
        ensures
            final(self).wf(),
            final(self).remaining().len() <= old(self).remaining().len(),
            forall|n: int|
                0 <= n <= u32::MAX && (#[trigger] crate::value::encoding(
                    crate::value::SpecValue::Int(n),
                )).is_prefix_of(old(self).remaining()) ==> match r {
                    Ok(c) => is_unicode_scalar(n) && c as u32 == n && final(self).remaining()
                        == old(self).remaining().skip(
                        crate::value::encoding(crate::value::SpecValue::Int(n)).len() as int,
                    ),
                    Err(e) => !is_unicode_scalar(n) && e == Error::CharConversionFailed,
                },
    {
        let ghost s = old(self).remaining();
        proof {
            old(self).input.lemma_remaining_fits();
            lemma_int_encoding_head(s);
            lemma_int_tail_canonical(s.skip(2));
        }
        match self.input.expect(crate::digits::TAG_INT) {
            Ok(()) => {},
            Err(e) => {
                return Err(e);
            },
        }
        match self.input.expect(crate::digits::BYTE_COLON) {
            Ok(()) => {},
            Err(e) => {
                return Err(e);
            },
        }
        let ghost s2 = self.remaining();
        proof {
            assert(s.skip(1).skip(1) =~= s.skip(2));
            assert(s2 == s.skip(2));
        }
        let mut buf = sv_new();
        match self.input.collect_unsigned(&mut buf) {
            Ok(()) => {},
            Err(e) => {
                proof {
                    lemma_char_canonical_contra(s, s2);
                }
                return Err(e);
            },
        }
        let ghost k = digit_run_len(s2) as int;
        let ghost s3 = self.remaining();
        proof {
            lemma_digit_run_le_len(s2);
        }
        match self.input.expect(BYTE_SEMI) {
            Ok(()) => {},
            Err(e) => {
                proof {
                    assert forall|n: int|
                        !(0 <= n <= u32::MAX && (#[trigger] crate::value::encoding(
                            crate::value::SpecValue::Int(n),
                        )).is_prefix_of(s)) by {
                        if 0 <= n <= u32::MAX && crate::value::encoding(
                            crate::value::SpecValue::Int(n),
                        ).is_prefix_of(s) {
                            assert(int_tail(n).is_prefix_of(s2));
                            assert(s3[0] == BYTE_SEMI && s3.len() >= 1);
                            assert(false);
                        }
                    }
                }
                return Err(e);
            },
        }
        let digits = sv_as_slice(&buf);
        let code64 = match parse_bytes(digits) {
            Ok(v) => v,
            Err(e) => {
                proof {
                    assert(Seq::<u8>::empty() + s2.take(k) =~= s2.take(k));
                    assert forall|n: int|
                        !(0 <= n <= u32::MAX && (#[trigger] crate::value::encoding(
                            crate::value::SpecValue::Int(n),
                        )).is_prefix_of(s)) by {
                        if 0 <= n <= u32::MAX && crate::value::encoding(
                            crate::value::SpecValue::Int(n),
                        ).is_prefix_of(s) {
                            assert(int_tail(n).is_prefix_of(s2));
                            lemma_dec_digits_shape(n as nat);
                            lemma_digits_value_of_dec(n as nat);
                            assert(digits@ == dec_digits(n as nat));
                            assert(false);
                        }
                    }
                }
                return Err(e);
            },
        };
        if code64 > u32::MAX as u64 {
            proof {
                assert(Seq::<u8>::empty() + s2.take(k) =~= s2.take(k));
                assert forall|n: int|
                    !(0 <= n <= u32::MAX && (#[trigger] crate::value::encoding(
                        crate::value::SpecValue::Int(n),
                    )).is_prefix_of(s)) by {
                    if 0 <= n <= u32::MAX && crate::value::encoding(
                        crate::value::SpecValue::Int(n),
                    ).is_prefix_of(s) {
                        assert(int_tail(n).is_prefix_of(s2));
                        lemma_digits_value_of_dec(n as nat);
                        assert(digits@ == dec_digits(n as nat));
                        assert(false);
                    }
                }
            }
            return Err(Error::NotAValidNumber);
        }
        let code = code64 as u32;
        let c = match char_from_u32(code) {
            Some(c) => c,
            None => {
                proof {
                    assert(Seq::<u8>::empty() + s2.take(k) =~= s2.take(k));
                    assert forall|n: int|
                        0 <= n <= u32::MAX && (#[trigger] crate::value::encoding(
                            crate::value::SpecValue::Int(n),
                        )).is_prefix_of(s) implies !is_unicode_scalar(n) by {
                        assert(int_tail(n).is_prefix_of(s2));
                        lemma_digits_value_of_dec(n as nat);
                        assert(digits@ == dec_digits(n as nat));
                        assert(code == n);
                    }
                }
                return Err(Error::CharConversionFailed);
            },
        };
        proof {
            assert(Seq::<u8>::empty() + s2.take(k) =~= s2.take(k));
            let fin = self.remaining();
            assert forall|n: int|
                0 <= n <= u32::MAX && (#[trigger] crate::value::encoding(
                    crate::value::SpecValue::Int(n),
                )).is_prefix_of(s) implies is_unicode_scalar(n) && c as u32 == n && fin == s.skip(
                crate::value::encoding(crate::value::SpecValue::Int(n)).len() as int,
            ) by {
                assert(int_tail(n).is_prefix_of(s2));
                lemma_digits_value_of_dec(n as nat);
                assert(digits@ == dec_digits(n as nat));
                assert(code == n);
                let rest = s2.skip(int_tail(n).len() as int);
                assert(s3 == s2.skip(k));
                assert(s3 == seq![BYTE_SEMI] + rest);
                assert(fin == s3.skip(1));
                assert((seq![BYTE_SEMI] + rest).skip(1) =~= rest);
                assert(fin == s2.skip(int_tail(n).len() as int));
                assert(fin =~= s.skip(2 + int_tail(n).len() as int));
                assert(crate::value::encoding(crate::value::SpecValue::Int(n)).len() == 2
                    + int_tail(n).len());
            }
        }
        Ok(c)
    }
}

/// A Unicode scalar value: any code point except the surrogate range.
pub open spec fn is_unicode_scalar(n: int) -> bool {
    0 <= n && (n < 0xD800 || (0xE000 <= n && n <= 0x10FFFF))
}

/// Relies on `char::from_u32`: returns a character exactly when the number
/// is a Unicode scalar value, and then one with that code point.
#[verifier::external_body]
fn char_from_u32(v: u32) -> (r: Option<char>)
    ensures
        r is Some <==> is_unicode_scalar(v as int),
        match r {
            Some(c) => c as u32 == v,
            None => true,
        },
{
    char::from_u32(v)
}

/// At a canonical non-negative integer encoding, the digit collector after
/// `i:` cannot fail.
proof fn lemma_char_canonical_contra(s: Seq<u8>, s2: Seq<u8>)
    requires
        s2.len() == 0 || !is_digit(s2[0]),
    ensures
        forall|n: int|
            !(0 <= n <= u32::MAX && (#[trigger] crate::value::encoding(
                crate::value::SpecValue::Int(n),
            )).is_prefix_of(s) && s2 == s.skip(2)),
{
    assert forall|n: int|
        !(0 <= n <= u32::MAX && (#[trigger] crate::value::encoding(
            crate::value::SpecValue::Int(n),
        )).is_prefix_of(s) && s2 == s.skip(2)) by {
        if 0 <= n <= u32::MAX && crate::value::encoding(crate::value::SpecValue::Int(n))
            .is_prefix_of(s) && s2 == s.skip(2) {
            lemma_int_encoding_head(s);
            lemma_int_tail_canonical(s.skip(2));
            assert(int_tail(n).is_prefix_of(s.skip(2)));
            assert(is_digit(s.skip(2)[0]));
            assert(false);
        }
    }
}

/// Decomposes the head of a canonical float tail: sign for negative
/// literals, the integer digit run, then either the dot and the fraction
/// run or directly the terminator.
proof fn lemma_float_tail_canonical(s: Seq<u8>)
    ensures
        forall|f0: SpecFloat|
            wf_float(f0) && (#[trigger] float_tail(f0)).is_prefix_of(s) ==> {
                let s1 = if f0.neg {
                    s.skip(1)
                } else {
                    s
                };
                let s2 = s1.skip(f0.int_digits.len() as int);
                let rest = s.skip(float_tail(f0).len() as int);
                &&& s.len() >= float_tail(f0).len()
                &&& s.len() > 0
                &&& (f0.neg ==> s[0] == BYTE_MINUS)
                &&& (!f0.neg ==> is_digit(s[0]) && s[0] != BYTE_PLUS && s[0] != BYTE_MINUS)
                &&& digit_run_len(s1) == f0.int_digits.len()
                &&& s1.take(f0.int_digits.len() as int) == f0.int_digits
                &&& match f0.frac_digits {
                    Some(fd) => {
                        &&& s2[0] == crate::digits::BYTE_DOT
                        &&& s2.len() >= 2
                        &&& digit_run_len(s2.skip(1)) == fd.len()
                        &&& s2.skip(1).take(fd.len() as int) == fd
                        &&& s2.skip(1).skip(fd.len() as int) == seq![BYTE_SEMI] + rest
                    },
                    None => s2 == seq![BYTE_SEMI] + rest,
                }
            },
{
    assert forall|f0: SpecFloat| wf_float(f0) && (#[trigger] float_tail(f0)).is_prefix_of(s)
        implies {
        let s1 = if f0.neg {
            s.skip(1)
        } else {
            s
        };
        let s2 = s1.skip(f0.int_digits.len() as int);
        let rest = s.skip(float_tail(f0).len() as int);
        &&& s.len() >= float_tail(f0).len()
        &&& s.len() > 0
        &&& (f0.neg ==> s[0] == BYTE_MINUS)
        &&& (!f0.neg ==> is_digit(s[0]) && s[0] != BYTE_PLUS && s[0] != BYTE_MINUS)
        &&& digit_run_len(s1) == f0.int_digits.len()
        &&& s1.take(f0.int_digits.len() as int) == f0.int_digits
        &&& match f0.frac_digits {
            Some(fd) => {
                &&& s2[0] == crate::digits::BYTE_DOT
                &&& s2.len() >= 2
                &&& digit_run_len(s2.skip(1)) == fd.len()
                &&& s2.skip(1).take(fd.len() as int) == fd
                &&& s2.skip(1).skip(fd.len() as int) == seq![BYTE_SEMI] + rest
            },
            None => s2 == seq![BYTE_SEMI] + rest,
        }
    } by {
        let ft = float_tail(f0);
        let rest = s.skip(ft.len() as int);
        let ids = f0.int_digits;
        assert(ft =~= s.take(ft.len() as int));
        assert(s =~= s.take(ft.len() as int) + rest);
        assert(s == ft + rest);
        match f0.frac_digits {
            Some(fd) => {
                if f0.neg {
                    assert(ft =~= (((seq![BYTE_MINUS] + ids) + (seq![crate::digits::BYTE_DOT]
                        + fd)) + seq![BYTE_SEMI]));
                    assert((ft + rest)[0] == BYTE_MINUS);
                    let s1 = s.skip(1);
                    assert(s1 =~= ids + (seq![crate::digits::BYTE_DOT] + fd + seq![BYTE_SEMI]
                        + rest));
                    assert(s1.take(ids.len() as int) =~= ids);
                    let s2 = s1.skip(ids.len() as int);
                    assert(s2 =~= seq![crate::digits::BYTE_DOT] + fd + seq![BYTE_SEMI] + rest);
                    assert(s1[ids.len() as int] == crate::digits::BYTE_DOT);
                    assert(!is_digit(crate::digits::BYTE_DOT));
                    lemma_digit_run_characterization(s1, ids.len() as int);
                    let s3 = s2.skip(1);
                    assert(s3 =~= fd + (seq![BYTE_SEMI] + rest));
                    assert(s3.take(fd.len() as int) =~= fd);
                    assert(s3.skip(fd.len() as int) =~= seq![BYTE_SEMI] + rest);
                    assert(s3[fd.len() as int] == BYTE_SEMI);
                    assert(!is_digit(BYTE_SEMI));
                    lemma_digit_run_characterization(s3, fd.len() as int);
                } else {
                    assert(ft =~= ((ids + (seq![crate::digits::BYTE_DOT] + fd))
                        + seq![BYTE_SEMI]));
                    assert(s =~= ids + (seq![crate::digits::BYTE_DOT] + fd + seq![BYTE_SEMI]
                        + rest));
                    assert(s.take(ids.len() as int) =~= ids);
                    assert(s[0] == ids[0]);
                    let s2 = s.skip(ids.len() as int);
                    assert(s2 =~= seq![crate::digits::BYTE_DOT] + fd + seq![BYTE_SEMI] + rest);
                    assert(s[ids.len() as int] == crate::digits::BYTE_DOT);
                    assert(!is_digit(crate::digits::BYTE_DOT));
                    lemma_digit_run_characterization(s, ids.len() as int);
                    let s3 = s2.skip(1);
                    assert(s3 =~= fd + (seq![BYTE_SEMI] + rest));
                    assert(s3.take(fd.len() as int) =~= fd);
                    assert(s3.skip(fd.len() as int) =~= seq![BYTE_SEMI] + rest);
                    assert(s3[fd.len() as int] == BYTE_SEMI);
                    assert(!is_digit(BYTE_SEMI));
                    lemma_digit_run_characterization(s3, fd.len() as int);
                }
            },
            None => {
                if f0.neg {
                    assert(ft =~= ((seq![BYTE_MINUS] + ids) + seq![BYTE_SEMI]));
                    assert((ft + rest)[0] == BYTE_MINUS);
                    let s1 = s.skip(1);
                    assert(s1 =~= ids + (seq![BYTE_SEMI] + rest));
                    assert(s1.take(ids.len() as int) =~= ids);
                    assert(s1.skip(ids.len() as int) =~= seq![BYTE_SEMI] + rest);
                    assert(s1[ids.len() as int] == BYTE_SEMI);
                    assert(!is_digit(BYTE_SEMI));
                    lemma_digit_run_characterization(s1, ids.len() as int);
                } else {
                    assert(ft =~= ids + seq![BYTE_SEMI]);
                    assert(s =~= ids + (seq![BYTE_SEMI] + rest));
                    assert(s.take(ids.len() as int) =~= ids);
                    assert(s[0] == ids[0]);
                    assert(s.skip(ids.len() as int) =~= seq![BYTE_SEMI] + rest);
                    assert(s[ids.len() as int] == BYTE_SEMI);
                    assert(!is_digit(BYTE_SEMI));
                    lemma_digit_run_characterization(s, ids.len() as int);
                }
            },
        }
    }
}

/// A canonical byte-string encoding opens with `s:`.
proof fn lemma_str_encoding_head(s: Seq<u8>)
    ensures
        forall|data0: Seq<u8>|
            (#[trigger] str_encoding(data0)).is_prefix_of(s) ==> s.len() >= 7 && s[0]
                == crate::digits::TAG_STR && s[1] == crate::digits::BYTE_COLON
                && crate::value::str_tail(data0).is_prefix_of(s.skip(2)) && s.skip(2).skip(
                crate::value::str_tail(data0).len() as int,
            ) == s.skip(str_encoding(data0).len() as int),
{
    assert forall|data0: Seq<u8>| (#[trigger] str_encoding(data0)).is_prefix_of(s)
        implies s.len() >= 7 && s[0] == crate::digits::TAG_STR && s[1]
        == crate::digits::BYTE_COLON && crate::value::str_tail(data0).is_prefix_of(s.skip(2))
        && s.skip(2).skip(crate::value::str_tail(data0).len() as int) == s.skip(
        str_encoding(data0).len() as int,
    ) by {
        let enc = str_encoding(data0);
        let st = crate::value::str_tail(data0);
        crate::digits::lemma_dec_digits_shape(data0.len());
        let rest = s.skip(enc.len() as int);
        assert(enc =~= s.take(enc.len() as int));
        assert(s =~= s.take(enc.len() as int) + rest);
        assert(s == enc + rest);
        assert(enc =~= seq![crate::digits::TAG_STR, crate::digits::BYTE_COLON] + st);
        assert((enc + rest)[0] == crate::digits::TAG_STR);
        assert((enc + rest)[1] == crate::digits::BYTE_COLON);
        assert(s.skip(2) =~= st + rest);
        assert(st =~= s.skip(2).take(st.len() as int));
        assert(s.skip(2).skip(st.len() as int) =~= rest);
    }
}

/// Decomposes the head of a canonical integer tail: the sign is present
/// exactly for negative numbers, and the digit run is the magnitude.
proof fn lemma_int_tail_canonical(s: Seq<u8>)
    ensures
        forall|n: int|
            (#[trigger] int_tail(n)).is_prefix_of(s) ==> {
                let d = dec_digits(if n < 0 {
                    (-n) as nat
                } else {
                    n as nat
                });
                &&& s.len() >= int_tail(n).len()
                &&& s.len() > 0
                &&& (n < 0 ==> s[0] == BYTE_MINUS && seq![BYTE_MINUS].is_prefix_of(s)
                    && digit_run_len(s.skip(1)) == d.len() && s.skip(1).take(d.len() as int) == d
                    && s.skip(1).skip(d.len() as int) == seq![BYTE_SEMI] + s.skip(
                    int_tail(n).len() as int,
                ))
                &&& (n >= 0 ==> is_digit(s[0]) && s[0] != BYTE_PLUS && s[0] != BYTE_MINUS
                    && digit_run_len(s) == d.len() && s.take(d.len() as int) == d && s.skip(
                    d.len() as int,
                ) == seq![BYTE_SEMI] + s.skip(int_tail(n).len() as int))
            },
{
    assert forall|n: int| (#[trigger] int_tail(n)).is_prefix_of(s) implies {
        let d = dec_digits(if n < 0 {
            (-n) as nat
        } else {
            n as nat
        });
        &&& s.len() >= int_tail(n).len()
        &&& s.len() > 0
        &&& (n < 0 ==> s[0] == BYTE_MINUS && seq![BYTE_MINUS].is_prefix_of(s) && digit_run_len(
            s.skip(1),
        ) == d.len() && s.skip(1).take(d.len() as int) == d && s.skip(1).skip(d.len() as int)
            == seq![BYTE_SEMI] + s.skip(int_tail(n).len() as int))
        &&& (n >= 0 ==> is_digit(s[0]) && s[0] != BYTE_PLUS && s[0] != BYTE_MINUS
            && digit_run_len(s) == d.len() && s.take(d.len() as int) == d && s.skip(
            d.len() as int,
        ) == seq![BYTE_SEMI] + s.skip(int_tail(n).len() as int))
    } by {
        let mag: nat = if n < 0 {
            (-n) as nat
        } else {
            n as nat
        };
        let d = dec_digits(mag);
        let it = int_tail(n);
        let rest = s.skip(it.len() as int);
        lemma_dec_digits_shape(mag);
        assert(it =~= s.take(it.len() as int));
        assert(s =~= s.take(it.len() as int) + rest);
        assert(s == it + rest);
        if n < 0 {
            assert(it =~= (seq![BYTE_MINUS] + d) + seq![BYTE_SEMI]);
            assert(((seq![BYTE_MINUS] + d) + seq![BYTE_SEMI] + rest)[0] == BYTE_MINUS);
            let s1 = s.skip(1);
            assert(s1 =~= d + (seq![BYTE_SEMI] + rest));
            assert(s1.take(d.len() as int) =~= d);
            assert(s1.skip(d.len() as int) =~= seq![BYTE_SEMI] + rest);
            assert(all_digits(s1.take(d.len() as int)));
            assert(s1[d.len() as int] == BYTE_SEMI);
            assert(!is_digit(BYTE_SEMI));
            lemma_digit_run_characterization(s1, d.len() as int);
        } else {
            assert(it =~= d + seq![BYTE_SEMI]);
            assert(s.take(d.len() as int) =~= d);
            assert(s.skip(d.len() as int) =~= seq![BYTE_SEMI] + rest);
            assert(all_digits(s.take(d.len() as int)));
            assert(s[0] == d[0]);
            assert(s[d.len() as int] == BYTE_SEMI);
            assert(!is_digit(BYTE_SEMI));
            lemma_digit_run_characterization(s, d.len() as int);
        }
    }
}

/// A canonical integer encoding opens with `i:`.
proof fn lemma_int_encoding_head(s: Seq<u8>)
    ensures
        forall|n: int|
            (#[trigger] crate::value::encoding(crate::value::SpecValue::Int(n))).is_prefix_of(s)
                ==> s.len() >= 4 && s[0] == crate::digits::TAG_INT && s[1]
                == crate::digits::BYTE_COLON && int_tail(n).is_prefix_of(s.skip(2)) && s.skip(
                2,
            ).skip(int_tail(n).len() as int) == s.skip(
                crate::value::encoding(crate::value::SpecValue::Int(n)).len() as int,
            ),
{
    assert forall|n: int|
        (#[trigger] crate::value::encoding(crate::value::SpecValue::Int(n))).is_prefix_of(s)
        implies s.len() >= 4 && s[0] == crate::digits::TAG_INT && s[1]
        == crate::digits::BYTE_COLON && int_tail(n).is_prefix_of(s.skip(2)) && s.skip(2).skip(
        int_tail(n).len() as int,
    ) == s.skip(crate::value::encoding(crate::value::SpecValue::Int(n)).len() as int) by {
        let enc = crate::value::encoding(crate::value::SpecValue::Int(n));
        let mag: nat = if n < 0 {
            (-n) as nat
        } else {
            n as nat
        };
        lemma_dec_digits_shape(mag);
        let rest = s.skip(enc.len() as int);
        assert(enc =~= s.take(enc.len() as int));
        assert(s =~= s.take(enc.len() as int) + rest);
        assert(s == enc + rest);
        assert(enc =~= seq![crate::digits::TAG_INT, crate::digits::BYTE_COLON] + int_tail(n));
        assert((enc + rest)[0] == crate::digits::TAG_INT);
        assert((enc + rest)[1] == crate::digits::BYTE_COLON);
        assert(s.skip(2) =~= int_tail(n) + rest);
        assert(int_tail(n) =~= s.skip(2).take(int_tail(n).len() as int));
        assert(s.skip(2).skip(int_tail(n).len() as int) =~= rest);
    }
}



/// Numeric array sequence helper.
///
/// A cursor over the elements of a sequence array: it checks that keys are
/// exactly the consecutive integers `0..count` in that order, and hands out
/// one decoded element per step.
#[derive(Debug)]
pub struct ArraySequence {
    num_elements: usize,
    index: usize,
}

impl ArraySequence {
    /// The declared element count.
    pub closed spec fn count(self) -> int {
        self.num_elements as int
    }

    /// The index the next element must carry.
    pub closed spec fn pos(self) -> int {
        self.index as int
    }

    /// Creates a cursor expecting `num_elements` elements.
    pub fn new(num_elements: usize) -> (r: ArraySequence)
        ensures
            r.count() == num_elements,
            r.pos() == 0,
    {
        ArraySequence { num_elements, index: 0 }
    }

    /// Reads the next element: its integer key, which must be exactly the
    /// cursor position (else `IndexMismatch`), then its value. Signals the
    /// end of the sequence with `None` once the declared count is reached.
    pub fn next_element(&mut self, de: &mut PhpDeserializer) -> (r: Result<
        Option<PhpValue>,
        Error,
    >)
        requires
            old(de).wf(),
            0 <= old(self).pos() <= old(self).count(),
        ensures
            final(de).wf(),
            final(self).count() == old(self).count(),
            final(de).remaining().len() <= old(de).remaining().len(),
            match r {
                Ok(None) => old(self).pos() == old(self).count() && final(self).pos() == old(self).pos() && final(de).remaining() == old(de).remaining(),
                Ok(Some(v)) => old(self).pos() < old(self).count() && final(self).pos() == old(self).pos() + 1 && wf_value(value_model(v)) && final(de).remaining().len() + 3 <= old(de).remaining().len(),
                Err(_) => true,
            },
            forall|ms: Seq<SpecValue>, rest: Seq<u8>|
                #[trigger] seq_frame(ms, old(self).pos(), rest, old(de).remaining()) && ms.len()
                    == old(self).count() ==> match r {
                    Ok(None) => old(self).pos() == ms.len(),
                    Ok(Some(v)) => old(self).pos() < ms.len() && value_model(v) == ms[old(self).pos()] && seq_frame(ms, old(self).pos() + 1, rest, final(de).remaining()),
                    Err(_) => false,
                },
            forall|j: int|
                0 <= j <= i64::MAX && j <= usize::MAX && j != old(self).pos() && old(self).pos()
                    < old(self).count() && (#[trigger] key_encoding(j as nat)).is_prefix_of(
                    old(de).remaining(),
                ) ==> (r matches Err(e) && e matches Error::IndexMismatch { expected, actual }
                    && expected as int == old(self).pos() && actual as int == j),
        decreases old(de).remaining().len(), 1int,
    {
        if self.index == self.num_elements {
            return Ok(None);
        }
        let ghost s = old(de).remaining();
        let ghost p = self.index as int;
        proof {
            lemma_seq_frame_step(s, p);
        }
        let idx_i64 = match de.parse_i64() {
            Ok(v) => v,
            Err(e) => {
                proof {
                    assert forall|ms: Seq<SpecValue>, rest: Seq<u8>|
                        !(#[trigger] seq_frame(ms, p, rest, s) && ms.len()
                            == old(self).count()) by {
                        if seq_frame(ms, p, rest, s) && ms.len() == old(self).count() {
                            lemma_key_is_int_encoding(p);
                            assert(false);
                        }
                    }
                    assert forall|j: int|
                        !(0 <= j <= i64::MAX && j <= usize::MAX && j != p
                            && (#[trigger] key_encoding(j as nat)).is_prefix_of(s)) by {
                        if 0 <= j <= i64::MAX && j <= usize::MAX && j != p && key_encoding(
                            j as nat,
                        ).is_prefix_of(s) {
                            lemma_key_is_int_encoding(j);
                            assert(false);
                        }
                    }
                }
                return Err(e);
            },
        };
        if idx_i64 < 0 || (idx_i64 as u64) > (usize::MAX as u64) {
            proof {
                assert forall|ms: Seq<SpecValue>, rest: Seq<u8>|
                    !(#[trigger] seq_frame(ms, p, rest, s) && ms.len() == old(self).count()) by {
                    if seq_frame(ms, p, rest, s) && ms.len() == old(self).count() {
                        lemma_key_is_int_encoding(p);
                        assert(false);
                    }
                }
                assert forall|j: int|
                    !(0 <= j <= i64::MAX && j <= usize::MAX && j != p
                        && (#[trigger] key_encoding(j as nat)).is_prefix_of(s)) by {
                    if 0 <= j <= i64::MAX && j <= usize::MAX && j != p && key_encoding(
                        j as nat,
                    ).is_prefix_of(s) {
                        lemma_key_is_int_encoding(j);
                        assert(false);
                    }
                }
            }
            return Err(Error::NotAValidNumber);
        }
        let idx = idx_i64 as usize;
        if idx != self.index {
            proof {
                assert forall|ms: Seq<SpecValue>, rest: Seq<u8>|
                    !(#[trigger] seq_frame(ms, p, rest, s) && ms.len() == old(self).count()) by {
                    if seq_frame(ms, p, rest, s) && ms.len() == old(self).count() {
                        lemma_key_is_int_encoding(p);
                        assert(false);
                    }
                }
                assert forall|j: int|
                    0 <= j <= i64::MAX && j <= usize::MAX && j != p && (#[trigger] key_encoding(
                        j as nat,
                    )).is_prefix_of(s) implies idx == j by {
                    lemma_key_is_int_encoding(j);
                }
            }
            return Err(Error::IndexMismatch { expected: self.index, actual: idx });
        }
        self.index = self.index + 1;
        let v = match de.parse_value() {
            Ok(v) => v,
            Err(e) => {
                proof {
                    assert forall|ms: Seq<SpecValue>, rest: Seq<u8>|
                        !(#[trigger] seq_frame(ms, p, rest, s) && ms.len()
                            == old(self).count()) by {
                        if seq_frame(ms, p, rest, s) && ms.len() == old(self).count() {
                            lemma_key_is_int_encoding(p);
                            assert(false);
                        }
                    }
                    assert forall|j: int|
                        !(0 <= j <= i64::MAX && j <= usize::MAX && j != p
                            && (#[trigger] key_encoding(j as nat)).is_prefix_of(s)) by {
                        if 0 <= j <= i64::MAX && j <= usize::MAX && j != p && key_encoding(
                            j as nat,
                        ).is_prefix_of(s) {
                            lemma_key_is_int_encoding(j);
                        }
                    }
                }
                return Err(e);
            },
        };
        proof {
            assert forall|ms: Seq<SpecValue>, rest: Seq<u8>|
                #[trigger] seq_frame(ms, p, rest, s) && ms.len() == old(self).count()
                implies p < ms.len() && value_model(v) == ms[p] && seq_frame(
                ms,
                p + 1,
                rest,
                de.remaining(),
            ) by {
                lemma_key_is_int_encoding(p);
            }
            assert forall|j: int|
                !(0 <= j <= i64::MAX && j <= usize::MAX && j != p && (#[trigger] key_encoding(
                    j as nat,
                )).is_prefix_of(s)) by {
                if 0 <= j <= i64::MAX && j <= usize::MAX && j != p && key_encoding(
                    j as nat,
                ).is_prefix_of(s) {
                    lemma_key_is_int_encoding(j);
                }
            }
        }
        Ok(Some(v))
    }
}

/// Associative array helper.
///
/// A cursor over the entries of a mapping array: one string key and one
/// value per step, ending with `None` once the declared count is reached.
#[derive(Debug)]
pub struct ArrayMapping {
    num_elements: usize,
    index: usize,
}

impl ArrayMapping {
    /// The declared entry count.
    pub closed spec fn count(self) -> int {
        self.num_elements as int
    }

    /// How many entries have been fully read.
    pub closed spec fn pos(self) -> int {
        self.index as int
    }

    /// Creates a cursor expecting `num_elements` entries.
    pub fn new(num_elements: usize) -> (r: ArrayMapping)
        ensures
            r.count() == num_elements,
            r.pos() == 0,
    {
        ArrayMapping { num_elements, index: 0 }
    }

    /// Reads the next entry's key, always as a byte string; signals the end
    /// of the mapping with `None` once the declared count is reached.
    pub fn next_key(&mut self, de: &mut PhpDeserializer) -> (r: Result<Option<Vec<u8>>, Error>)
        requires
            old(de).wf(),
            0 <= old(self).pos() <= old(self).count(),
        ensures
            final(de).wf(),
            *final(self) == *old(self),
            final(de).remaining().len() <= old(de).remaining().len(),
            match r {
                Ok(None) => old(self).pos() == old(self).count() && final(de).remaining() == old(de).remaining(),
                Ok(Some(_)) => old(self).pos() < old(self).count() && final(de).remaining().len() < old(de).remaining().len(),
                Err(_) => true,
            },
            forall|es: Seq<(Seq<u8>, SpecValue)>, rest: Seq<u8>|
                #[trigger] map_frame(es, old(self).pos(), rest, old(de).remaining()) && es.len()
                    == old(self).count() ==> match r {
                    Ok(None) => old(self).pos() == es.len(),
                    Ok(Some(k)) => old(self).pos() < es.len() && k@ == es[old(self).pos()].0
                        && map_value_frame(es, old(self).pos(), rest, final(de).remaining()),
                    Err(_) => false,
                },
    {
        if self.index == self.num_elements {
            return Ok(None);
        }
        let ghost s = old(de).remaining();
        let ghost p = self.index as int;
        proof {
            lemma_map_frame_step(s, p);
        }
        let key = match de.parse_string() {
            Ok(k) => k,
            Err(e) => {
                proof {
                    assert forall|es: Seq<(Seq<u8>, SpecValue)>, rest: Seq<u8>|
                        !(#[trigger] map_frame(es, p, rest, s) && es.len()
                            == old(self).count()) by {
                        if map_frame(es, p, rest, s) && es.len() == old(self).count() {
                            assert(false);
                        }
                    }
                }
                return Err(e);
            },
        };
        Ok(Some(key))
    }

    /// Reads the next entry's value and advances the cursor.
    pub fn next_value(&mut self, de: &mut PhpDeserializer) -> (r: Result<PhpValue, Error>)
        requires
            old(de).wf(),
            0 <= old(self).pos() < old(self).count(),
        ensures
            final(de).wf(),
            final(self).count() == old(self).count(),
            final(self).pos() == old(self).pos() + 1,
            final(de).remaining().len() <= old(de).remaining().len(),
            match r {
                Ok(v) => wf_value(value_model(v)) && final(de).remaining().len() + 2 <= old(de).remaining().len(),
                Err(_) => true,
            },
            forall|es: Seq<(Seq<u8>, SpecValue)>, rest: Seq<u8>|
                #[trigger] map_value_frame(es, old(self).pos(), rest, old(de).remaining())
                    && es.len() == old(self).count() ==> match r {
                    Ok(v) => value_model(v) == es[old(self).pos()].1 && map_frame(
                        es,
                        old(self).pos() + 1,
                        rest,
                        final(de).remaining(),
                    ),
                    Err(_) => false,
                },
        decreases old(de).remaining().len(), 1int,
    {
        let ghost s = old(de).remaining();
        let ghost p = self.index as int;
        proof {
            lemma_map_value_frame_step(s, p);
        }
        self.index = self.index + 1;
        let v = match de.parse_value() {
            Ok(v) => v,
            Err(e) => {
                proof {
                    assert forall|es: Seq<(Seq<u8>, SpecValue)>, rest: Seq<u8>|
                        !(#[trigger] map_value_frame(es, p, rest, s) && es.len()
                            == old(self).count()) by {
                        if map_value_frame(es, p, rest, s) && es.len() == old(self).count() {
                            assert(false);
                        }
                    }
                }
                return Err(e);
            },
        };
        Ok(v)
    }
}


impl PhpDeserializer {
    /// Reads one value, dispatching on its single-byte type tag.
    ///
    /// `N;` is null; `b`, `i`, `d`, `s` read the scalar shapes; `a` reads an
    /// array, disambiguated into a sequence or a mapping by the tag of its
    /// first key; `O` is rejected as unsupported; any other byte is an
    /// invalid type indicator. Whenever the input begins with the canonical
    /// encoding of a well-formed value, exactly that value comes back and
    /// exactly its encoding is consumed.
    #[verifier::loop_isolation(false)]
    #[verifier::rlimit(100)]
    pub fn parse_value(&mut self) -> (r: Result<PhpValue, Error>)
        requires
            old(self).wf(),
        ensures
            final(self).wf(),
            final(self).remaining().len() <= old(self).remaining().len(),
            match r {
                Ok(v) => wf_value(value_model(v)) && final(self).remaining().len() + 2 <= old(self).remaining().len(),
                Err(_) => true,
            },
            old(self).remaining().len() == 0 ==> r == Err::<PhpValue, Error>(
                Error::UnexpectedEof,
            ),
            old(self).remaining().len() >= 2 && old(self).remaining()[0]
                == crate::digits::TAG_OBJECT && old(self).remaining()[1]
                == crate::digits::BYTE_COLON ==> (r matches Err(e) && e matches
                Error::MissingFeature(_)),
            old(self).remaining().len() >= 2 && !valid_tag(old(self).remaining()[0]) && old(
                self,
            ).remaining()[1] == crate::digits::BYTE_COLON ==> r == Err::<PhpValue, Error>(
                Error::InvalidTypeIndicator(old(self).remaining()[0]),
            ),
            forall|m0: SpecValue|
                wf_value(m0) && (#[trigger] encoding(m0)).is_prefix_of(old(self).remaining())
                    ==> (r matches Ok(v) && value_model(v) == m0 && final(self).remaining()
                    == old(self).remaining().skip(encoding(m0).len() as int)),
        decreases old(self).remaining().len(), 0int,
    {
        let ghost s = old(self).remaining();
        proof {
            old(self).input.lemma_remaining_fits();
            lemma_prefix_head(s);
        }
        let sym = match self.input.read1() {
            Ok(b) => b,
            Err(e) => {
                return Err(e);
            },
        };
        if sym == crate::digits::TAG_NULL {
            match self.input.expect(BYTE_SEMI) {
                Ok(()) => {},
                Err(e) => {
                    proof {
                        assert forall|m0: SpecValue|
                            !(wf_value(m0) && (#[trigger] encoding(m0)).is_prefix_of(s)) by {
                            if wf_value(m0) && encoding(m0).is_prefix_of(s) {
                                assert(m0 is Null);
                                assert(s.skip(1)[0] == s[1]);
                                assert(false);
                            }
                        }
                    }
                    return Err(e);
                },
            }
            proof {
                assert(self.remaining() =~= s.skip(2));
                assert forall|m0: SpecValue|
                    wf_value(m0) && (#[trigger] encoding(m0)).is_prefix_of(s)
                    implies value_model(PhpValue::Null) == m0 && self.remaining() == s.skip(
                    encoding(m0).len() as int,
                ) by {
                    assert(m0 is Null);
                    crate::value::lemma_encoding_head(m0);
                }
            }
            return Ok(PhpValue::Null);
        }
        match self.input.expect(crate::digits::BYTE_COLON) {
            Ok(()) => {},
            Err(e) => {
                proof {
                    assert forall|m0: SpecValue|
                        !(wf_value(m0) && (#[trigger] encoding(m0)).is_prefix_of(s)) by {
                        if wf_value(m0) && encoding(m0).is_prefix_of(s) {
                            assert(!(m0 is Null));
                            assert(s.skip(1)[0] == s[1]);
                            assert(false);
                        }
                    }
                }
                return Err(e);
            },
        }
        let ghost s2 = self.remaining();
        proof {
            assert(s2 =~= s.skip(2));
        }
        if sym == crate::digits::TAG_BOOL {
            proof {
                lemma_bool_parts(s);
            }
            let val = match self.input.read1() {
                Ok(b) => b,
                Err(e) => {
                    proof {
                        assert forall|m0: SpecValue|
                            !(wf_value(m0) && (#[trigger] encoding(m0)).is_prefix_of(s)) by {
                            if wf_value(m0) && encoding(m0).is_prefix_of(s) {
                                assert(m0 is Bool && s.len() >= 4);
                            }
                        }
                    }
                    return Err(e);
                },
            };
            match self.input.expect(BYTE_SEMI) {
                Ok(()) => {},
                Err(e) => {
                    proof {
                        assert forall|m0: SpecValue|
                            !(wf_value(m0) && (#[trigger] encoding(m0)).is_prefix_of(s)) by {
                            if wf_value(m0) && encoding(m0).is_prefix_of(s) {
                                assert(m0 is Bool && s.len() >= 4);
                                assert(s2.skip(1)[0] == s[3]);
                                assert(false);
                            }
                        }
                    }
                    return Err(e);
                },
            }
            let b = if val == crate::digits::BYTE_0 {
                false
            } else if val == crate::digits::BYTE_1 {
                true
            } else {
                proof {
                    assert forall|m0: SpecValue|
                        !(wf_value(m0) && (#[trigger] encoding(m0)).is_prefix_of(s)) by {
                        if wf_value(m0) && encoding(m0).is_prefix_of(s) {
                            assert(m0 is Bool);
                            assert(val == s[2]);
                            assert(false);
                        }
                    }
                }
                return Err(Error::InvalidBooleanValue(val));
            };
            proof {
                assert(self.remaining() =~= s.skip(4));
                assert forall|m0: SpecValue|
                    wf_value(m0) && (#[trigger] encoding(m0)).is_prefix_of(s)
                    implies value_model(PhpValue::Bool(b)) == m0 && self.remaining() == s.skip(
                    encoding(m0).len() as int,
                ) by {
                    assert(m0 is Bool);
                    assert(val == s[2]);
                }
            }
            return Ok(PhpValue::Bool(b));
        }
        if sym == crate::digits::TAG_INT {
            proof {
                lemma_int_encoding_head(s);
            }
            let v = match self.parse_int_tail() {
                Ok(v) => v,
                Err(e) => {
                    proof {
                        assert forall|m0: SpecValue|
                            !(wf_value(m0) && (#[trigger] encoding(m0)).is_prefix_of(s)) by {
                            if wf_value(m0) && encoding(m0).is_prefix_of(s) {
                                assert(m0 is Int);
                                assert(false);
                            }
                        }
                    }
                    return Err(e);
                },
            };
            proof {
                assert forall|m0: SpecValue|
                    wf_value(m0) && (#[trigger] encoding(m0)).is_prefix_of(s)
                    implies value_model(PhpValue::Int(v)) == m0 && self.remaining() == s.skip(
                    encoding(m0).len() as int,
                ) by {
                    assert(m0 is Int);
                }
            }
            return Ok(PhpValue::Int(v));
        }
        if sym == crate::digits::TAG_FLOAT {
            proof {
                lemma_float_encoding_head(s);
            }
            let f = match self.parse_float_tail() {
                Ok(f) => f,
                Err(e) => {
                    proof {
                        assert forall|m0: SpecValue|
                            !(wf_value(m0) && (#[trigger] encoding(m0)).is_prefix_of(s)) by {
                            if wf_value(m0) && encoding(m0).is_prefix_of(s) {
                                assert(m0 is Float);
                                assert(false);
                            }
                        }
                    }
                    return Err(e);
                },
            };
            proof {
                assert forall|m0: SpecValue|
                    wf_value(m0) && (#[trigger] encoding(m0)).is_prefix_of(s)
                    implies value_model(PhpValue::Float(f)) == m0 && self.remaining() == s.skip(
                    encoding(m0).len() as int,
                ) by {
                    assert(m0 is Float);
                }
            }
            return Ok(PhpValue::Float(f));
        }
        if sym == crate::digits::TAG_STR {
            let data = match self.input.read_raw_string() {
                Ok(v) => v,
                Err(e) => {
                    proof {
                        assert forall|m0: SpecValue|
                            !(wf_value(m0) && (#[trigger] encoding(m0)).is_prefix_of(s)) by {
                            if wf_value(m0) && encoding(m0).is_prefix_of(s) {
                                assert(m0 is Bytes);
                                lemma_str_encoding_head(s);
                                match m0 {
                                    SpecValue::Bytes(d) => {
                                        assert(encoding(m0) == str_encoding(d));
                                        assert(crate::value::str_tail(d).is_prefix_of(s2));
                                    },
                                    _ => {},
                                }
                                assert(false);
                            }
                        }
                    }
                    return Err(e);
                },
            };
            proof {
                assert(data.len() == data@.len());
                assert forall|m0: SpecValue|
                    wf_value(m0) && (#[trigger] encoding(m0)).is_prefix_of(s)
                    implies value_model(PhpValue::Bytes(data)) == m0 && self.remaining()
                    == s.skip(encoding(m0).len() as int) by {
                    assert(m0 is Bytes);
                    lemma_str_encoding_head(s);
                    match m0 {
                        SpecValue::Bytes(d) => {
                            assert(encoding(m0) == str_encoding(d));
                            assert(crate::value::str_tail(d).is_prefix_of(s2));
                            assert(data@ == d);
                        },
                        _ => {},
                    }
                }
            }
            return Ok(PhpValue::Bytes(data));
        }
        if sym == crate::digits::TAG_ARRAY {
            proof {
                lemma_array_encoding_parts(s);
            }
            let count = match self.input.read_array_header() {
                Ok(c) => c,
                Err(e) => {
                    proof {
                        assert forall|m0: SpecValue|
                            !(wf_value(m0) && (#[trigger] encoding(m0)).is_prefix_of(s)) by {
                            if wf_value(m0) && encoding(m0).is_prefix_of(s) {
                                lemma_array_prefix_contra(s, s2, m0);
                                assert(false);
                            }
                        }
                    }
                    return Err(e);
                },
            };
            let ghost rh = self.remaining();
            proof {
                assert(rh.len() + 5 <= s.len());
                assert forall|m0: SpecValue|
                    wf_value(m0) && (#[trigger] encoding(m0)).is_prefix_of(s) implies (
                m0 matches SpecValue::Sequence(ms) ==> ms.len() == count && seq_frame(
                    ms,
                    0,
                    s.skip(encoding(m0).len() as int),
                    rh,
                )) && (m0 matches SpecValue::Mapping(es) ==> es.len() == count && map_frame(
                    es,
                    0,
                    s.skip(encoding(m0).len() as int),
                    rh,
                )) && (m0 is Sequence || m0 is Mapping) by {
                    lemma_array_prefix_frames(s, s2, m0, count as int, rh);
                }
            }
            let c1 = match self.peek() {
                Ok(Some(c)) => c,
                Ok(None) => {
                    proof {
                        assert forall|m0: SpecValue|
                            !(wf_value(m0) && (#[trigger] encoding(m0)).is_prefix_of(s)) by {
                            if wf_value(m0) && encoding(m0).is_prefix_of(s) {
                                lemma_array_first_bytes(s, m0, count as int, rh);
                                assert(false);
                            }
                        }
                    }
                    return Err(Error::UnexpectedEof);
                },
                Err(e) => {
                    return Err(e);
                },
            };
            if c1 == crate::digits::TAG_INT || c1 == crate::digits::BYTE_RBRACE {
                let mut cursor = ArraySequence::new(count);
                let mut elems: Vec<PhpValue> = Vec::new();
                let mut done = false;
                proof {
                    assert(crate::value::sequence_models(elems@) =~= Seq::<SpecValue>::empty());
                }
                while !done
                    invariant
                        self.wf(),
                        cursor.count() == count as int,
                        cursor.pos() == elems@.len(),
                        elems@.len() <= count,
                        self.remaining().len() + 3 * elems@.len() <= rh.len(),
                        rh.len() + 5 <= s.len(),
                        s.len() <= usize::MAX,
                        forall|i: int|
                            0 <= i < elems@.len() ==> wf_value(value_model(
                                #[trigger] elems@[i],
                            )),
                        done ==> cursor.pos() == count as int,
                        forall|ms: Seq<SpecValue>, rest: Seq<u8>|
                            #[trigger] seq_frame(ms, 0, rest, rh) && ms.len() == count
                                ==> crate::value::sequence_models(elems@) == ms.take(
                                elems@.len() as int,
                            ) && seq_frame(ms, elems@.len() as int, rest, self.remaining()),
                    decreases count - elems@.len() + (if done {
                        0int
                    } else {
                        1int
                    }),
                {
                    let ghost elems0 = elems@;
                    let ghost cur0 = self.remaining();
                    match cursor.next_element(self) {
                        Ok(Some(v)) => {
                            elems.push(v);
                            proof {
                                crate::value::lemma_sequence_models_push(elems0, v);
                                assert forall|ms: Seq<SpecValue>, rest: Seq<u8>|
                                    #[trigger] seq_frame(ms, 0, rest, rh) && ms.len() == count
                                    implies crate::value::sequence_models(elems@) == ms.take(
                                    elems@.len() as int,
                                ) && seq_frame(ms, elems@.len() as int, rest, self.remaining()) by {
                                    assert(seq_frame(ms, elems0.len() as int, rest, cur0));
                                    assert(ms.take(elems0.len() as int + 1) =~= ms.take(
                                        elems0.len() as int,
                                    ).push(ms[elems0.len() as int]));
                                }
                            }
                        },
                        Ok(None) => {
                            done = true;
                        },
                        Err(e) => {
                            proof {
                                assert forall|m0: SpecValue|
                                    !(wf_value(m0) && (#[trigger] encoding(m0)).is_prefix_of(
                                        s,
                                    )) by {
                                    if wf_value(m0) && encoding(m0).is_prefix_of(s) {
                                        lemma_array_first_bytes(s, m0, count as int, rh);
                                        match m0 {
                                            SpecValue::Sequence(ms) => {
                                                let rest = s.skip(encoding(m0).len() as int);
                                                assert(seq_frame(
                                                    ms,
                                                    elems0.len() as int,
                                                    rest,
                                                    cur0,
                                                ));
                                                assert(false);
                                            },
                                            SpecValue::Mapping(es) => {
                                                assert(rh[0] == crate::digits::TAG_STR);
                                                assert(false);
                                            },
                                            _ => {
                                                assert(false);
                                            },
                                        }
                                    }
                                }
                            }
                            return Err(e);
                        },
                    }
                }
                let ghost before_close = self.remaining();
                match self.input.expect(crate::digits::BYTE_RBRACE) {
                    Ok(()) => {},
                    Err(e) => {
                        proof {
                            assert forall|m0: SpecValue|
                                !(wf_value(m0) && (#[trigger] encoding(m0)).is_prefix_of(s)) by {
                                if wf_value(m0) && encoding(m0).is_prefix_of(s) {
                                    lemma_array_first_bytes(s, m0, count as int, rh);
                                    match m0 {
                                        SpecValue::Sequence(ms) => {
                                            let rest = s.skip(encoding(m0).len() as int);
                                            lemma_seq_frame_end(
                                                ms,
                                                rest,
                                                before_close,
                                                count as int,
                                            );
                                            assert(false);
                                        },
                                        SpecValue::Mapping(es) => {
                                            assert(rh[0] == crate::digits::TAG_STR);
                                            assert(false);
                                        },
                                        _ => {
                                            assert(false);
                                        },
                                    }
                                }
                            }
                        }
                        return Err(e);
                    },
                }
                let result = PhpValue::Sequence(elems);
                proof {
                    crate::value::lemma_sequence_models_index(elems@);
                    assert(3 * elems@.len() <= usize::MAX);
                    assert(elems@.len() <= i64::MAX) by (nonlinear_arith)
                        requires
                            3 * elems@.len() <= usize::MAX,
                            usize::MAX <= u64::MAX,
                    {}
                    assert(wf_value(value_model(result)));
                    assert forall|m0: SpecValue|
                        wf_value(m0) && (#[trigger] encoding(m0)).is_prefix_of(s)
                        implies value_model(result) == m0 && self.remaining() == s.skip(
                        encoding(m0).len() as int,
                    ) by {
                        lemma_array_first_bytes(s, m0, count as int, rh);
                        match m0 {
                            SpecValue::Sequence(ms) => {
                                let rest = s.skip(encoding(m0).len() as int);
                                lemma_seq_frame_end(ms, rest, before_close, count as int);
                                assert(crate::value::sequence_models(elems@) == ms.take(
                                    ms.len() as int,
                                ));
                                assert(ms.take(ms.len() as int) =~= ms);
                                assert(value_model(result) == SpecValue::Sequence(ms));
                                assert(crate::value::sequence_body(ms, count as int)
                                    == Seq::<u8>::empty());
                                assert((Seq::<u8>::empty()
                                    + seq![crate::digits::BYTE_RBRACE]) + rest
                                    =~= seq![crate::digits::BYTE_RBRACE] + rest);
                            },
                            SpecValue::Mapping(es) => {
                                assert(rh[0] == crate::digits::TAG_STR);
                            },
                            _ => {},
                        }
                    }
                }
                return Ok(result);
            }
            if c1 == crate::digits::TAG_STR {
                let mut cursor = ArrayMapping::new(count);
                let mut entries: Vec<(Vec<u8>, PhpValue)> = Vec::new();
                let mut done = false;
                proof {
                    assert(crate::value::mapping_models(entries@) =~= Seq::<
                        (Seq<u8>, SpecValue),
                    >::empty());
                }
                while !done
                    invariant
                        self.wf(),
                        cursor.count() == count as int,
                        cursor.pos() == entries@.len(),
                        entries@.len() <= count,
                        self.remaining().len() <= rh.len(),
                        rh.len() + 5 <= s.len(),
                        s.len() <= usize::MAX,
                        forall|i: int|
                            0 <= i < entries@.len() ==> wf_value(value_model(
                                (#[trigger] entries@[i]).1,
                            )),
                        entries@.len() == 0 ==> self.remaining() == rh,
                        done ==> cursor.pos() == count as int,
                        forall|es: Seq<(Seq<u8>, SpecValue)>, rest: Seq<u8>|
                            #[trigger] map_frame(es, 0, rest, rh) && es.len() == count
                                ==> crate::value::mapping_models(entries@) == es.take(
                                entries@.len() as int,
                            ) && map_frame(es, entries@.len() as int, rest, self.remaining()),
                    decreases count - entries@.len() + (if done {
                        0int
                    } else {
                        1int
                    }),
                {
                    let ghost entries0 = entries@;
                    let ghost cur0 = self.remaining();
                    match cursor.next_key(self) {
                        Ok(Some(key)) => {
                            let ghost cur1 = self.remaining();
                            let value = match cursor.next_value(self) {
                                Ok(v) => v,
                                Err(e) => {
                                    proof {
                                        assert forall|m0: SpecValue|
                                            !(wf_value(m0) && (#[trigger] encoding(
                                                m0,
                                            )).is_prefix_of(s)) by {
                                            if wf_value(m0) && encoding(m0).is_prefix_of(s) {
                                                lemma_array_first_bytes(s, m0, count as int, rh);
                                                match m0 {
                                                    SpecValue::Mapping(es) => {
                                                        let rest = s.skip(
                                                            encoding(m0).len() as int,
                                                        );
                                                        assert(map_frame(
                                                            es,
                                                            entries0.len() as int,
                                                            rest,
                                                            cur0,
                                                        ));
                                                        assert(map_value_frame(
                                                            es,
                                                            entries0.len() as int,
                                                            rest,
                                                            cur1,
                                                        ));
                                                        assert(false);
                                                    },
                                                    SpecValue::Sequence(ms) => {
                                                        assert(false);
                                                    },
                                                    _ => {
                                                        assert(false);
                                                    },
                                                }
                                            }
                                        }
                                    }
                                    return Err(e);
                                },
                            };
                            entries.push((key, value));
                            proof {
                                crate::value::lemma_mapping_models_push(
                                    entries0,
                                    (key, value),
                                );
                                assert forall|es: Seq<(Seq<u8>, SpecValue)>, rest: Seq<u8>|
                                    #[trigger] map_frame(es, 0, rest, rh) && es.len() == count
                                    implies crate::value::mapping_models(entries@) == es.take(
                                    entries@.len() as int,
                                ) && map_frame(es, entries@.len() as int, rest, self.remaining()) by {
                                    assert(map_frame(es, entries0.len() as int, rest, cur0));
                                    assert(map_value_frame(
                                        es,
                                        entries0.len() as int,
                                        rest,
                                        cur1,
                                    ));
                                    assert(es.take(entries0.len() as int + 1) =~= es.take(
                                        entries0.len() as int,
                                    ).push(es[entries0.len() as int]));
                                }
                            }
                        },
                        Ok(None) => {
                            done = true;
                        },
                        Err(e) => {
                            proof {
                                assert forall|m0: SpecValue|
                                    !(wf_value(m0) && (#[trigger] encoding(m0)).is_prefix_of(
                                        s,
                                    )) by {
                                    if wf_value(m0) && encoding(m0).is_prefix_of(s) {
                                        lemma_array_first_bytes(s, m0, count as int, rh);
                                        match m0 {
                                            SpecValue::Mapping(es) => {
                                                let rest = s.skip(encoding(m0).len() as int);
                                                assert(map_frame(
                                                    es,
                                                    entries0.len() as int,
                                                    rest,
                                                    cur0,
                                                ));
                                                assert(false);
                                            },
                                            SpecValue::Sequence(ms) => {
                                                assert(false);
                                            },
                                            _ => {
                                                assert(false);
                                            },
                                        }
                                    }
                                }
                            }
                            return Err(e);
                        },
                    }
                }
                let ghost before_close = self.remaining();
                match self.input.expect(crate::digits::BYTE_RBRACE) {
                    Ok(()) => {},
                    Err(e) => {
                        proof {
                            assert forall|m0: SpecValue|
                                !(wf_value(m0) && (#[trigger] encoding(m0)).is_prefix_of(s)) by {
                                if wf_value(m0) && encoding(m0).is_prefix_of(s) {
                                    lemma_array_first_bytes(s, m0, count as int, rh);
                                    match m0 {
                                        SpecValue::Mapping(es) => {
                                            let rest = s.skip(encoding(m0).len() as int);
                                            lemma_map_frame_end(
                                                es,
                                                rest,
                                                before_close,
                                                count as int,
                                            );
                                            assert(false);
                                        },
                                        SpecValue::Sequence(ms) => {
                                            assert(false);
                                        },
                                        _ => {
                                            assert(false);
                                        },
                                    }
                                }
                            }
                        }
                        return Err(e);
                    },
                }
                if entries.len() == 0 {
                    // The declared count was zero, yet the first key tag was a
                    // string: the closing brace cannot have matched.
                    proof {
                        assert(false);
                    }
                    return Err(Error::UnexpectedEof);
                }
                let result = PhpValue::Mapping(entries);
                proof {
                    crate::value::lemma_mapping_models_index(entries@);
                    assert forall|i: int| 0 <= i < entries@.len() implies (
                    #[trigger] crate::value::mapping_models(entries@)[i]).0.len()
                        <= usize::MAX && wf_value(crate::value::mapping_models(entries@)[i].1) by {
                        assert(entries@[i].0.len() == entries@[i].0@.len());
                    }
                    assert(wf_value(value_model(result)));
                    assert forall|m0: SpecValue|
                        wf_value(m0) && (#[trigger] encoding(m0)).is_prefix_of(s)
                        implies value_model(result) == m0 && self.remaining() == s.skip(
                        encoding(m0).len() as int,
                    ) by {
                        lemma_array_first_bytes(s, m0, count as int, rh);
                        match m0 {
                            SpecValue::Mapping(es) => {
                                let rest = s.skip(encoding(m0).len() as int);
                                lemma_map_frame_end(es, rest, before_close, count as int);
                                assert(crate::value::mapping_models(entries@) == es.take(
                                    es.len() as int,
                                ));
                                assert(es.take(es.len() as int) =~= es);
                                assert(value_model(result) == SpecValue::Mapping(es));
                            },
                            SpecValue::Sequence(ms) => {},
                            _ => {},
                        }
                    }
                }
                return Ok(result);
            }
            proof {
                assert forall|m0: SpecValue|
                    !(wf_value(m0) && (#[trigger] encoding(m0)).is_prefix_of(s)) by {
                    if wf_value(m0) && encoding(m0).is_prefix_of(s) {
                        lemma_array_first_bytes(s, m0, count as int, rh);
                        assert(false);
                    }
                }
            }
            return Err(Error::UnsupportedArrayKeyType(c1));
        }
        if sym == crate::digits::TAG_OBJECT {
            proof {
                assert forall|m0: SpecValue|
                    !(wf_value(m0) && (#[trigger] encoding(m0)).is_prefix_of(s)) by {
                    if wf_value(m0) && encoding(m0).is_prefix_of(s) {
                        assert(crate::value::tag_of(m0) == crate::digits::TAG_OBJECT);
                        assert(false);
                    }
                }
            }
            return Err(Error::MissingFeature("object deserialization is not implemented"));
        }
        proof {
            assert forall|m0: SpecValue|
                !(wf_value(m0) && (#[trigger] encoding(m0)).is_prefix_of(s)) by {
                if wf_value(m0) && encoding(m0).is_prefix_of(s) {
                    assert(crate::value::tag_of(m0) == sym);
                    assert(false);
                }
            }
        }
        Err(Error::InvalidTypeIndicator(sym))
    }
}

impl PhpDeserializer {
    /// Reads an optional value: a leading `N;` yields "absent", anything
    /// else is read as a normal value and yields "present".
    pub fn parse_option(&mut self) -> (r: Result<Option<PhpValue>, Error>)
        requires
            old(self).wf(),
        ensures
            final(self).wf(),
            final(self).remaining().len() <= old(self).remaining().len(),
            match r {
                Ok(Some(v)) => wf_value(value_model(v)),
                _ => true,
            },
            old(self).remaining().len() >= 1 && old(self).remaining()[0]
                == crate::digits::TAG_NULL ==> if old(self).remaining().len() >= 2 && old(
                self,
            ).remaining()[1] == BYTE_SEMI {
                r == Ok::<Option<PhpValue>, Error>(None) && final(self).remaining() == old(
                    self,
                ).remaining().skip(2)
            } else {
                r is Err
            },
            forall|m0: SpecValue|
                wf_value(m0) && (#[trigger] crate::value::encoding(m0)).is_prefix_of(
                    old(self).remaining(),
                ) ==> match r {
                    Ok(o) => (m0 is Null ==> o is None) && (!(m0 is Null) ==> (o matches Some(
                        v,
                    ) && value_model(v) == m0)) && final(self).remaining() == old(
                        self,
                    ).remaining().skip(crate::value::encoding(m0).len() as int),
                    Err(_) => false,
                },
    {
        let ghost s = old(self).remaining();
        let next = match self.peek() {
            Ok(o) => o,
            Err(e) => {
                return Err(e);
            },
        };
        if next == Some(crate::digits::TAG_NULL) {
            match self.input.expect(crate::digits::TAG_NULL) {
                Ok(()) => {},
                Err(e) => {
                    return Err(e);
                },
            }
            match self.input.expect(BYTE_SEMI) {
                Ok(()) => {},
                Err(e) => {
                    proof {
                        assert forall|m0: SpecValue|
                            !(wf_value(m0) && (#[trigger] crate::value::encoding(
                                m0,
                            )).is_prefix_of(s)) by {
                            if wf_value(m0) && crate::value::encoding(m0).is_prefix_of(s) {
                                crate::value::lemma_encoding_head(m0);
                                assert(m0 is Null);
                                assert(s[1] == BYTE_SEMI);
                                assert(false);
                            }
                        }
                    }
                    return Err(e);
                },
            }
            proof {
                assert(self.remaining() =~= s.skip(2));
                assert forall|m0: SpecValue|
                    wf_value(m0) && (#[trigger] crate::value::encoding(m0)).is_prefix_of(s)
                    implies m0 is Null && self.remaining() == s.skip(
                    crate::value::encoding(m0).len() as int,
                ) by {
                    crate::value::lemma_encoding_head(m0);
                }
            }
            Ok(None)
        } else {
            let v = match self.parse_value() {
                Ok(v) => v,
                Err(e) => {
                    proof {
                        assert forall|m0: SpecValue|
                            !(wf_value(m0) && (#[trigger] crate::value::encoding(
                                m0,
                            )).is_prefix_of(s)) by {
                            if wf_value(m0) && crate::value::encoding(m0).is_prefix_of(s) {
                                crate::value::lemma_encoding_head(m0);
                            }
                        }
                    }
                    return Err(e);
                },
            };
            proof {
                assert forall|m0: SpecValue|
                    wf_value(m0) && (#[trigger] crate::value::encoding(m0)).is_prefix_of(s)
                    implies !(m0 is Null) && value_model(v) == m0 && self.remaining() == s.skip(
                    crate::value::encoding(m0).len() as int,
                ) by {
                    crate::value::lemma_encoding_head(m0);
                }
            }
            Ok(Some(v))
        }
    }
}


impl PhpDeserializer {
    /// Reads the opening of an array: the `a:` tag, the declared element
    /// count, and `:{`.
    pub fn begin_array(&mut self) -> (r: Result<usize, Error>)
        requires
            old(self).wf(),
        ensures
            final(self).wf(),
            final(self).remaining().len() <= old(self).remaining().len(),
            r is Ok ==> final(self).remaining().len() < old(self).remaining().len(),
            forall|c: nat|
                (#[trigger] crate::value::array_open(c)).is_prefix_of(old(self).remaining())
                    && c <= usize::MAX ==> match r {
                    Ok(n) => n == c && final(self).remaining() == old(self).remaining().skip(
                        crate::value::array_open(c).len() as int,
                    ),
                    Err(_) => false,
                },
    {
        let ghost s = old(self).remaining();
        proof {
            lemma_array_open_head(s);
        }
        match self.input.expect(crate::digits::TAG_ARRAY) {
            Ok(()) => {},
            Err(e) => {
                return Err(e);
            },
        }
        match self.input.expect(crate::digits::BYTE_COLON) {
            Ok(()) => {},
            Err(e) => {
                return Err(e);
            },
        }
        let ghost s2 = self.remaining();
        proof {
            assert(s.skip(1).skip(1) =~= s.skip(2));
        }
        let count = match self.input.read_array_header() {
            Ok(c) => c,
            Err(e) => {
                proof {
                    assert forall|c: nat|
                        !((#[trigger] crate::value::array_open(c)).is_prefix_of(s) && c
                            <= usize::MAX) by {
                        if crate::value::array_open(c).is_prefix_of(s) && c <= usize::MAX {
                            assert(crate::value::header_tail(c).is_prefix_of(s2));
                            assert(false);
                        }
                    }
                }
                return Err(e);
            },
        };
        proof {
            let fin = self.remaining();
            assert forall|c: nat|
                (#[trigger] crate::value::array_open(c)).is_prefix_of(s) && c <= usize::MAX
                implies count == c && fin == s.skip(crate::value::array_open(c).len() as int) by {
                assert(crate::value::header_tail(c).is_prefix_of(s2));
                assert(fin == s2.skip(crate::value::header_tail(c).len() as int));
                assert(fin =~= s.skip(2 + crate::value::header_tail(c).len() as int));
                assert(crate::value::array_open(c).len() == 2 + crate::value::header_tail(
                    c,
                ).len());
            }
        }
        Ok(count)
    }

    /// Reads the closing `}` of an array.
    pub fn end_array(&mut self) -> (r: Result<(), Error>)
        requires
            old(self).wf(),
        ensures
            final(self).wf(),
            final(self).remaining().len() <= old(self).remaining().len(),
            old(self).remaining().len() == 0 ==> r == Err::<(), Error>(Error::UnexpectedEof)
                && final(self).remaining() == old(self).remaining(),
            old(self).remaining().len() > 0 ==> {
                &&& final(self).remaining() == old(self).remaining().skip(1)
                &&& old(self).remaining()[0] == crate::digits::BYTE_RBRACE ==> r == Ok::<
                    (),
                    Error,
                >(())
                &&& old(self).remaining()[0] != crate::digits::BYTE_RBRACE ==> r == Err::<
                    (),
                    Error,
                >(
                    Error::Unexpected {
                        expected: crate::digits::BYTE_RBRACE,
                        actual: old(self).remaining()[0],
                    },
                )
            },
    {
        self.input.expect(crate::digits::BYTE_RBRACE)
    }

    /// Reads a whole mapping array with byte-string keys, `a:<n>:{...}`,
    /// including the empty one `a:0:{}`: the way a record or map target is
    /// decoded, so a record with all fields absent still reads.
    pub fn parse_mapping(&mut self) -> (r: Result<Vec<(Vec<u8>, PhpValue)>, Error>)
        requires
            old(self).wf(),
        ensures
            final(self).wf(),
            final(self).remaining().len() <= old(self).remaining().len(),
            match r {
                Ok(es) => forall|i: int|
                    0 <= i < es@.len() ==> wf_value(value_model((#[trigger] es@[i]).1)),
                Err(_) => true,
            },
            forall|es0: Seq<(Seq<u8>, SpecValue)>|
                es0.len() <= usize::MAX && (forall|i: int|
                    0 <= i < es0.len() ==> (#[trigger] es0[i]).0.len() <= usize::MAX
                        && wf_value(es0[i].1)) && (#[trigger] crate::value::mapping_encoding(
                    es0,
                )).is_prefix_of(old(self).remaining()) ==> match r {
                    Ok(es) => crate::value::mapping_models(es@) == es0 && final(self).remaining()
                        == old(self).remaining().skip(
                        crate::value::mapping_encoding(es0).len() as int,
                    ),
                    Err(_) => false,
                },
    {
        let ghost s = old(self).remaining();
        let v = match self.parse_value() {
            Ok(v) => v,
            Err(e) => {
                proof {
                    assert forall|es0: Seq<(Seq<u8>, SpecValue)>|
                        !(es0.len() <= usize::MAX && (forall|i: int|
                            0 <= i < es0.len() ==> (#[trigger] es0[i]).0.len() <= usize::MAX
                                && wf_value(es0[i].1)) && (
                        #[trigger] crate::value::mapping_encoding(es0)).is_prefix_of(s)) by {
                        if es0.len() <= usize::MAX && (forall|i: int|
                            0 <= i < es0.len() ==> (#[trigger] es0[i]).0.len() <= usize::MAX
                                && wf_value(es0[i].1)) && crate::value::mapping_encoding(
                            es0,
                        ).is_prefix_of(s) {
                            lemma_mapping_encoding_value(es0);
                            assert(false);
                        }
                    }
                }
                return Err(e);
            },
        };
        match v {
            PhpValue::Mapping(entries) => {
                proof {
                    crate::value::lemma_mapping_models_index(entries@);
                    assert forall|i: int| 0 <= i < entries@.len() implies wf_value(value_model(
                        (#[trigger] entries@[i]).1,
                    )) by {
                        assert(crate::value::mapping_models(entries@)[i]
                            == (entries@[i].0@, value_model(entries@[i].1)));
                    }
                    assert forall|es0: Seq<(Seq<u8>, SpecValue)>|
                        es0.len() <= usize::MAX && (forall|i: int|
                            0 <= i < es0.len() ==> (#[trigger] es0[i]).0.len() <= usize::MAX
                                && wf_value(es0[i].1)) && (
                        #[trigger] crate::value::mapping_encoding(es0)).is_prefix_of(s)
                        implies crate::value::mapping_models(entries@) == es0
                            && self.remaining() == s.skip(
                            crate::value::mapping_encoding(es0).len() as int,
                        ) by {
                        lemma_mapping_encoding_value(es0);
                    }
                }
                Ok(entries)
            },
            PhpValue::Sequence(elems) => {
                if elems.len() == 0 {
                    proof {
                        assert forall|es0: Seq<(Seq<u8>, SpecValue)>|
                            es0.len() <= usize::MAX && (forall|i: int|
                                0 <= i < es0.len() ==> (#[trigger] es0[i]).0.len() <= usize::MAX
                                    && wf_value(es0[i].1)) && (
                            #[trigger] crate::value::mapping_encoding(es0)).is_prefix_of(s)
                            implies crate::value::mapping_models(Seq::<
                                (Vec<u8>, PhpValue),
                            >::empty()) == es0 && self.remaining() == s.skip(
                                crate::value::mapping_encoding(es0).len() as int,
                            ) by {
                            lemma_mapping_encoding_value(es0);
                            assert(crate::value::sequence_models(elems@).len() == 0) by {
                                crate::value::lemma_sequence_models_index(elems@);
                            }
                        }
                    }
                    let empty: Vec<(Vec<u8>, PhpValue)> = Vec::new();
                    proof {
                        assert(crate::value::mapping_models(empty@) =~= Seq::<
                            (Seq<u8>, SpecValue),
                        >::empty());
                        assert(empty@ =~= Seq::<(Vec<u8>, PhpValue)>::empty());
                    }
                    Ok(empty)
                } else {
                    proof {
                        crate::value::lemma_sequence_models_index(elems@);
                        assert forall|es0: Seq<(Seq<u8>, SpecValue)>|
                            !(es0.len() <= usize::MAX && (forall|i: int|
                                0 <= i < es0.len() ==> (#[trigger] es0[i]).0.len() <= usize::MAX
                                    && wf_value(es0[i].1)) && (
                            #[trigger] crate::value::mapping_encoding(es0)).is_prefix_of(s)) by {
                            if es0.len() <= usize::MAX && (forall|i: int|
                                0 <= i < es0.len() ==> (#[trigger] es0[i]).0.len() <= usize::MAX
                                    && wf_value(es0[i].1)) && crate::value::mapping_encoding(
                                es0,
                            ).is_prefix_of(s) {
                                lemma_mapping_encoding_value(es0);
                                assert(false);
                            }
                        }
                    }
                    Err(Error::UnsupportedArrayKeyType(crate::digits::TAG_INT))
                }
            },
            other => {
                proof {
                    assert forall|es0: Seq<(Seq<u8>, SpecValue)>|
                        !(es0.len() <= usize::MAX && (forall|i: int|
                            0 <= i < es0.len() ==> (#[trigger] es0[i]).0.len() <= usize::MAX
                                && wf_value(es0[i].1)) && (
                        #[trigger] crate::value::mapping_encoding(es0)).is_prefix_of(s)) by {
                        if es0.len() <= usize::MAX && (forall|i: int|
                            0 <= i < es0.len() ==> (#[trigger] es0[i]).0.len() <= usize::MAX
                                && wf_value(es0[i].1)) && crate::value::mapping_encoding(
                            es0,
                        ).is_prefix_of(s) {
                            lemma_mapping_encoding_value(es0);
                            assert(false);
                        }
                    }
                }
                let tag = match &other {
                    PhpValue::Null => crate::digits::TAG_NULL,
                    PhpValue::Bool(_) => crate::digits::TAG_BOOL,
                    PhpValue::Int(_) => crate::digits::TAG_INT,
                    PhpValue::Float(_) => crate::digits::TAG_FLOAT,
                    PhpValue::Bytes(_) => crate::digits::TAG_STR,
                    _ => crate::digits::TAG_ARRAY,
                };
                Err(Error::Unexpected { expected: crate::digits::TAG_ARRAY, actual: tag })
            },
        }
    }
}

/// Parses a whole byte buffer into one value.
///
/// Trailing bytes after the first complete value are left unread, as the
/// decoder consumes exactly one value from the stream.
pub fn from_bytes(input: &[u8]) -> (r: Result<PhpValue, Error>)
    ensures
        match r {
            Ok(v) => wf_value(value_model(v)),
            Err(_) => true,
        },
        input@.len() == 0 ==> r == Err::<PhpValue, Error>(Error::UnexpectedEof),
        input@.len() >= 2 && input@[0] == crate::digits::TAG_OBJECT && input@[1]
            == crate::digits::BYTE_COLON ==> (r matches Err(e) && e matches Error::MissingFeature(
            _,
        )),
        input@.len() >= 2 && !valid_tag(input@[0]) && input@[1] == crate::digits::BYTE_COLON
            ==> r == Err::<PhpValue, Error>(Error::InvalidTypeIndicator(input@[0])),
        forall|m0: SpecValue|
            wf_value(m0) && (#[trigger] encoding(m0)).is_prefix_of(input@) ==> (r matches Ok(v)
                && value_model(v) == m0),
{
    let mut de = PhpDeserializer::new(slice_to_vec(input));
    de.parse_value()
}

/// A whole mapping encoding is the encoding of the mapping value when it
/// has entries, and the empty sequence's encoding when it has none.
proof fn lemma_mapping_encoding_value(es0: Seq<(Seq<u8>, SpecValue)>)
    requires
        es0.len() <= usize::MAX,
        forall|i: int|
            0 <= i < es0.len() ==> (#[trigger] es0[i]).0.len() <= usize::MAX && wf_value(
                es0[i].1,
            ),
    ensures
        es0.len() >= 1 ==> crate::value::mapping_encoding(es0) == encoding(
            SpecValue::Mapping(es0),
        ) && wf_value(SpecValue::Mapping(es0)),
        es0.len() == 0 ==> crate::value::mapping_encoding(es0) == encoding(
            SpecValue::Sequence(Seq::<SpecValue>::empty()),
        ) && wf_value(SpecValue::Sequence(Seq::<SpecValue>::empty())),
{
    if es0.len() == 0 {
        assert(crate::value::mapping_body(es0, 0) == Seq::<u8>::empty());
        assert(crate::value::sequence_body(Seq::<SpecValue>::empty(), 0) == Seq::<u8>::empty());
        assert(crate::value::mapping_encoding(es0) =~= encoding(
            SpecValue::Sequence(Seq::<SpecValue>::empty()),
        ));
    } else {
        assert(crate::value::mapping_encoding(es0) =~= encoding(SpecValue::Mapping(es0)));
    }
}

/// A canonical array opening fixes `a:` and leaves its header tail.
proof fn lemma_array_open_head(s: Seq<u8>)
    ensures
        forall|c: nat|
            (#[trigger] crate::value::array_open(c)).is_prefix_of(s) ==> s.len() >= 4 && s[0]
                == crate::digits::TAG_ARRAY && s[1] == crate::digits::BYTE_COLON
                && crate::value::header_tail(c).is_prefix_of(s.skip(2)) && s.skip(2).skip(
                crate::value::header_tail(c).len() as int,
            ) == s.skip(crate::value::array_open(c).len() as int),
{
    assert forall|c: nat| (#[trigger] crate::value::array_open(c)).is_prefix_of(s)
        implies s.len() >= 4 && s[0] == crate::digits::TAG_ARRAY && s[1]
        == crate::digits::BYTE_COLON && crate::value::header_tail(c).is_prefix_of(s.skip(2))
        && s.skip(2).skip(crate::value::header_tail(c).len() as int) == s.skip(
        crate::value::array_open(c).len() as int,
    ) by {
        let ao = crate::value::array_open(c);
        let ht = crate::value::header_tail(c);
        crate::digits::lemma_dec_digits_shape(c);
        let rest = s.skip(ao.len() as int);
        assert(ao =~= s.take(ao.len() as int));
        assert(s =~= s.take(ao.len() as int) + rest);
        assert(s == ao + rest);
        assert(ao =~= seq![crate::digits::TAG_ARRAY, crate::digits::BYTE_COLON] + ht);
        assert((ao + rest)[0] == crate::digits::TAG_ARRAY);
        assert((ao + rest)[1] == crate::digits::BYTE_COLON);
        assert(s.skip(2) =~= ht + rest);
        assert(ht =~= s.skip(2).take(ht.len() as int));
        assert(s.skip(2).skip(ht.len() as int) =~= rest);
    }
}

/// The type tags of the six supported wire shapes and of objects, which are
/// recognized but rejected.
pub open spec fn valid_tag(b: u8) -> bool {
    b == crate::digits::TAG_NULL || b == crate::digits::TAG_BOOL || b == crate::digits::TAG_INT
        || b == crate::digits::TAG_FLOAT || b == crate::digits::TAG_STR
        || b == crate::digits::TAG_ARRAY || b == crate::digits::TAG_OBJECT
}

/// Any canonical encoding that prefixes `s` fixes the first two bytes of
/// `s`: the value's tag, then `;` for null and `:` for everything else.
proof fn lemma_prefix_head(s: Seq<u8>)
    ensures
        forall|m0: SpecValue|
            (#[trigger] encoding(m0)).is_prefix_of(s) ==> s.len() >= 2 && s[0]
                == crate::value::tag_of(m0) && (m0 is Null ==> s[1] == BYTE_SEMI) && (!(m0
                is Null) ==> s[1] == crate::digits::BYTE_COLON),
{
    assert forall|m0: SpecValue| (#[trigger] encoding(m0)).is_prefix_of(s) implies s.len() >= 2
        && s[0] == crate::value::tag_of(m0) && (m0 is Null ==> s[1] == BYTE_SEMI) && (!(m0
        is Null) ==> s[1] == crate::digits::BYTE_COLON) by {
        crate::value::lemma_encoding_head(m0);
        assert(s[0] == s.take(encoding(m0).len() as int)[0]);
        assert(s[1] == s.take(encoding(m0).len() as int)[1]);
    }
}

/// A canonical boolean encoding fixes four bytes.
proof fn lemma_bool_parts(s: Seq<u8>)
    ensures
        forall|m0: SpecValue|
            m0 is Bool && (#[trigger] encoding(m0)).is_prefix_of(s) ==> s.len() >= 4 && s[2] == (
            if m0 == SpecValue::Bool(true) {
                crate::digits::BYTE_1
            } else {
                crate::digits::BYTE_0
            }) && s[3] == BYTE_SEMI && encoding(m0).len() == 4,
{
    assert forall|m0: SpecValue| m0 is Bool && (#[trigger] encoding(m0)).is_prefix_of(s)
        implies s.len() >= 4 && s[2] == (if m0 == SpecValue::Bool(true) {
        crate::digits::BYTE_1
    } else {
        crate::digits::BYTE_0
    }) && s[3] == BYTE_SEMI && encoding(m0).len() == 4 by {
        assert(s[2] == s.take(4)[2]);
        assert(s[3] == s.take(4)[3]);
    }
}

/// A canonical float encoding opens with `d:` and continues with its tail.
proof fn lemma_float_encoding_head(s: Seq<u8>)
    ensures
        forall|m0: SpecValue|
            m0 is Float && (#[trigger] encoding(m0)).is_prefix_of(s) ==> match m0 {
                SpecValue::Float(f) => float_tail(f).is_prefix_of(s.skip(2)) && s.skip(2).skip(
                    float_tail(f).len() as int,
                ) == s.skip(encoding(m0).len() as int) && encoding(m0).len() == 2 + float_tail(
                    f,
                ).len(),
                _ => true,
            },
{
    assert forall|m0: SpecValue| m0 is Float && (#[trigger] encoding(m0)).is_prefix_of(s)
        implies match m0 {
        SpecValue::Float(f) => float_tail(f).is_prefix_of(s.skip(2)) && s.skip(2).skip(
            float_tail(f).len() as int,
        ) == s.skip(encoding(m0).len() as int) && encoding(m0).len() == 2 + float_tail(f).len(),
        _ => true,
    } by {
        match m0 {
            SpecValue::Float(f) => {
                let enc = encoding(m0);
                let rest = s.skip(enc.len() as int);
                assert(enc =~= s.take(enc.len() as int));
                assert(s =~= s.take(enc.len() as int) + rest);
                assert(s == enc + rest);
                assert(enc =~= seq![crate::digits::TAG_FLOAT, crate::digits::BYTE_COLON]
                    + float_tail(f));
                assert(s.skip(2) =~= float_tail(f) + rest);
                assert(float_tail(f) =~= s.skip(2).take(float_tail(f).len() as int));
                assert(s.skip(2).skip(float_tail(f).len() as int) =~= rest);
            },
            _ => {},
        }
    }
}

/// If a canonical array encoding prefixes `s`, the header parse after `a:`
/// cannot fail; packaged as a contradiction helper for error paths.
proof fn lemma_array_prefix_contra(s: Seq<u8>, s2: Seq<u8>, m0: SpecValue)
    requires
        wf_value(m0),
        encoding(m0).is_prefix_of(s),
        m0 is Sequence || m0 is Mapping,
        s2 == s.skip(2),
    ensures
        match m0 {
            SpecValue::Sequence(ms) => crate::value::header_tail(ms.len()).is_prefix_of(s2)
                && ms.len() <= usize::MAX,
            SpecValue::Mapping(es) => crate::value::header_tail(es.len()).is_prefix_of(s2)
                && es.len() <= usize::MAX,
            _ => true,
        },
{
    lemma_array_encoding_parts(s);
    match m0 {
        SpecValue::Sequence(ms) => {
            assert(encoding(m0) == encoding(SpecValue::Sequence(ms)));
        },
        SpecValue::Mapping(es) => {
            assert(encoding(m0) == encoding(SpecValue::Mapping(es)));
        },
        _ => {},
    }
}

/// If a canonical array encoding prefixes `s` and the header was read, the
/// count is the aggregate's length and the unread input is its body frame.
proof fn lemma_array_prefix_frames(s: Seq<u8>, s2: Seq<u8>, m0: SpecValue, count: int, rh: Seq<u8>)
    requires
        wf_value(m0),
        encoding(m0).is_prefix_of(s),
        s.len() > 0,
        s[0] == crate::digits::TAG_ARRAY,
        s2 == s.skip(2),
        forall|c: nat|
            (#[trigger] crate::value::header_tail(c)).is_prefix_of(s2) && c <= usize::MAX
                ==> count == c && rh == s2.skip(crate::value::header_tail(c).len() as int),
    ensures
        m0 is Sequence || m0 is Mapping,
        match m0 {
            SpecValue::Sequence(ms) => ms.len() == count && seq_frame(
                ms,
                0,
                s.skip(encoding(m0).len() as int),
                rh,
            ),
            SpecValue::Mapping(es) => es.len() == count && map_frame(
                es,
                0,
                s.skip(encoding(m0).len() as int),
                rh,
            ),
            _ => true,
        },
{
    lemma_prefix_head(s);
    lemma_array_encoding_parts(s);
    match m0 {
        SpecValue::Sequence(ms) => {
            assert(encoding(m0) == encoding(SpecValue::Sequence(ms)));
            assert(crate::value::header_tail(ms.len()).is_prefix_of(s2));
        },
        SpecValue::Mapping(es) => {
            assert(encoding(m0) == encoding(SpecValue::Mapping(es)));
            assert(crate::value::header_tail(es.len()).is_prefix_of(s2));
        },
        _ => {
            lemma_prefix_head(s);
            assert(crate::value::tag_of(m0) == crate::digits::TAG_ARRAY);
            assert(false);
        },
    }
}

/// Decomposes a canonical array encoding into its header and a body frame.
proof fn lemma_array_encoding_parts(s: Seq<u8>)
    ensures
        forall|ms: Seq<SpecValue>|
            wf_value(SpecValue::Sequence(ms)) && (#[trigger] encoding(
                SpecValue::Sequence(ms),
            )).is_prefix_of(s) ==> crate::value::header_tail(ms.len()).is_prefix_of(s.skip(2))
                && seq_frame(
                ms,
                0,
                s.skip(encoding(SpecValue::Sequence(ms)).len() as int),
                s.skip(2).skip(crate::value::header_tail(ms.len()).len() as int),
            ),
        forall|es: Seq<(Seq<u8>, SpecValue)>|
            wf_value(SpecValue::Mapping(es)) && (#[trigger] encoding(
                SpecValue::Mapping(es),
            )).is_prefix_of(s) ==> crate::value::header_tail(es.len()).is_prefix_of(s.skip(2))
                && map_frame(
                es,
                0,
                s.skip(encoding(SpecValue::Mapping(es)).len() as int),
                s.skip(2).skip(crate::value::header_tail(es.len()).len() as int),
            ),
{
    assert forall|ms: Seq<SpecValue>|
        wf_value(SpecValue::Sequence(ms)) && (#[trigger] encoding(
            SpecValue::Sequence(ms),
        )).is_prefix_of(s) implies crate::value::header_tail(ms.len()).is_prefix_of(s.skip(2))
        && seq_frame(
        ms,
        0,
        s.skip(encoding(SpecValue::Sequence(ms)).len() as int),
        s.skip(2).skip(crate::value::header_tail(ms.len()).len() as int),
    ) by {
        let m0 = SpecValue::Sequence(ms);
        let enc = encoding(m0);
        let ht = crate::value::header_tail(ms.len());
        let body = crate::value::sequence_body(ms, 0);
        let rest = s.skip(enc.len() as int);
        assert(enc =~= s.take(enc.len() as int));
        assert(s =~= s.take(enc.len() as int) + rest);
        assert(s == enc + rest);
        assert(enc =~= seq![crate::digits::TAG_ARRAY, crate::digits::BYTE_COLON] + (ht + (body
            + seq![crate::digits::BYTE_RBRACE])));
        assert(s.skip(2) =~= ht + (body + seq![crate::digits::BYTE_RBRACE] + rest));
        assert(ht =~= s.skip(2).take(ht.len() as int));
        assert(s.skip(2).skip(ht.len() as int) =~= body + seq![crate::digits::BYTE_RBRACE]
            + rest);
    }
    assert forall|es: Seq<(Seq<u8>, SpecValue)>|
        wf_value(SpecValue::Mapping(es)) && (#[trigger] encoding(
            SpecValue::Mapping(es),
        )).is_prefix_of(s) implies crate::value::header_tail(es.len()).is_prefix_of(s.skip(2))
        && map_frame(
        es,
        0,
        s.skip(encoding(SpecValue::Mapping(es)).len() as int),
        s.skip(2).skip(crate::value::header_tail(es.len()).len() as int),
    ) by {
        let m0 = SpecValue::Mapping(es);
        let enc = encoding(m0);
        let ht = crate::value::header_tail(es.len());
        let body = crate::value::mapping_body(es, 0);
        let rest = s.skip(enc.len() as int);
        assert(enc =~= s.take(enc.len() as int));
        assert(s =~= s.take(enc.len() as int) + rest);
        assert(s == enc + rest);
        assert(enc =~= seq![crate::digits::TAG_ARRAY, crate::digits::BYTE_COLON] + (ht + (body
            + seq![crate::digits::BYTE_RBRACE])));
        assert(s.skip(2) =~= ht + (body + seq![crate::digits::BYTE_RBRACE] + rest));
        assert(ht =~= s.skip(2).take(ht.len() as int));
        assert(s.skip(2).skip(ht.len() as int) =~= body + seq![crate::digits::BYTE_RBRACE]
            + rest);
    }
}

/// Given a canonical array value whose body frame starts at `rh`, the first
/// unread byte tells the array kind apart: `i` or `}` for sequences, `s`
/// for mappings.
proof fn lemma_array_first_bytes(s: Seq<u8>, m0: SpecValue, count: int, rh: Seq<u8>)
    requires
        wf_value(m0),
        m0 is Sequence || m0 is Mapping,
        match m0 {
            SpecValue::Sequence(ms) => ms.len() == count && seq_frame(
                ms,
                0,
                s.skip(encoding(m0).len() as int),
                rh,
            ),
            SpecValue::Mapping(es) => es.len() == count && map_frame(
                es,
                0,
                s.skip(encoding(m0).len() as int),
                rh,
            ),
            _ => true,
        },
    ensures
        rh.len() > 0,
        match m0 {
            SpecValue::Sequence(ms) => (ms.len() > 0 ==> rh[0] == crate::digits::TAG_INT) && (
            ms.len() == 0 ==> rh[0] == crate::digits::BYTE_RBRACE),
            SpecValue::Mapping(es) => rh[0] == crate::digits::TAG_STR,
            _ => true,
        },
{
    let rest = s.skip(encoding(m0).len() as int);
    match m0 {
        SpecValue::Sequence(ms) => {
            if ms.len() == 0 {
                assert(crate::value::sequence_body(ms, 0) == Seq::<u8>::empty());
                assert(rh =~= seq![crate::digits::BYTE_RBRACE] + rest);
            } else {
                lemma_seq_frame_step(rh, 0);
                let ke = key_encoding(0);
                assert(ke.is_prefix_of(rh));
                assert(ke =~= rh.take(ke.len() as int));
                assert(rh[0] == ke[0]);
                assert(ke[0] == seq![crate::digits::TAG_INT, crate::digits::BYTE_COLON][0]);
            }
        },
        SpecValue::Mapping(es) => {
            lemma_map_frame_step(rh, 0);
            let ke = str_encoding(es[0].0);
            assert(ke.is_prefix_of(rh));
            assert(ke =~= rh.take(ke.len() as int));
            assert(rh[0] == ke[0]);
            assert(ke[0] == seq![crate::digits::TAG_STR, crate::digits::BYTE_COLON][0]);
        },
        _ => {},
    }
}

/// A sequence frame with no elements left is just the closing brace and the
/// rest.
proof fn lemma_seq_frame_end(ms: Seq<SpecValue>, rest: Seq<u8>, sp: Seq<u8>, j: int)
    requires
        seq_frame(ms, j, rest, sp),
        j == ms.len(),
    ensures
        sp == seq![crate::digits::BYTE_RBRACE] + rest,
        sp.len() >= 1,
        sp[0] == crate::digits::BYTE_RBRACE,
        sp.skip(1) == rest,
{
    assert(crate::value::sequence_body(ms, j) == Seq::<u8>::empty());
    assert(sp =~= seq![crate::digits::BYTE_RBRACE] + rest);
    assert(sp.skip(1) =~= rest);
}

/// A mapping frame with no entries left is just the closing brace and the
/// rest.
proof fn lemma_map_frame_end(es: Seq<(Seq<u8>, SpecValue)>, rest: Seq<u8>, sp: Seq<u8>, j: int)
    requires
        map_frame(es, j, rest, sp),
        j == es.len(),
    ensures
        sp == seq![crate::digits::BYTE_RBRACE] + rest,
        sp.len() >= 1,
        sp[0] == crate::digits::BYTE_RBRACE,
        sp.skip(1) == rest,
{
    assert(crate::value::mapping_body(es, j) == Seq::<u8>::empty());
    assert(sp =~= seq![crate::digits::BYTE_RBRACE] + rest);
    assert(sp.skip(1) =~= rest);
}

/// A sequence key is the encoding of its index as an integer.
pub(crate) proof fn lemma_key_is_int_encoding(j: int)
    requires
        0 <= j <= i64::MAX,
    ensures
        key_encoding(j as nat) == crate::value::encoding(crate::value::SpecValue::Int(j)),
        key_encoding(j as nat).len() >= 4,
{
    crate::digits::lemma_dec_digits_shape(j as nat);
    assert(key_encoding(j as nat) =~= crate::value::encoding(crate::value::SpecValue::Int(j)));
}

/// Under a sequence frame with elements left, the input opens with the
/// position's key encoding followed by the element and the rest of the
/// frame.
proof fn lemma_seq_frame_step(s: Seq<u8>, p: int)
    ensures
        forall|ms: Seq<SpecValue>, rest: Seq<u8>|
            #[trigger] seq_frame(ms, p, rest, s) && p < ms.len() ==> {
                &&& key_encoding(p as nat).is_prefix_of(s)
                &&& crate::value::encoding(ms[p]).is_prefix_of(
                    s.skip(key_encoding(p as nat).len() as int),
                )
                &&& seq_frame(
                    ms,
                    p + 1,
                    rest,
                    s.skip(key_encoding(p as nat).len() as int).skip(
                        crate::value::encoding(ms[p]).len() as int,
                    ),
                )
            },
{
    assert forall|ms: Seq<SpecValue>, rest: Seq<u8>|
        #[trigger] seq_frame(ms, p, rest, s) && p < ms.len() implies {
        &&& key_encoding(p as nat).is_prefix_of(s)
        &&& crate::value::encoding(ms[p]).is_prefix_of(
            s.skip(key_encoding(p as nat).len() as int),
        )
        &&& seq_frame(
            ms,
            p + 1,
            rest,
            s.skip(key_encoding(p as nat).len() as int).skip(
                crate::value::encoding(ms[p]).len() as int,
            ),
        )
    } by {
        let ke = key_encoding(p as nat);
        let ve = crate::value::encoding(ms[p]);
        let tail = crate::value::sequence_body(ms, p + 1) + seq![crate::digits::BYTE_RBRACE]
            + rest;
        assert(crate::value::sequence_body(ms, p) == ke + ve + crate::value::sequence_body(
            ms,
            p + 1,
        ));
        assert(s == (ke + ve + crate::value::sequence_body(ms, p + 1))
            + seq![crate::digits::BYTE_RBRACE] + rest);
        assert(s =~= ke + (ve + tail));
        assert(ke =~= s.take(ke.len() as int));
        assert(s.skip(ke.len() as int) =~= ve + tail);
        assert(ve =~= s.skip(ke.len() as int).take(ve.len() as int));
        assert(s.skip(ke.len() as int).skip(ve.len() as int) =~= tail);
    }
}

/// Under a mapping frame with entries left, the input opens with the
/// position's key as a byte string followed by the entry's value frame.
proof fn lemma_map_frame_step(s: Seq<u8>, p: int)
    ensures
        forall|es: Seq<(Seq<u8>, SpecValue)>, rest: Seq<u8>|
            #[trigger] map_frame(es, p, rest, s) && p < es.len() ==> {
                &&& str_encoding(es[p].0).is_prefix_of(s)
                &&& map_value_frame(es, p, rest, s.skip(str_encoding(es[p].0).len() as int))
            },
{
    assert forall|es: Seq<(Seq<u8>, SpecValue)>, rest: Seq<u8>|
        #[trigger] map_frame(es, p, rest, s) && p < es.len() implies {
        &&& str_encoding(es[p].0).is_prefix_of(s)
        &&& map_value_frame(es, p, rest, s.skip(str_encoding(es[p].0).len() as int))
    } by {
        let ke = str_encoding(es[p].0);
        let tail = crate::value::entry_value(es, p) + seq![crate::digits::BYTE_RBRACE] + rest;
        assert(crate::value::mapping_body(es, p) == ke + crate::value::entry_value(es, p));
        assert(s == (ke + crate::value::entry_value(es, p)) + seq![crate::digits::BYTE_RBRACE]
            + rest);
        assert(s =~= ke + tail);
        assert(ke =~= s.take(ke.len() as int));
        assert(s.skip(ke.len() as int) =~= tail);
    }
}

/// Under a mapping value frame, the input opens with the entry's value
/// followed by the rest of the mapping frame.
proof fn lemma_map_value_frame_step(s: Seq<u8>, p: int)
    ensures
        forall|es: Seq<(Seq<u8>, SpecValue)>, rest: Seq<u8>|
            #[trigger] map_value_frame(es, p, rest, s) ==> {
                &&& crate::value::encoding(es[p].1).is_prefix_of(s)
                &&& map_frame(
                    es,
                    p + 1,
                    rest,
                    s.skip(crate::value::encoding(es[p].1).len() as int),
                )
            },
{
    assert forall|es: Seq<(Seq<u8>, SpecValue)>, rest: Seq<u8>|
        #[trigger] map_value_frame(es, p, rest, s) implies {
        &&& crate::value::encoding(es[p].1).is_prefix_of(s)
        &&& map_frame(es, p + 1, rest, s.skip(crate::value::encoding(es[p].1).len() as int))
    } by {
        let ve = crate::value::encoding(es[p].1);
        let tail = crate::value::mapping_body(es, p + 1) + seq![crate::digits::BYTE_RBRACE]
            + rest;
        assert(crate::value::entry_value(es, p) == ve + crate::value::mapping_body(es, p + 1));
        assert(s == (ve + crate::value::mapping_body(es, p + 1))
            + seq![crate::digits::BYTE_RBRACE] + rest);
        assert(s =~= ve + tail);
        assert(ve =~= s.take(ve.len() as int));
        assert(s.skip(ve.len() as int) =~= tail);
    }
}

} // verus!
