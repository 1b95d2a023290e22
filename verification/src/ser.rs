//! Serialization: from [`PhpValue`]s to wire bytes.
//!
//! [`PhpSerializer`] mirrors the decoder tag-for-tag in the write
//! direction. Every aggregate is length-prefixed before its body, so the
//! element count is always known before the opening `a:<count>:{` is
//! written; [`NumericArraySerializer`] keeps the running index of a
//! sequence. [`to_vec`] and [`to_writer`] are the entry points: they are
//! proved to produce exactly [`encoding`] of the value, the literal bytes
//! PHP's own serializer emits.

use vstd::prelude::*;

use crate::digits::{
    i64_to_text, u64_to_digits, BYTE_COLON, BYTE_LBRACE, BYTE_MINUS, BYTE_QUOTE, BYTE_RBRACE,
    BYTE_SEMI, TAG_ARRAY, TAG_BOOL, TAG_FLOAT, TAG_INT, TAG_NULL, TAG_STR,
};
use crate::error::Error;
use crate::value::{
    array_open, encoding, float_model, key_encoding, str_encoding, value_model, wf_float,
    wf_value, FloatLit, PhpValue, SpecValue,
};

verus! {

/// Central serializer structure: appends wire bytes to an owned output
/// buffer.
#[derive(Debug)]
pub struct PhpSerializer {
    output: Vec<u8>,
}

impl PhpSerializer {
    /// The bytes written so far.
    pub closed spec fn out(self) -> Seq<u8> {
        self.output@
    }

    /// Create a new serializer appending to the given buffer.
    pub fn new(output: Vec<u8>) -> (r: PhpSerializer)
        ensures
            r.out() == output@,
    {
        PhpSerializer { output }
    }

    /// Hand back the buffer with everything written.
    pub fn into_output(self) -> (r: Vec<u8>)
        ensures
            r@ == self.out(),
    {
        self.output
    }

    /// Append raw bytes to the output.
    fn append(&mut self, bytes: &[u8])
        ensures
            final(self).out() == old(self).out() + bytes@,
    {
        let ghost out0 = self.output@;
        let mut i: usize = 0;
        while i < bytes.len()
            invariant
                0 <= i <= bytes@.len(),
                self.output@ == out0 + bytes@.take(i as int),
            decreases bytes@.len() - i,
        {
            let b = bytes[i];
            self.output.push(b);
            proof {
                assert(self.output@ =~= out0 + bytes@.take(i + 1));
            }
            i = i + 1;
        }
        proof {
            assert(bytes@.take(bytes@.len() as int) =~= bytes@);
        }
    }

    /// Append one byte to the output.
    fn append_byte(&mut self, b: u8)
        ensures
            final(self).out() == old(self).out() + seq![b],
    {
        self.output.push(b);
        proof {
            assert(self.output@ =~= old(self).output@ + seq![b]);
        }
    }

    /// Write a boolean as `b:0;` or `b:1;`.
    pub fn serialize_bool(&mut self, v: bool) -> (r: Result<(), Error>)
        ensures
            r == Ok::<(), Error>(()),
            final(self).out() == old(self).out() + encoding(SpecValue::Bool(v)),
    {
        self.append_byte(TAG_BOOL);
        self.append_byte(BYTE_COLON);
        if v {
            self.append_byte(crate::digits::BYTE_1);
        } else {
            self.append_byte(crate::digits::BYTE_0);
        }
        self.append_byte(BYTE_SEMI);
        proof {
            assert(self.out() =~= old(self).out() + encoding(SpecValue::Bool(v)));
        }
        Ok(())
    }

    /// Write a signed integer as `i:<digits>;`.
    pub fn serialize_i64(&mut self, v: i64) -> (r: Result<(), Error>)
        ensures
            r == Ok::<(), Error>(()),
            final(self).out() == old(self).out() + encoding(SpecValue::Int(v as int)),
    {
        self.append_byte(TAG_INT);
        self.append_byte(BYTE_COLON);
        let digits = i64_to_text(v);
        self.append(digits.as_slice());
        self.append_byte(BYTE_SEMI);
        proof {
            assert(self.out() =~= old(self).out() + encoding(SpecValue::Int(v as int)));
        }
        Ok(())
    }

    /// Write an unsigned integer as `i:<digits>;`. Values above the signed
    /// 64-bit range are written faithfully, though reading them back fails,
    /// as PHP integers are signed.
    pub fn serialize_u64(&mut self, v: u64) -> (r: Result<(), Error>)
        ensures
            r == Ok::<(), Error>(()),
            final(self).out() == old(self).out() + seq![TAG_INT, BYTE_COLON]
                + crate::digits::dec_digits(v as nat) + seq![BYTE_SEMI],
            v <= i64::MAX ==> final(self).out() == old(self).out() + encoding(
                SpecValue::Int(v as int),
            ),
    {
        self.append_byte(TAG_INT);
        self.append_byte(BYTE_COLON);
        let digits = u64_to_digits(v);
        self.append(digits.as_slice());
        self.append_byte(BYTE_SEMI);
        proof {
            assert(self.out() =~= old(self).out() + seq![TAG_INT, BYTE_COLON]
                + crate::digits::dec_digits(v as nat) + seq![BYTE_SEMI]);
            if v <= i64::MAX {
                assert(self.out() =~= old(self).out() + encoding(SpecValue::Int(v as int)));
            }
        }
        Ok(())
    }

    /// Write a float literal as `d:<decimal literal>;`, exactly as carried:
    /// a whole-number literal keeps its dot omitted.
    pub fn serialize_float_lit(&mut self, f: &FloatLit) -> (r: Result<(), Error>)
        requires
            wf_float(float_model(*f)),
        ensures
            r == Ok::<(), Error>(()),
            final(self).out() == old(self).out() + encoding(
                SpecValue::Float(float_model(*f)),
            ),
    {
        self.append_byte(TAG_FLOAT);
        self.append_byte(BYTE_COLON);
        if f.neg {
            self.append_byte(BYTE_MINUS);
        }
        self.append(f.int_digits.as_slice());
        match &f.frac_digits {
            Some(d) => {
                self.append_byte(crate::digits::BYTE_DOT);
                self.append(d.as_slice());
            },
            None => {},
        }
        self.append_byte(BYTE_SEMI);
        proof {
            assert(self.out() =~= old(self).out() + encoding(SpecValue::Float(float_model(*f))));
        }
        Ok(())
    }

    /// Write a raw byte string as `s:<byte length>:"<bytes>";`; the content
    /// goes out verbatim, whatever bytes it holds.
    pub fn serialize_bytes(&mut self, v: &[u8]) -> (r: Result<(), Error>)
        ensures
            r == Ok::<(), Error>(()),
            final(self).out() == old(self).out() + str_encoding(v@),
    {
        self.append_byte(TAG_STR);
        self.append_byte(BYTE_COLON);
        let len = v.len();
        let digits = u64_to_digits(len as u64);
        self.append(digits.as_slice());
        self.append_byte(BYTE_COLON);
        self.append_byte(BYTE_QUOTE);
        self.append(v);
        self.append_byte(BYTE_QUOTE);
        self.append_byte(BYTE_SEMI);
        proof {
            assert(self.out() =~= old(self).out() + str_encoding(v@));
        }
        Ok(())
    }

    /// Write the null literal `N;`, which also stands for "absent".
    pub fn serialize_none(&mut self) -> (r: Result<(), Error>)
        ensures
            r == Ok::<(), Error>(()),
            final(self).out() == old(self).out() + encoding(SpecValue::Null),
    {
        self.append_byte(TAG_NULL);
        self.append_byte(BYTE_SEMI);
        proof {
            assert(self.out() =~= old(self).out() + encoding(SpecValue::Null));
        }
        Ok(())
    }

    /// Open a sequence array of known length: writes `a:<len>:{` and hands
    /// back the index-keeping helper. The format has no unknown-length
    /// aggregate form, so the length is required up front.
    pub fn serialize_seq(&mut self, len: usize) -> (r: Result<NumericArraySerializer, Error>)
        ensures
            final(self).out() == old(self).out() + array_open(len as nat),
            match r {
                Ok(sub) => sub.pos() == 0,
                Err(_) => false,
            },
    {
        self.append_byte(TAG_ARRAY);
        self.append_byte(BYTE_COLON);
        let digits = u64_to_digits(len as u64);
        self.append(digits.as_slice());
        self.append_byte(BYTE_COLON);
        self.append_byte(BYTE_LBRACE);
        proof {
            assert(self.out() =~= old(self).out() + array_open(len as nat));
        }
        Ok(NumericArraySerializer::new())
    }

    /// Open a mapping array of known length: writes `a:<len>:{`. Keys and
    /// values follow in pairs, then [`PhpSerializer::end_array`].
    pub fn serialize_map(&mut self, len: usize) -> (r: Result<(), Error>)
        ensures
            r == Ok::<(), Error>(()),
            final(self).out() == old(self).out() + array_open(len as nat),
    {
        self.append_byte(TAG_ARRAY);
        self.append_byte(BYTE_COLON);
        let digits = u64_to_digits(len as u64);
        self.append(digits.as_slice());
        self.append_byte(BYTE_COLON);
        self.append_byte(BYTE_LBRACE);
        proof {
            assert(self.out() =~= old(self).out() + array_open(len as nat));
        }
        Ok(())
    }

    /// Close an array: writes the terminating `}`.
    pub fn end_array(&mut self) -> (r: Result<(), Error>)
        ensures
            r == Ok::<(), Error>(()),
            final(self).out() == old(self).out() + seq![BYTE_RBRACE],
    {
        self.append_byte(BYTE_RBRACE);
        Ok(())
    }

    /// Write one whole value: the exact bytes of its canonical encoding.
    #[verifier::loop_isolation(false)]
    pub fn serialize_value(&mut self, v: &PhpValue) -> (r: Result<(), Error>)
        requires
            wf_value(value_model(*v)),
        ensures
            r == Ok::<(), Error>(()),
            final(self).out() == old(self).out() + encoding(value_model(*v)),
        decreases *v,
    {
        let ghost out0 = self.out();
        let ghost m = value_model(*v);
        match v {
            PhpValue::Null => self.serialize_none(),
            PhpValue::Bool(b) => self.serialize_bool(*b),
            PhpValue::Int(n) => self.serialize_i64(*n),
            PhpValue::Float(f) => self.serialize_float_lit(f),
            PhpValue::Bytes(data) => self.serialize_bytes(data.as_slice()),
            PhpValue::Sequence(elems) => {
                let ghost ms = crate::value::sequence_models(elems@);
                proof {
                    crate::value::lemma_sequence_models_index(elems@);
                }
                let n = elems.len();
                match self.serialize_seq(n) {
                    Ok(_) => {},
                    Err(e) => {
                        return Err(e);
                    },
                }
                let mut i: usize = 0;
                while i < n
                    invariant
                        0 <= i <= n,
                        self.out() + crate::value::sequence_body(ms, i as int) == out0
                            + array_open(n as nat) + crate::value::sequence_body(ms, 0),
                    decreases n - i,
                {
                    let ghost outa = self.out();
                    self.append_byte(TAG_INT);
                    self.append_byte(BYTE_COLON);
                    let digits = u64_to_digits(i as u64);
                    self.append(digits.as_slice());
                    self.append_byte(BYTE_SEMI);
                    proof {
                        assert(self.out() =~= outa + key_encoding(i as nat));
                    }
                    let ghost outb = self.out();
                    match self.serialize_value(&elems[i]) {
                        Ok(()) => {},
                        Err(e) => {
                            return Err(e);
                        },
                    }
                    proof {
                        assert(crate::value::sequence_body(ms, i as int) == key_encoding(
                            i as nat,
                        ) + encoding(ms[i as int]) + crate::value::sequence_body(ms, i + 1));
                        assert(self.out() + crate::value::sequence_body(ms, i + 1) =~= outa
                            + crate::value::sequence_body(ms, i as int));
                    }
                    i = i + 1;
                }
                match self.end_array() {
                    Ok(()) => {},
                    Err(e) => {
                        return Err(e);
                    },
                }
                proof {
                    assert(crate::value::sequence_body(ms, n as int) == Seq::<u8>::empty());
                    assert(self.out() =~= out0 + encoding(m)) by {
                        assert(self.out() =~= (out0 + array_open(n as nat)
                            + crate::value::sequence_body(ms, 0)) + seq![BYTE_RBRACE]);
                        assert((out0 + array_open(n as nat) + crate::value::sequence_body(
                            ms,
                            0,
                        )) + seq![BYTE_RBRACE] =~= out0 + (array_open(n as nat)
                            + crate::value::sequence_body(ms, 0) + seq![BYTE_RBRACE]));
                    }
                }
                Ok(())
            },
            PhpValue::Mapping(entries) => {
                let ghost es = crate::value::mapping_models(entries@);
                proof {
                    crate::value::lemma_mapping_models_index(entries@);
                }
                let n = entries.len();
                match self.serialize_map(n) {
                    Ok(()) => {},
                    Err(e) => {
                        return Err(e);
                    },
                }
                let mut i: usize = 0;
                while i < n
                    invariant
                        0 <= i <= n,
                        self.out() + crate::value::mapping_body(es, i as int) == out0
                            + array_open(n as nat) + crate::value::mapping_body(es, 0),
                    decreases n - i,
                {
                    let ghost outa = self.out();
                    let entry = &entries[i];
                    match self.serialize_bytes(entry.0.as_slice()) {
                        Ok(()) => {},
                        Err(e) => {
                            return Err(e);
                        },
                    }
                    match self.serialize_value(&entry.1) {
                        Ok(()) => {},
                        Err(e) => {
                            return Err(e);
                        },
                    }
                    proof {
                        assert(crate::value::mapping_body(es, i as int) == str_encoding(
                            es[i as int].0,
                        ) + crate::value::entry_value(es, i as int));
                        assert(crate::value::entry_value(es, i as int) == encoding(
                            es[i as int].1,
                        ) + crate::value::mapping_body(es, i + 1));
                        assert(self.out() + crate::value::mapping_body(es, i + 1) =~= outa
                            + crate::value::mapping_body(es, i as int));
                    }
                    i = i + 1;
                }
                match self.end_array() {
                    Ok(()) => {},
                    Err(e) => {
                        return Err(e);
                    },
                }
                proof {
                    assert(crate::value::mapping_body(es, n as int) == Seq::<u8>::empty());
                    assert(self.out() =~= out0 + encoding(m)) by {
                        assert(self.out() =~= (out0 + array_open(n as nat)
                            + crate::value::mapping_body(es, 0)) + seq![BYTE_RBRACE]);
                        assert((out0 + array_open(n as nat) + crate::value::mapping_body(
                            es,
                            0,
                        )) + seq![BYTE_RBRACE] =~= out0 + (array_open(n as nat)
                            + crate::value::mapping_body(es, 0) + seq![BYTE_RBRACE]));
                    }
                }
                Ok(())
            },
        }
    }
}

/// Helper structure for numeric arrays.
///
/// Arrays are length-prefixed and carry their own terminator, so there is
/// no element delimiter; the helper only keeps the running element index
/// that is written as each element's key.
#[derive(Debug)]
pub struct NumericArraySerializer {
    index: usize,
}

impl NumericArraySerializer {
    /// The index the next element will be keyed with.
    pub closed spec fn pos(self) -> int {
        self.index as int
    }

    /// Create a new numeric array helper starting at index zero.
    pub fn new() -> (r: NumericArraySerializer)
        ensures
            r.pos() == 0,
    {
        NumericArraySerializer { index: 0 }
    }

    /// Write one element: its position as an integer key, immediately
    /// followed by the element itself.
    pub fn serialize_element(&mut self, ser: &mut PhpSerializer, value: &PhpValue) -> (r: Result<
        (),
        Error,
    >)
        requires
            wf_value(value_model(*value)),
            old(self).pos() < usize::MAX,
        ensures
            r == Ok::<(), Error>(()),
            final(self).pos() == old(self).pos() + 1,
            final(ser).out() == old(ser).out() + key_encoding(old(self).pos() as nat) + encoding(
                value_model(*value),
            ),
    {
        let ghost out0 = ser.out();
        ser.append_byte(TAG_INT);
        ser.append_byte(BYTE_COLON);
        let digits = u64_to_digits(self.index as u64);
        ser.append(digits.as_slice());
        ser.append_byte(BYTE_SEMI);
        proof {
            assert(ser.out() =~= out0 + key_encoding(old(self).pos() as nat));
        }
        match ser.serialize_value(value) {
            Ok(()) => {},
            Err(e) => {
                return Err(e);
            },
        }
        self.index = self.index + 1;
        Ok(())
    }

    /// Close the array: writes the terminating `}`.
    pub fn end(self, ser: &mut PhpSerializer) -> (r: Result<(), Error>)
        ensures
            r == Ok::<(), Error>(()),
            final(ser).out() == old(ser).out() + seq![BYTE_RBRACE],
    {
        ser.end_array()
    }
}

/// Serialize a value into a byte vector: exactly the canonical encoding of
/// its image.
pub fn to_vec(value: &PhpValue) -> (r: Result<Vec<u8>, Error>)
    requires
        wf_value(value_model(*value)),
    ensures
        match r {
            Ok(bytes) => bytes@ == encoding(value_model(*value)),
            Err(_) => false,
        },
{
    let mut buf: Vec<u8> = Vec::new();
    match to_writer(&mut buf, value) {
        Ok(()) => {},
        Err(e) => {
            return Err(e);
        },
    }
    Ok(buf)
}

/// Serialize a value by appending its canonical encoding to a sink buffer.
pub fn to_writer(out: &mut Vec<u8>, value: &PhpValue) -> (r: Result<(), Error>)
    requires
        wf_value(value_model(*value)),
    ensures
        r == Ok::<(), Error>(()),
        final(out)@ == old(out)@ + encoding(value_model(*value)),
{
    let mut buf: Vec<u8> = Vec::new();
    core::mem::swap(out, &mut buf);
    let mut ser = PhpSerializer::new(buf);
    match ser.serialize_value(value) {
        Ok(()) => {},
        Err(e) => {
            return Err(e);
        },
    }
    let mut done = ser.into_output();
    core::mem::swap(out, &mut done);
    Ok(())
}

} // verus!
