//! The in-memory value model and the canonical wire encoding.
//!
//! A [`PhpValue`] is one of the six wire shapes: null, boolean, 64-bit
//! integer, float (kept as its decimal literal, see [`FloatLit`]), raw byte
//! string, or array. Arrays come in two logical kinds: a *sequence* (keys are
//! the consecutive integers `0..n`) and a *mapping* (keys are byte strings).
//! An empty array is always represented as an empty sequence, which is how
//! the wire form `a:0:{}` reads back.
//!
//! Contracts speak about values through their mathematical image: a
//! [`SpecValue`], built from `Seq` and `int`, given by [`value_model`].
//! [`encoding`] gives the exact bytes PHP's own serializer produces for such
//! an image; the encoder is proved to emit them and the decoder is proved to
//! read them back.

use vstd::prelude::*;

use crate::digits::{
    all_digits, dec_digits, i64_dec_text, BYTE_0, BYTE_1, BYTE_COLON, BYTE_DOT, BYTE_LBRACE,
    BYTE_MINUS, BYTE_QUOTE, BYTE_RBRACE, BYTE_SEMI, TAG_ARRAY, TAG_BOOL, TAG_FLOAT, TAG_INT,
    TAG_NULL, TAG_STR,
};

verus! {

/// A float, kept as the decimal literal that carries it on the wire: an
/// optional leading minus, an integer digit run, and an optional fractional
/// digit run. `d:5;` reads as `5` with no fraction, `d:5.0;` as `5` with
/// fraction `0`; converting the literal to and from a machine float is left
/// to the caller, so the verified core never loses a digit.
#[derive(Debug, PartialEq, Eq)]
pub struct FloatLit {
    /// True when the literal carries a leading `-`.
    pub neg: bool,
    /// The digits before the decimal dot; at least one, each `0`..=`9`.
    pub int_digits: Vec<u8>,
    /// The digits after the decimal dot, if the dot is present at all.
    pub frac_digits: Option<Vec<u8>>,
}

/// One decoded value of the wire format.
#[derive(Debug, PartialEq, Eq)]
pub enum PhpValue {
    /// The null literal `N;`.
    Null,
    /// A boolean, `b:0;` or `b:1;`.
    Bool(bool),
    /// A 64-bit signed integer, `i:<digits>;`.
    Int(i64),
    /// A float, `d:<decimal literal>;`.
    Float(FloatLit),
    /// A raw byte string, `s:<len>:"<bytes>";`. The content is a byte count
    /// of arbitrary bytes, not required to be valid text.
    Bytes(Vec<u8>),
    /// A sequence array: values keyed by the consecutive integers `0..n`.
    Sequence(Vec<PhpValue>),
    /// A mapping array: values keyed by byte strings. Never empty; the empty
    /// array is represented as an empty [`PhpValue::Sequence`].
    Mapping(Vec<(Vec<u8>, PhpValue)>),
}

/// The mathematical image of a [`FloatLit`].
#[verifier::ext_equal]
pub struct SpecFloat {
    /// True when the literal carries a leading `-`.
    pub neg: bool,
    /// The digits before the decimal dot.
    pub int_digits: Seq<u8>,
    /// The digits after the decimal dot, if the dot is present.
    pub frac_digits: Option<Seq<u8>>,
}

/// The mathematical image of a [`PhpValue`]: the same tree, with byte
/// vectors replaced by `Seq<u8>` and children by `Seq`s of images.
#[verifier::ext_equal]
pub enum SpecValue {
    /// Image of [`PhpValue::Null`].
    Null,
    /// Image of [`PhpValue::Bool`].
    Bool(bool),
    /// Image of [`PhpValue::Int`].
    Int(int),
    /// Image of [`PhpValue::Float`].
    Float(SpecFloat),
    /// Image of [`PhpValue::Bytes`].
    Bytes(Seq<u8>),
    /// Image of [`PhpValue::Sequence`].
    Sequence(Seq<SpecValue>),
    /// Image of [`PhpValue::Mapping`].
    Mapping(Seq<(Seq<u8>, SpecValue)>),
}

/// The image of a float literal.
pub open spec fn float_model(f: FloatLit) -> SpecFloat {
    SpecFloat {
        neg: f.neg,
        int_digits: f.int_digits@,
        frac_digits: match f.frac_digits {
            Some(d) => Some(d@),
            None => None,
        },
    }
}

/// The image of a value: what the contracts of the codec speak about.
pub open spec fn value_model(v: PhpValue) -> SpecValue
    decreases v,
{
    match v {
        PhpValue::Null => SpecValue::Null,
        PhpValue::Bool(b) => SpecValue::Bool(b),
        PhpValue::Int(n) => SpecValue::Int(n as int),
        PhpValue::Float(f) => SpecValue::Float(float_model(f)),
        PhpValue::Bytes(data) => SpecValue::Bytes(data@),
        PhpValue::Sequence(elems) => SpecValue::Sequence(sequence_models(elems@)),
        PhpValue::Mapping(entries) => SpecValue::Mapping(mapping_models(entries@)),
    }
}

/// The images of the elements of a sequence, in order.
pub open spec fn sequence_models(elems: Seq<PhpValue>) -> Seq<SpecValue>
    decreases elems,
{
    if elems.len() == 0 {
        Seq::<SpecValue>::empty()
    } else {
        sequence_models(elems.drop_last()).push(value_model(elems.last()))
    }
}

/// The image of one mapping entry.
pub open spec fn entry_model(entry: (Vec<u8>, PhpValue)) -> (Seq<u8>, SpecValue)
    decreases entry,
{
    (entry.0@, value_model(entry.1))
}

/// The images of the entries of a mapping, in order.
pub open spec fn mapping_models(entries: Seq<(Vec<u8>, PhpValue)>) -> Seq<(Seq<u8>, SpecValue)>
    decreases entries,
{
    if entries.len() == 0 {
        Seq::<(Seq<u8>, SpecValue)>::empty()
    } else {
        mapping_models(entries.drop_last()).push(entry_model(entries.last()))
    }
}

/// Appending an element appends its image.
pub proof fn lemma_sequence_models_push(elems: Seq<PhpValue>, x: PhpValue)
    ensures
        sequence_models(elems.push(x)) == sequence_models(elems).push(value_model(x)),
{
    assert(elems.push(x).drop_last() =~= elems);
    assert(elems.push(x).last() == x);
}

/// Appending an entry appends its image.
pub proof fn lemma_mapping_models_push(entries: Seq<(Vec<u8>, PhpValue)>, x: (Vec<u8>, PhpValue))
    ensures
        mapping_models(entries.push(x)) == mapping_models(entries).push(
            (x.0@, value_model(x.1)),
        ),
{
    assert(entries.push(x).drop_last() =~= entries);
    assert(entries.push(x).last() == x);
    assert(entry_model(x) == (x.0@, value_model(x.1)));
    assert(mapping_models(entries.push(x)) == mapping_models(entries).push(entry_model(x)));
}

/// Pointwise reading of [`sequence_models`].
pub proof fn lemma_sequence_models_index(elems: Seq<PhpValue>)
    ensures
        sequence_models(elems).len() == elems.len(),
        forall|i: int| 0 <= i < elems.len()
            ==> #[trigger] sequence_models(elems)[i] == value_model(elems[i]),
    decreases elems,
{
    if elems.len() > 0 {
        lemma_sequence_models_index(elems.drop_last());
    }
}

/// Pointwise reading of [`mapping_models`].
pub proof fn lemma_mapping_models_index(entries: Seq<(Vec<u8>, PhpValue)>)
    ensures
        mapping_models(entries).len() == entries.len(),
        forall|i: int| 0 <= i < entries.len()
            ==> #[trigger] mapping_models(entries)[i]
                == (entries[i].0@, value_model(entries[i].1)),
    decreases entries,
{
    if entries.len() > 0 {
        lemma_mapping_models_index(entries.drop_last());
        assert(forall|i: int|
            0 <= i < entries.len() - 1 ==> #[trigger] entries.drop_last()[i] == entries[i]);
        assert(mapping_models(entries).last() == entry_model(entries.last()));
    }
}

/// Well-formedness of a float image: non-empty digit runs on both sides of
/// the dot, where present.
pub open spec fn wf_float(f: SpecFloat) -> bool {
    &&& f.int_digits.len() >= 1
    &&& all_digits(f.int_digits)
    &&& match f.frac_digits {
        Some(d) => d.len() >= 1 && all_digits(d),
        None => true,
    }
}

/// Well-formedness of a value image: float literals are digit runs, a
/// mapping is never empty (the empty array reads back as an empty
/// sequence), and aggregate sizes stay within what a length prefix can
/// carry through a machine-sized count.
pub open spec fn wf_value(m: SpecValue) -> bool
    decreases m,
{
    match m {
        SpecValue::Null => true,
        SpecValue::Bool(_) => true,
        SpecValue::Int(n) => i64::MIN <= n <= i64::MAX,
        SpecValue::Float(f) => wf_float(f),
        SpecValue::Bytes(data) => data.len() <= usize::MAX,
        SpecValue::Sequence(elems) => {
            &&& elems.len() <= usize::MAX
            &&& elems.len() <= i64::MAX
            &&& forall|i: int| 0 <= i < elems.len() ==> wf_value(#[trigger] elems[i])
        },
        SpecValue::Mapping(entries) => {
            &&& 1 <= entries.len() <= usize::MAX
            &&& forall|i: int|
                0 <= i < entries.len() ==> (#[trigger] entries[i]).0.len() <= usize::MAX
                    && wf_value(entries[i].1)
        },
    }
}

/// The decimal literal of a float, exactly as written between `d:` and `;`.
pub open spec fn float_text(f: SpecFloat) -> Seq<u8> {
    (if f.neg {
        seq![BYTE_MINUS]
    } else {
        Seq::<u8>::empty()
    }) + f.int_digits + (match f.frac_digits {
        Some(d) => seq![BYTE_DOT] + d,
        None => Seq::<u8>::empty(),
    })
}

/// The tail of a byte string's wire form, after the `s:` tag:
/// `<len>:"<bytes>";`. The length is the exact byte count; the bytes stand
/// verbatim between the quotes.
pub open spec fn str_tail(data: Seq<u8>) -> Seq<u8> {
    dec_digits(data.len()) + seq![BYTE_COLON, BYTE_QUOTE] + data + seq![BYTE_QUOTE, BYTE_SEMI]
}

/// The wire form of a byte string: `s:<len>:"<bytes>";`.
pub open spec fn str_encoding(data: Seq<u8>) -> Seq<u8> {
    seq![TAG_STR, BYTE_COLON] + str_tail(data)
}

/// The tail of an array header, after the `a:` tag: `<count>:{`.
pub open spec fn header_tail(count: nat) -> Seq<u8> {
    dec_digits(count) + seq![BYTE_COLON, BYTE_LBRACE]
}

/// The full wire form of an array opening: `a:<count>:{`.
pub open spec fn array_open(count: nat) -> Seq<u8> {
    seq![TAG_ARRAY, BYTE_COLON] + header_tail(count)
}

/// The wire form of a sequence key: the position written as `i:<digits>;`.
pub open spec fn key_encoding(idx: nat) -> Seq<u8> {
    seq![TAG_INT, BYTE_COLON] + dec_digits(idx) + seq![BYTE_SEMI]
}

/// The tail of an integer's wire form, after the `i:` tag.
pub open spec fn int_tail(n: int) -> Seq<u8> {
    i64_dec_text(n) + seq![BYTE_SEMI]
}

/// The tail of a float's wire form, after the `d:` tag.
pub open spec fn float_tail(f: SpecFloat) -> Seq<u8> {
    float_text(f) + seq![BYTE_SEMI]
}

/// The exact bytes PHP's serializer produces for the value imaged by `m`.
pub open spec fn encoding(m: SpecValue) -> Seq<u8>
    decreases m, 0int,
{
    match m {
        SpecValue::Null => seq![TAG_NULL, BYTE_SEMI],
        SpecValue::Bool(b) => if b {
            seq![TAG_BOOL, BYTE_COLON, BYTE_1, BYTE_SEMI]
        } else {
            seq![TAG_BOOL, BYTE_COLON, BYTE_0, BYTE_SEMI]
        },
        SpecValue::Int(n) => seq![TAG_INT, BYTE_COLON] + int_tail(n),
        SpecValue::Float(f) => seq![TAG_FLOAT, BYTE_COLON] + float_tail(f),
        SpecValue::Bytes(data) => str_encoding(data),
        SpecValue::Sequence(elems) => array_open(elems.len()) + sequence_body(elems, 0)
            + seq![BYTE_RBRACE],
        SpecValue::Mapping(entries) => array_open(entries.len()) + mapping_body(entries, 0)
            + seq![BYTE_RBRACE],
    }
}

/// The body of a sequence array from element `j` on: each element's
/// position as an integer key immediately followed by the element.
pub open spec fn sequence_body(elems: Seq<SpecValue>, j: int) -> Seq<u8>
    decreases elems, elems.len() - j,
{
    if j < 0 || j >= elems.len() {
        Seq::<u8>::empty()
    } else {
        key_encoding(j as nat) + encoding(elems[j]) + sequence_body(elems, j + 1)
    }
}

/// The body of a mapping array from entry `j` on: each key as a byte
/// string immediately followed by its value.
pub open spec fn mapping_body(entries: Seq<(Seq<u8>, SpecValue)>, j: int) -> Seq<u8>
    decreases entries, entries.len() - j,
{
    if j < 0 || j >= entries.len() {
        Seq::<u8>::empty()
    } else {
        str_encoding(entries[j].0) + entry_value(entries, j)
    }
}

/// The value of entry `j` followed by the remaining mapping body; split out
/// so that each recursive step peels one thing at a time.
pub open spec fn entry_value(entries: Seq<(Seq<u8>, SpecValue)>, j: int) -> Seq<u8>
    decreases entries, entries.len() - j, 0int,
{
    if j < 0 || j >= entries.len() {
        Seq::<u8>::empty()
    } else {
        encoding(entries[j].1) + mapping_body(entries, j + 1)
    }
}

/// Frames the unread input of a sequence-array parse that still has the
/// elements `j..` of `ms` to read, followed by the closing brace and
/// whatever comes after the array: used to carry canonical-input facts
/// through the element loop.
pub open spec fn seq_frame(ms: Seq<SpecValue>, j: int, rest: Seq<u8>, s: Seq<u8>) -> bool {
    &&& ms.len() <= i64::MAX
    &&& forall|i: int| 0 <= i < ms.len() ==> wf_value(#[trigger] ms[i])
    &&& 0 <= j <= ms.len()
    &&& s == sequence_body(ms, j) + seq![BYTE_RBRACE] + rest
}

/// Frames the unread input of a mapping-array parse that still has the
/// entries `j..` of `es` to read.
pub open spec fn map_frame(es: Seq<(Seq<u8>, SpecValue)>, j: int, rest: Seq<u8>, s: Seq<u8>) -> bool {
    &&& es.len() <= usize::MAX
    &&& forall|i: int|
        0 <= i < es.len() ==> (#[trigger] es[i]).0.len() <= usize::MAX && wf_value(es[i].1)
    &&& 0 <= j <= es.len()
    &&& s == mapping_body(es, j) + seq![BYTE_RBRACE] + rest
}

/// Frames the unread input of a mapping-array parse whose entry `j` has had
/// its key read but not yet its value.
pub open spec fn map_value_frame(
    es: Seq<(Seq<u8>, SpecValue)>,
    j: int,
    rest: Seq<u8>,
    s: Seq<u8>,
) -> bool {
    &&& es.len() <= usize::MAX
    &&& forall|i: int|
        0 <= i < es.len() ==> (#[trigger] es[i]).0.len() <= usize::MAX && wf_value(es[i].1)
    &&& 0 <= j < es.len()
    &&& s == entry_value(es, j) + seq![BYTE_RBRACE] + rest
}

/// The wire form of a whole mapping array with entries `es`, including the
/// empty one `a:0:{}`; for non-empty `es` this equals
/// `encoding(SpecValue::Mapping(es))`.
pub open spec fn mapping_encoding(es: Seq<(Seq<u8>, SpecValue)>) -> Seq<u8> {
    array_open(es.len()) + mapping_body(es, 0) + seq![BYTE_RBRACE]
}

/// The one-byte type tag that opens the encoding of `m`.
pub open spec fn tag_of(m: SpecValue) -> u8 {
    match m {
        SpecValue::Null => TAG_NULL,
        SpecValue::Bool(_) => TAG_BOOL,
        SpecValue::Int(_) => TAG_INT,
        SpecValue::Float(_) => TAG_FLOAT,
        SpecValue::Bytes(_) => TAG_STR,
        SpecValue::Sequence(_) => TAG_ARRAY,
        SpecValue::Mapping(_) => TAG_ARRAY,
    }
}

/// Every encoding is at least two bytes and opens with its type tag,
/// followed by `:` everywhere but in the null literal.
pub proof fn lemma_encoding_head(m: SpecValue)
    ensures
        encoding(m).len() >= 2,
        encoding(m)[0] == tag_of(m),
        m is Null ==> encoding(m) == seq![TAG_NULL, BYTE_SEMI],
        !(m is Null) ==> encoding(m)[1] == BYTE_COLON,
{
    match m {
        SpecValue::Null => {},
        SpecValue::Bool(_) => {},
        SpecValue::Int(n) => {
            assert(encoding(m)[0] == seq![TAG_INT, BYTE_COLON][0]);
            assert(encoding(m)[1] == seq![TAG_INT, BYTE_COLON][1]);
        },
        SpecValue::Float(f) => {
            assert(encoding(m)[0] == seq![TAG_FLOAT, BYTE_COLON][0]);
            assert(encoding(m)[1] == seq![TAG_FLOAT, BYTE_COLON][1]);
        },
        SpecValue::Bytes(data) => {
            assert(encoding(m)[0] == seq![TAG_STR, BYTE_COLON][0]);
            assert(encoding(m)[1] == seq![TAG_STR, BYTE_COLON][1]);
        },
        SpecValue::Sequence(elems) => {
            assert(array_open(elems.len())[0] == seq![TAG_ARRAY, BYTE_COLON][0]);
            assert(array_open(elems.len())[1] == seq![TAG_ARRAY, BYTE_COLON][1]);
            assert(encoding(m)[0] == array_open(elems.len())[0]);
            assert(encoding(m)[1] == array_open(elems.len())[1]);
        },
        SpecValue::Mapping(entries) => {
            assert(array_open(entries.len())[0] == seq![TAG_ARRAY, BYTE_COLON][0]);
            assert(array_open(entries.len())[1] == seq![TAG_ARRAY, BYTE_COLON][1]);
            assert(encoding(m)[0] == array_open(entries.len())[0]);
            assert(encoding(m)[1] == array_open(entries.len())[1]);
        },
    }
}



/// Checks that a run of bytes is all ASCII digits.
fn all_digits_check(d: &Vec<u8>) -> (b: bool)
    ensures
        b == all_digits(d@),
{
    let mut i: usize = 0;
    while i < d.len()
        invariant
            0 <= i <= d@.len(),
            forall|j: int| 0 <= j < i ==> crate::digits::is_digit(#[trigger] d@[j]),
        decreases d@.len() - i,
    {
        let b = d[i];
        if b < BYTE_0 || b > crate::digits::BYTE_9 {
            return false;
        }
        i = i + 1;
    }
    true
}

/// Checks well-formedness of a value: whether [`wf_value`] holds of its
/// image, so that it can be serialized to a canonical encoding.
#[verifier::loop_isolation(false)]
pub fn is_well_formed(v: &PhpValue) -> (b: bool)
    ensures
        b == wf_value(value_model(*v)),
    decreases *v,
{
    match v {
        PhpValue::Null => true,
        PhpValue::Bool(_) => true,
        PhpValue::Int(_) => true,
        PhpValue::Float(f) => {
            if f.int_digits.len() == 0 {
                return false;
            }
            if !all_digits_check(&f.int_digits) {
                return false;
            }
            match &f.frac_digits {
                Some(d) => d.len() >= 1 && all_digits_check(d),
                None => true,
            }
        },
        PhpValue::Bytes(data) => {
            proof {
                assert(data.len() == data@.len());
            }
            true
        },
        PhpValue::Sequence(elems) => {
            proof {
                lemma_sequence_models_index(elems@);
            }
            if (elems.len() as u64) > (i64::MAX as u64) {
                return false;
            }
            let ghost ms = sequence_models(elems@);
            let mut i: usize = 0;
            while i < elems.len()
                invariant
                    0 <= i <= elems@.len(),
                    forall|j: int| 0 <= j < i ==> wf_value(#[trigger] ms[j]),
                decreases elems@.len() - i,
            {
                if !is_well_formed(&elems[i]) {
                    proof {
                        assert(ms[i as int] == value_model(elems@[i as int]));
                    }
                    return false;
                }
                i = i + 1;
            }
            true
        },
        PhpValue::Mapping(entries) => {
            proof {
                lemma_mapping_models_index(entries@);
            }
            if entries.len() == 0 {
                return false;
            }
            let ghost es = mapping_models(entries@);
            proof {
                assert forall|j: int| 0 <= j < es.len() implies (#[trigger] es[j]).0.len()
                    <= usize::MAX by {
                    assert(entries@[j].0.len() == entries@[j].0@.len());
                }
            }
            let mut i: usize = 0;
            while i < entries.len()
                invariant
                    0 <= i <= entries@.len(),
                    forall|j: int| 0 <= j < i ==> wf_value((#[trigger] es[j]).1),
                decreases entries@.len() - i,
            {
                if !is_well_formed(&entries[i].1) {
                    proof {
                        assert(es[i as int] == (
                            entries@[i as int].0@,
                            value_model(entries@[i as int].1),
                        ));
                    }
                    return false;
                }
                i = i + 1;
            }
            true
        },
    }
}

} // verus!
