//! The lookahead reader: the lexical foundation of the decoder.
//!
//! [`Lookahead1`] walks an in-memory byte buffer with at most one byte of
//! pushback. On top of the primitive operations (`peek`, `read1`, `expect`,
//! `read_exact`) it offers the scalar grammar helpers: digit runs, optional
//! signs, length-prefixed byte strings and array headers. Every contract is
//! phrased over [`Lookahead1::remaining`], the sequence of unread bytes.

use vstd::prelude::*;

use crate::buffer::{sv_as_slice, sv_bytes, sv_new, sv_push, DigitBuf};
use crate::digits::{
    all_digits, digit_run_len, digits_value, is_digit, lemma_dec_digits_shape,
    lemma_digit_run_characterization, lemma_digits_value_of_dec, parse_bytes, BYTE_0, BYTE_9,
    BYTE_COLON, BYTE_LBRACE, BYTE_MINUS, BYTE_PLUS, BYTE_QUOTE, BYTE_SEMI,
};
use crate::error::Error;
use crate::value::{header_tail, str_tail};

verus! {

/// Lookahead buffer with integrated lexer.
///
/// Wraps a byte input and supports peeking ahead a single byte; at most one
/// byte of lookahead is ever buffered.
#[derive(Debug)]
pub struct Lookahead1 {
    data: Vec<u8>,
    pos: usize,
    buffer: Option<u8>,
}

impl Lookahead1 {
    /// The bytes not yet consumed: the pushback byte, if any, then the
    /// unread rest of the input.
    pub closed spec fn remaining(self) -> Seq<u8> {
        match self.buffer {
            Some(b) => seq![b] + self.data@.skip(self.pos as int),
            None => self.data@.skip(self.pos as int),
        }
    }

    /// Internal soundness of the cursor and the pushback byte.
    pub closed spec fn wf(self) -> bool {
        &&& self.pos <= self.data@.len()
        &&& (self.buffer is Some ==> self.pos >= 1)
    }

    /// What remains is never longer than the input buffer.
    pub proof fn lemma_remaining_fits(self)
        requires
            self.wf(),
        ensures
            self.remaining().len() <= usize::MAX,
    {
        assert(self.data.len() == self.data@.len());
    }

    /// Creates a reader over the given bytes.
    pub fn new(data: Vec<u8>) -> (r: Lookahead1)
        ensures
            r.wf(),
            r.remaining() == data@,
    {
        let r = Lookahead1 { data, pos: 0, buffer: None };
        proof {
            assert(r.remaining() =~= r.data@);
        }
        r
    }

    /// Fill the pushback byte with the next byte if there is one.
    ///
    /// Has no effect if it is already full; consumes nothing observable.
    pub fn fill(&mut self) -> (r: Result<(), Error>)
        requires
            old(self).wf(),
        ensures
            final(self).wf(),
            final(self).remaining() == old(self).remaining(),
            r == Ok::<(), Error>(()),
            final(self).buffer_state() == (old(self).remaining().len() > 0),
    {
        if self.buffer.is_none() {
            if self.pos < self.data.len() {
                self.buffer = Some(self.data[self.pos]);
                self.pos = self.pos + 1;
                proof {
                    assert(self.remaining() =~= old(self).remaining());
                }
            }
        }
        Ok(())
    }

    /// Whether a byte is buffered; meaningful only inside this module.
    pub closed spec fn buffer_state(self) -> bool {
        self.buffer is Some
    }

    /// Peek at the next byte without removing it. `None` only at true
    /// end-of-input.
    pub fn peek(&mut self) -> (r: Result<Option<u8>, Error>)
        requires
            old(self).wf(),
        ensures
            final(self).wf(),
            final(self).remaining() == old(self).remaining(),
            r == Ok::<Option<u8>, Error>(
                if old(self).remaining().len() > 0 {
                    Some(old(self).remaining()[0])
                } else {
                    None
                },
            ),
    {
        match self.fill() {
            Ok(()) => {},
            Err(e) => {
                return Err(e);
            },
        }
        Ok(self.buffer)
    }

    /// Read a single byte; fails with `UnexpectedEof` at end-of-input.
    pub fn read1(&mut self) -> (r: Result<u8, Error>)
        requires
            old(self).wf(),
        ensures
            final(self).wf(),
            old(self).remaining().len() == 0 ==> r == Err::<u8, Error>(Error::UnexpectedEof)
                && final(self).remaining() == old(self).remaining(),
            old(self).remaining().len() > 0 ==> r == Ok::<u8, Error>(old(self).remaining()[0])
                && final(self).remaining() == old(self).remaining().skip(1),
    {
        match self.fill() {
            Ok(()) => {},
            Err(e) => {
                return Err(e);
            },
        }
        match self.buffer {
            Some(b) => {
                self.buffer = None;
                proof {
                    assert(self.remaining() =~= old(self).remaining().skip(1));
                }
                Ok(b)
            },
            None => Err(Error::UnexpectedEof),
        }
    }

    /// Expect a specific byte; consumes it, and fails with `Unexpected` on a
    /// mismatch and `UnexpectedEof` at end-of-input.
    pub fn expect(&mut self, expected: u8) -> (r: Result<(), Error>)
        requires
            old(self).wf(),
        ensures
            final(self).wf(),
            old(self).remaining().len() == 0 ==> r == Err::<(), Error>(Error::UnexpectedEof)
                && final(self).remaining() == old(self).remaining(),
            old(self).remaining().len() > 0 ==> {
                &&& final(self).remaining() == old(self).remaining().skip(1)
                &&& old(self).remaining()[0] == expected ==> r == Ok::<(), Error>(())
                &&& old(self).remaining()[0] != expected ==> r == Err::<(), Error>(
                    Error::Unexpected { expected, actual: old(self).remaining()[0] },
                )
            },
    {
        let actual = match self.read1() {
            Ok(b) => b,
            Err(e) => {
                return Err(e);
            },
        };
        if actual == expected {
            Ok(())
        } else {
            Err(Error::Unexpected { expected, actual })
        }
    }

    /// Read exactly `n` bytes, folding in the buffered lookahead byte first.
    ///
    /// Checks availability up front: on short input it fails with
    /// `UnexpectedEof` and consumes nothing.
    pub fn read_exact(&mut self, n: usize) -> (r: Result<Vec<u8>, Error>)
        requires
            old(self).wf(),
        ensures
            final(self).wf(),
            old(self).remaining().len() >= n ==> match r {
                Ok(v) => v@ == old(self).remaining().take(n as int)
                    && final(self).remaining() == old(self).remaining().skip(n as int),
                Err(_) => false,
            },
            old(self).remaining().len() < n ==> r == Err::<Vec<u8>, Error>(Error::UnexpectedEof)
                && final(self).remaining() == old(self).remaining(),
    {
        let ghost orem = old(self).remaining();
        let avail = self.data.len() - self.pos;
        let have: usize = if self.buffer.is_some() {
            avail + 1
        } else {
            avail
        };
        if have < n {
            return Err(Error::UnexpectedEof);
        }
        let mut out: Vec<u8> = Vec::new();
        if n == 0 {
            proof {
                assert(out@ =~= orem.take(0));
                assert(self.remaining() =~= orem.skip(0));
            }
            return Ok(out);
        }
        match self.buffer {
            Some(c) => {
                out.push(c);
                self.buffer = None;
                proof {
                    assert(out@ =~= orem.take(1));
                    assert(self.remaining() =~= orem.skip(1));
                }
            },
            None => {},
        }
        proof {
            assert(out@ =~= orem.take(out@.len() as int));
            assert(self.remaining() =~= orem.skip(out@.len() as int));
        }
        while out.len() < n
            invariant
                self.wf(),
                self.buffer is None,
                out@.len() <= n,
                n <= orem.len(),
                out@ == orem.take(out@.len() as int),
                self.remaining() == orem.skip(out@.len() as int),
            decreases n - out@.len(),
        {
            let ghost k = out@.len() as int;
            proof {
                assert(self.remaining().len() == orem.len() - k);
                assert(self.data@.skip(self.pos as int).len() > 0);
                assert(self.data.len() == self.data@.len());
            }
            let b = self.data[self.pos];
            proof {
                assert(self.remaining()[0] == orem[k]);
                assert(b == orem[k]);
            }
            out.push(b);
            self.pos = self.pos + 1;
            proof {
                assert(out@ =~= orem.take(k + 1));
                assert(self.remaining() =~= orem.skip(k).skip(1));
                assert(orem.skip(k).skip(1) =~= orem.skip(k + 1));
            }
        }
        Ok(out)
    }

    /// Reads an unsigned digit run into the buffer: fails on end-of-input
    /// and on a leading non-digit, and stops without consuming at the first
    /// non-digit after at least one digit has been read.
    pub(crate) fn collect_unsigned(&mut self, buf: &mut DigitBuf) -> (r: Result<(), Error>)
        requires
            old(self).wf(),
            sv_bytes(*old(buf)).len() + old(self).remaining().len() <= usize::MAX,
        ensures
            final(self).wf(),
            ({
                let orem = old(self).remaining();
                let k = digit_run_len(orem) as int;
                match r {
                    Ok(()) => orem.len() > 0 && is_digit(orem[0])
                        && sv_bytes(*final(buf)) == sv_bytes(*old(buf)) + orem.take(k)
                        && final(self).remaining() == orem.skip(k),
                    Err(e) => sv_bytes(*final(buf)) == sv_bytes(*old(buf)) && ((orem.len() == 0
                        && e == Error::UnexpectedEof && final(self).remaining() == orem) || (
                    orem.len() > 0 && !is_digit(orem[0]) && e == (Error::ExpectedDigit {
                        actual: orem[0],
                    }) && final(self).remaining() == orem.skip(1))),
                }
            }),
    {
        let ghost orem = old(self).remaining();
        let ghost obuf = sv_bytes(*old(buf));
        let c = match self.read1() {
            Ok(b) => b,
            Err(e) => {
                return Err(e);
            },
        };
        if c < BYTE_0 || c > BYTE_9 {
            return Err(Error::ExpectedDigit { actual: c });
        }
        sv_push(buf, c);
        proof {
            assert(sv_bytes(*buf) =~= obuf + orem.take(1));
            assert(all_digits(orem.take(1))) by {
                assert(orem.take(1)[0] == orem[0]);
            }
        }
        let ghost mut j: int = 1;
        let mut stop = false;
        while !stop
            invariant
                self.wf(),
                1 <= j <= orem.len(),
                orem.len() > 0 && is_digit(orem[0]),
                all_digits(orem.take(j)),
                sv_bytes(*buf) == obuf + orem.take(j),
                self.remaining() == orem.skip(j),
                obuf.len() + orem.len() <= usize::MAX,
                stop ==> j == orem.len() || !is_digit(orem[j]),
            decreases orem.len() - j + (if stop {
                0int
            } else {
                1int
            }),
        {
            let next = match self.peek() {
                Ok(o) => o,
                Err(e) => {
                    return Err(e);
                },
            };
            match next {
                Some(c2) => {
                    proof {
                        assert(c2 == orem[j]);
                    }
                    if c2 >= BYTE_0 && c2 <= BYTE_9 {
                        match self.expect(c2) {
                            Ok(()) => {},
                            Err(e) => {
                                return Err(e);
                            },
                        }
                        sv_push(buf, c2);
                        proof {
                            assert(orem.skip(j).skip(1) =~= orem.skip(j + 1));
                            assert((obuf + orem.take(j)).push(orem[j]) =~= obuf + orem.take(
                                j + 1,
                            ));
                            assert(all_digits(orem.take(j + 1))) by {
                                assert(forall|i: int|
                                    0 <= i < j ==> #[trigger] orem.take(j + 1)[i] == orem.take(
                                        j,
                                    )[i]);
                                assert(orem.take(j + 1)[j] == orem[j]);
                            }
                            j = j + 1;
                        }
                    } else {
                        stop = true;
                    }
                },
                None => {
                    stop = true;
                },
            }
        }
        proof {
            lemma_digit_run_characterization(orem, j);
        }
        Ok(())
    }

    /// Reads a `+` or `-` sign into the buffer if one is next; otherwise
    /// does nothing. Never fails.
    pub(crate) fn collect_sign(&mut self, buf: &mut DigitBuf) -> (r: Result<(), Error>)
        requires
            old(self).wf(),
            sv_bytes(*old(buf)).len() < usize::MAX,
        ensures
            final(self).wf(),
            r == Ok::<(), Error>(()),
            ({
                let orem = old(self).remaining();
                if orem.len() > 0 && (orem[0] == BYTE_PLUS || orem[0] == BYTE_MINUS) {
                    sv_bytes(*final(buf)) == sv_bytes(*old(buf)).push(orem[0])
                        && final(self).remaining() == orem.skip(1)
                } else {
                    sv_bytes(*final(buf)) == sv_bytes(*old(buf)) && final(self).remaining()
                        == orem
                }
            }),
    {
        let next = match self.peek() {
            Ok(o) => o,
            Err(e) => {
                return Err(e);
            },
        };
        match next {
            Some(c) => {
                if c == BYTE_PLUS || c == BYTE_MINUS {
                    sv_push(buf, c);
                    match self.expect(c) {
                        Ok(()) => {},
                        Err(e) => {
                            return Err(e);
                        },
                    }
                }
            },
            None => {},
        }
        Ok(())
    }

    /// Reads the wire form of a byte string after its `s:` tag:
    /// `<len>:"<bytes>";`. The length counts bytes, not characters, and the
    /// content may hold bytes of any value.
    #[verifier::rlimit(60)]
    pub(crate) fn read_raw_string(&mut self) -> (r: Result<Vec<u8>, Error>)
        requires
            old(self).wf(),
        ensures
            final(self).wf(),
            final(self).remaining().len() <= old(self).remaining().len(),
            match r {
                Ok(v) => exists|ld: Seq<u8>|
                    #![trigger all_digits(ld)]
                    ld.len() >= 1 && all_digits(ld) && digits_value(ld) == v@.len()
                        && old(self).remaining() == ld + seq![BYTE_COLON, BYTE_QUOTE] + v@
                        + seq![BYTE_QUOTE, BYTE_SEMI] + final(self).remaining(),
                Err(_) => true,
            },
            forall|data0: Seq<u8>|
                (#[trigger] str_tail(data0)).is_prefix_of(old(self).remaining()) ==> match r {
                    Ok(v) => v@ == data0 && final(self).remaining() == old(self).remaining().skip(
                        str_tail(data0).len() as int,
                    ),
                    Err(_) => false,
                },
    {
        let ghost orem = old(self).remaining();
        proof {
            old(self).lemma_remaining_fits();
            crate::digits::lemma_digit_run_le_len(orem);
            lemma_str_tail_canonical_run(orem);
        }
        let mut buf = sv_new();
        match self.collect_unsigned(&mut buf) {
            Ok(()) => {},
            Err(e) => {
                return Err(e);
            },
        }
        let ghost k = digit_run_len(orem) as int;
        let ghost r1 = self.remaining();
        let digits = sv_as_slice(&buf);
        proof {
            assert(Seq::<u8>::empty() + orem.take(k) =~= orem.take(k));
            assert(digits@ == orem.take(k));
        }
        let length64 = match parse_bytes(digits) {
            Ok(v) => v,
            Err(e) => {
                proof {
                    assert forall|data0: Seq<u8>| !(#[trigger] str_tail(
                        data0,
                    )).is_prefix_of(orem) by {
                        if str_tail(data0).is_prefix_of(orem) {
                            lemma_dec_digits_shape(data0.len());
                            lemma_digits_value_of_dec(data0.len());
                            assert(false);
                        }
                    }
                }
                return Err(e);
            },
        };
        if length64 > usize::MAX as u64 {
            proof {
                assert forall|data0: Seq<u8>| !(#[trigger] str_tail(data0)).is_prefix_of(orem) by {
                    if str_tail(data0).is_prefix_of(orem) {
                        lemma_digits_value_of_dec(data0.len());
                        assert(length64 == data0.len());
                        assert(str_tail(data0).len() <= orem.len());
                        assert(false);
                    }
                }
            }
            return Err(Error::NotAValidNumber);
        }
        let length = length64 as usize;
        match self.expect(BYTE_COLON) {
            Ok(()) => {},
            Err(e) => {
                proof {
                    assert forall|data0: Seq<u8>| !(#[trigger] str_tail(data0)).is_prefix_of(
                        orem,
                    ) by {
                        if str_tail(data0).is_prefix_of(orem) {
                            assert(r1[0] == BYTE_COLON && r1.len() >= 4);
                        }
                    }
                }
                return Err(e);
            },
        }
        let ghost r2 = self.remaining();
        match self.expect(BYTE_QUOTE) {
            Ok(()) => {},
            Err(e) => {
                proof {
                    assert forall|data0: Seq<u8>| !(#[trigger] str_tail(data0)).is_prefix_of(
                        orem,
                    ) by {
                        if str_tail(data0).is_prefix_of(orem) {
                            let m = seq![BYTE_COLON, BYTE_QUOTE] + data0
                                + seq![BYTE_QUOTE, BYTE_SEMI] + orem.skip(
                                str_tail(data0).len() as int,
                            );
                            assert(r2 =~= m.skip(1));
                            assert(r2[0] == BYTE_QUOTE && r2.len() >= 3);
                        }
                    }
                }
                return Err(e);
            },
        }
        let ghost r3 = self.remaining();
        let data = match self.read_exact(length) {
            Ok(v) => v,
            Err(e) => {
                proof {
                    assert forall|data0: Seq<u8>| !(#[trigger] str_tail(data0)).is_prefix_of(
                        orem,
                    ) by {
                        if str_tail(data0).is_prefix_of(orem) {
                            let m = seq![BYTE_COLON, BYTE_QUOTE] + data0
                                + seq![BYTE_QUOTE, BYTE_SEMI] + orem.skip(
                                str_tail(data0).len() as int,
                            );
                            lemma_digits_value_of_dec(data0.len());
                            assert(length == data0.len());
                            assert(r3 =~= m.skip(2));
                            assert(r3.len() >= length);
                        }
                    }
                }
                return Err(e);
            },
        };
        let ghost r4 = self.remaining();
        match self.expect(BYTE_QUOTE) {
            Ok(()) => {},
            Err(e) => {
                proof {
                    assert forall|data0: Seq<u8>| !(#[trigger] str_tail(data0)).is_prefix_of(
                        orem,
                    ) by {
                        if str_tail(data0).is_prefix_of(orem) {
                            let m = seq![BYTE_COLON, BYTE_QUOTE] + data0
                                + seq![BYTE_QUOTE, BYTE_SEMI] + orem.skip(
                                str_tail(data0).len() as int,
                            );
                            lemma_digits_value_of_dec(data0.len());
                            assert(length == data0.len());
                            assert(r3 =~= m.skip(2));
                            assert(r4 == r3.skip(length as int));
                            assert(r4 =~= seq![BYTE_QUOTE, BYTE_SEMI] + orem.skip(
                                str_tail(data0).len() as int,
                            ));
                            assert(r4[0] == BYTE_QUOTE && r4.len() >= 2);
                        }
                    }
                }
                return Err(e);
            },
        }
        let ghost r5 = self.remaining();
        match self.expect(BYTE_SEMI) {
            Ok(()) => {},
            Err(e) => {
                proof {
                    assert forall|data0: Seq<u8>| !(#[trigger] str_tail(data0)).is_prefix_of(
                        orem,
                    ) by {
                        if str_tail(data0).is_prefix_of(orem) {
                            let m = seq![BYTE_COLON, BYTE_QUOTE] + data0
                                + seq![BYTE_QUOTE, BYTE_SEMI] + orem.skip(
                                str_tail(data0).len() as int,
                            );
                            lemma_digits_value_of_dec(data0.len());
                            assert(length == data0.len());
                            assert(r3 =~= m.skip(2));
                            assert(r4 == r3.skip(length as int));
                            assert(r4 =~= seq![BYTE_QUOTE, BYTE_SEMI] + orem.skip(
                                str_tail(data0).len() as int,
                            ));
                            assert(r5 =~= seq![BYTE_SEMI] + orem.skip(
                                str_tail(data0).len() as int,
                            ));
                            assert(r5[0] == BYTE_SEMI && r5.len() >= 1);
                        }
                    }
                }
                return Err(e);
            },
        }
        proof {
            let r6 = self.remaining();
            assert(r1 =~= seq![BYTE_COLON] + r2);
            assert(r2 =~= seq![BYTE_QUOTE] + r3);
            assert(r3 =~= data@ + r4);
            assert(r4 =~= seq![BYTE_QUOTE] + r5);
            assert(r5 =~= seq![BYTE_SEMI] + r6);
            assert(data@.len() == length);
            assert(orem =~= orem.take(k) + orem.skip(k));
            assert(orem == orem.take(k) + seq![BYTE_COLON, BYTE_QUOTE] + data@
                + seq![BYTE_QUOTE, BYTE_SEMI] + r6) by {
                assert(orem.take(k) + seq![BYTE_COLON, BYTE_QUOTE] + data@
                    + seq![BYTE_QUOTE, BYTE_SEMI] + r6 =~= orem.take(k) + (seq![BYTE_COLON]
                    + (seq![BYTE_QUOTE] + (data@ + (seq![BYTE_QUOTE] + (seq![BYTE_SEMI]
                    + r6))))));
                assert(orem.take(k) + (seq![BYTE_COLON] + (seq![BYTE_QUOTE] + (data@ + (
                seq![BYTE_QUOTE] + (seq![BYTE_SEMI] + r6))))) =~= orem.take(k) + r1);
            }
            assert(all_digits(orem.take(k)) && orem.take(k).len() >= 1 && digits_value(
                orem.take(k),
            ) == data@.len());
            assert forall|data0: Seq<u8>| (#[trigger] str_tail(data0)).is_prefix_of(orem)
                implies data@ == data0 && self.remaining() == orem.skip(
                str_tail(data0).len() as int,
            ) by {
                let m = seq![BYTE_COLON, BYTE_QUOTE] + data0 + seq![BYTE_QUOTE, BYTE_SEMI]
                    + orem.skip(str_tail(data0).len() as int);
                lemma_digits_value_of_dec(data0.len());
                assert(length == data0.len());
                assert(r3 =~= m.skip(2));
                assert(data@ == r3.take(length as int));
                assert(m.skip(2).take(length as int) =~= data0);
                assert(data@ =~= data0);
                assert(r4 == r3.skip(length as int));
                assert(r4 =~= seq![BYTE_QUOTE, BYTE_SEMI] + orem.skip(
                    str_tail(data0).len() as int,
                ));
                assert(r6 =~= orem.skip(str_tail(data0).len() as int));
            }
        }
        Ok(data)
    }

    /// Reads an array header after its `a:` tag: the declared element
    /// count, then `:{`.
    pub(crate) fn read_array_header(&mut self) -> (r: Result<usize, Error>)
        requires
            old(self).wf(),
        ensures
            final(self).wf(),
            final(self).remaining().len() <= old(self).remaining().len(),
            match r {
                Ok(n) => exists|ld: Seq<u8>|
                    #![trigger all_digits(ld)]
                    ld.len() >= 1 && all_digits(ld) && digits_value(ld) == n
                        && old(self).remaining() == ld + seq![BYTE_COLON, BYTE_LBRACE] + final(self).remaining(),
                Err(_) => true,
            },
            forall|c: nat|
                (#[trigger] header_tail(c)).is_prefix_of(old(self).remaining()) && c <= usize::MAX
                    ==> match r {
                    Ok(n) => n == c && final(self).remaining() == old(self).remaining().skip(
                        header_tail(c).len() as int,
                    ),
                    Err(_) => false,
                },
    {
        let ghost orem = old(self).remaining();
        proof {
            old(self).lemma_remaining_fits();
            crate::digits::lemma_digit_run_le_len(orem);
            lemma_header_tail_canonical_run(orem);
        }
        let mut buf = sv_new();
        match self.collect_unsigned(&mut buf) {
            Ok(()) => {},
            Err(e) => {
                return Err(e);
            },
        }
        let ghost k = digit_run_len(orem) as int;
        let ghost r1 = self.remaining();
        let digits = sv_as_slice(&buf);
        proof {
            assert(Seq::<u8>::empty() + orem.take(k) =~= orem.take(k));
            assert(digits@ == orem.take(k));
        }
        let count64 = match parse_bytes(digits) {
            Ok(v) => v,
            Err(e) => {
                proof {
                    assert forall|c: nat|
                        !((#[trigger] header_tail(c)).is_prefix_of(orem) && c <= usize::MAX) by {
                        if header_tail(c).is_prefix_of(orem) && c <= usize::MAX {
                            lemma_dec_digits_shape(c);
                            lemma_digits_value_of_dec(c);
                            assert(false);
                        }
                    }
                }
                return Err(e);
            },
        };
        if count64 > usize::MAX as u64 {
            proof {
                assert forall|c: nat|
                    !((#[trigger] header_tail(c)).is_prefix_of(orem) && c <= usize::MAX) by {
                    if header_tail(c).is_prefix_of(orem) && c <= usize::MAX {
                        lemma_digits_value_of_dec(c);
                        assert(count64 == c);
                        assert(false);
                    }
                }
            }
            return Err(Error::NotAValidNumber);
        }
        let count = count64 as usize;
        match self.expect(BYTE_COLON) {
            Ok(()) => {},
            Err(e) => {
                proof {
                    assert forall|c: nat|
                        !((#[trigger] header_tail(c)).is_prefix_of(orem) && c <= usize::MAX) by {
                        if header_tail(c).is_prefix_of(orem) && c <= usize::MAX {
                            assert(r1[0] == BYTE_COLON && r1.len() >= 2);
                        }
                    }
                }
                return Err(e);
            },
        }
        let ghost r2 = self.remaining();
        match self.expect(BYTE_LBRACE) {
            Ok(()) => {},
            Err(e) => {
                proof {
                    assert forall|c: nat|
                        !((#[trigger] header_tail(c)).is_prefix_of(orem) && c <= usize::MAX) by {
                        if header_tail(c).is_prefix_of(orem) && c <= usize::MAX {
                            let m = seq![BYTE_COLON, BYTE_LBRACE] + orem.skip(
                                header_tail(c).len() as int,
                            );
                            assert(r2 =~= m.skip(1));
                            assert(r2[0] == BYTE_LBRACE && r2.len() >= 1);
                        }
                    }
                }
                return Err(e);
            },
        }
        proof {
            let r3 = self.remaining();
            assert(r1 =~= seq![BYTE_COLON] + r2);
            assert(r2 =~= seq![BYTE_LBRACE] + r3);
            assert(orem =~= orem.take(k) + orem.skip(k));
            assert(orem == orem.take(k) + seq![BYTE_COLON, BYTE_LBRACE] + r3) by {
                assert(orem.take(k) + seq![BYTE_COLON, BYTE_LBRACE] + r3 =~= orem.take(k) + (
                seq![BYTE_COLON] + (seq![BYTE_LBRACE] + r3)));
                assert(orem.take(k) + (seq![BYTE_COLON] + (seq![BYTE_LBRACE] + r3)) =~= orem.take(
                    k,
                ) + r1);
            }
            assert(all_digits(orem.take(k)) && orem.take(k).len() >= 1 && digits_value(
                orem.take(k),
            ) == count);
            assert forall|c: nat| (#[trigger] header_tail(c)).is_prefix_of(orem) && c
                <= usize::MAX implies count == c && self.remaining() == orem.skip(
                header_tail(c).len() as int,
            ) by {
                let m = seq![BYTE_COLON, BYTE_LBRACE] + orem.skip(header_tail(c).len() as int);
                lemma_digits_value_of_dec(c);
                assert(count == c);
                assert(r2 =~= m.skip(1));
                assert(r3 =~= orem.skip(header_tail(c).len() as int));
            }
        }
        Ok(count)
    }
}

/// If a canonical byte-string tail prefixes `s`, the digit run of `s` is
/// exactly its length field, and what follows decomposes accordingly.
proof fn lemma_str_tail_canonical_run(s: Seq<u8>)
    ensures
        forall|data0: Seq<u8>|
            (#[trigger] str_tail(data0)).is_prefix_of(s) ==> {
                let d = crate::digits::dec_digits(data0.len());
                &&& s.len() >= str_tail(data0).len()
                &&& str_tail(data0).len() > data0.len() + 4
                &&& s.len() > 0
                &&& is_digit(s[0])
                &&& digit_run_len(s) == d.len()
                &&& s.take(d.len() as int) == d
                &&& s.skip(d.len() as int) == seq![BYTE_COLON, BYTE_QUOTE] + data0
                    + seq![BYTE_QUOTE, BYTE_SEMI] + s.skip(str_tail(data0).len() as int)
            },
{
    assert forall|data0: Seq<u8>| (#[trigger] str_tail(data0)).is_prefix_of(s) implies {
        let d = crate::digits::dec_digits(data0.len());
        &&& s.len() >= str_tail(data0).len()
        &&& str_tail(data0).len() > data0.len() + 4
        &&& s.len() > 0
        &&& is_digit(s[0])
        &&& digit_run_len(s) == d.len()
        &&& s.take(d.len() as int) == d
        &&& s.skip(d.len() as int) == seq![BYTE_COLON, BYTE_QUOTE] + data0
            + seq![BYTE_QUOTE, BYTE_SEMI] + s.skip(str_tail(data0).len() as int)
    } by {
        let d = crate::digits::dec_digits(data0.len());
        let st = str_tail(data0);
        let rest = s.skip(st.len() as int);
        lemma_dec_digits_shape(data0.len());
        assert(st =~= s.take(st.len() as int));
        assert(s =~= s.take(st.len() as int) + rest);
        assert(s == st + rest);
        assert((st + rest).take(d.len() as int) =~= d);
        assert((st + rest).skip(d.len() as int) =~= seq![BYTE_COLON, BYTE_QUOTE] + data0
            + seq![BYTE_QUOTE, BYTE_SEMI] + rest);
        assert((st + rest)[0] == d[0]);
        assert((st + rest)[d.len() as int] == BYTE_COLON);
        assert(!is_digit(BYTE_COLON));
        assert(all_digits(s.take(d.len() as int)));
        lemma_digit_run_characterization(s, d.len() as int);
    }
}

/// If a canonical array-header tail prefixes `s`, the digit run of `s` is
/// exactly its count field, and what follows decomposes accordingly.
proof fn lemma_header_tail_canonical_run(s: Seq<u8>)
    ensures
        forall|c: nat|
            (#[trigger] header_tail(c)).is_prefix_of(s) ==> {
                let d = crate::digits::dec_digits(c);
                &&& s.len() >= header_tail(c).len()
                &&& s.len() > 0
                &&& is_digit(s[0])
                &&& digit_run_len(s) == d.len()
                &&& s.take(d.len() as int) == d
                &&& s.skip(d.len() as int) == seq![BYTE_COLON, BYTE_LBRACE] + s.skip(
                    header_tail(c).len() as int,
                )
            },
{
    assert forall|c: nat| (#[trigger] header_tail(c)).is_prefix_of(s) implies {
        let d = crate::digits::dec_digits(c);
        &&& s.len() >= header_tail(c).len()
        &&& s.len() > 0
        &&& is_digit(s[0])
        &&& digit_run_len(s) == d.len()
        &&& s.take(d.len() as int) == d
        &&& s.skip(d.len() as int) == seq![BYTE_COLON, BYTE_LBRACE] + s.skip(
            header_tail(c).len() as int,
        )
    } by {
        let d = crate::digits::dec_digits(c);
        let ht = header_tail(c);
        let rest = s.skip(ht.len() as int);
        lemma_dec_digits_shape(c);
        assert(ht =~= s.take(ht.len() as int));
        assert(s =~= s.take(ht.len() as int) + rest);
        assert(s == ht + rest);
        assert((ht + rest).take(d.len() as int) =~= d);
        assert((ht + rest).skip(d.len() as int) =~= seq![BYTE_COLON, BYTE_LBRACE] + rest);
        assert((ht + rest)[0] == d[0]);
        assert((ht + rest)[d.len() as int] == BYTE_COLON);
        assert(!is_digit(BYTE_COLON));
        assert(all_digits(s.take(d.len() as int)));
        lemma_digit_run_characterization(s, d.len() as int);
    }
}

} // verus!
