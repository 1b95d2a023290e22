//! The digit buffer: a small-vector that collects signs and digit runs
//! while lexing.
//!
//! [`DigitBuf`] holds a `smallvec::SmallVec<[u8; 32]>`, so short numeric
//! literals never touch the heap. The buffer is opaque to the verifier;
//! [`sv_bytes`] names the bytes it holds, and the wrappers below state what
//! each operation does to them.

use vstd::prelude::*;

verus! {

/// A byte buffer for numeric literals, backed by `smallvec`.
#[verifier::external_body]
#[derive(Debug)]
pub struct DigitBuf {
    inner: smallvec::SmallVec<[u8; 32]>,
}

/// The bytes a digit buffer holds, oldest first.
pub uninterp spec fn sv_bytes(v: DigitBuf) -> Seq<u8>;

/// Relies on `smallvec::SmallVec::new`: a freshly created buffer holds
/// nothing.
#[verifier::external_body]
pub(crate) fn sv_new() -> (r: DigitBuf)
    ensures
        sv_bytes(r) == Seq::<u8>::empty(),
{
    DigitBuf { inner: smallvec::SmallVec::new() }
}

/// Relies on `smallvec::SmallVec::push`: appends one byte at the end,
/// spilling to the heap when the inline capacity is full.
#[verifier::external_body]
pub(crate) fn sv_push(v: &mut DigitBuf, b: u8)
    requires
        sv_bytes(*old(v)).len() < usize::MAX,
    ensures
        sv_bytes(*final(v)) == sv_bytes(*old(v)).push(b),
{
    v.inner.push(b);
}

/// Relies on `smallvec::SmallVec::as_slice`: a borrowed view of exactly the
/// bytes held.
#[verifier::external_body]
pub(crate) fn sv_as_slice(v: &DigitBuf) -> (r: &[u8])
    ensures
        r@ == sv_bytes(*v),
{
    v.inner.as_slice()
}

} // verus!
