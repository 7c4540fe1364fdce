//! The byte buffer that payloads are held in: `bytes::Bytes`, a cheaply
//! shareable window onto immutable bytes. Verus does not look inside it; what
//! this module states of it is taken on trust from the crate's source.
use bytes::Bytes;
use vstd::prelude::*;

verus! {

/// `bytes::Bytes`: a handle onto a stretch of immutable bytes. What it holds
/// is known only through [`contents`].
#[verifier::external_type_specification]
#[verifier::external_body]
pub struct ExBytes(bytes::Bytes);

/// The bytes that a `Bytes` handle gives access to, in order.
pub uninterp spec fn contents(b: Bytes) -> Seq<u8>;

/// `Bytes::len`: the number of bytes that the handle gives access to.
#[verifier::external_body]
pub(crate) fn length(b: &Bytes) -> (n: usize)
    ensures
        n == contents(*b).len(),
{
    b.len()
}

/// `Bytes::slice` on the range `begin..end`: a new handle onto the bytes of
/// `b` from `begin` up to, not including, `end`. The call panics unless
/// `begin <= end <= b.len()`, which the precondition rules out.
#[verifier::external_body]
pub(crate) fn window(b: &Bytes, begin: usize, end: usize) -> (w: Bytes)
    requires
        begin <= end <= contents(*b).len(),
    ensures
        contents(w) == contents(*b).subrange(begin as int, end as int),
{
    b.slice(begin..end)
}

} // verus!
