//! Trusted boundary to the external `arrs_buffer` crate: a word-aligned,
//! reference-counted byte region that is immutable once built. The contents
//! of a buffer are named by the uninterpreted function [`buffer_bytes`]; the
//! wrappers below state over it what each call does.

use arrs_buffer::Buffer;
use std::sync::Arc;
use vstd::prelude::*;

verus! {

#[verifier::external_type_specification]
#[verifier::external_body]
pub struct ExBuffer(Buffer);

/// The byte contents of a buffer: `buffer_bytes(b).len()` is its byte length.
pub uninterp spec fn buffer_bytes(b: Buffer) -> Seq<u8>;

/// Relies on arrs_buffer::Buffer::new: allocates a zeroed region of exactly
/// `len` bytes (padded and aligned beyond that, which this model never reads).
/// The length bound keeps the padded allocation size within `isize`, which
/// `Buffer::new` asserts.
#[verifier::external_body]
pub fn buffer_new(len: usize) -> (r: Buffer)
    requires
        len + 64 <= usize::MAX / 2,
    ensures
        buffer_bytes(r) == Seq::new(len as nat, |i: int| 0u8),
{
    Buffer::new(len)
}

/// Relies on arrs_buffer::Buffer::len: the byte length of the region.
#[verifier::external_body]
pub fn buffer_len(b: &Buffer) -> (r: usize)
    ensures
        r == buffer_bytes(*b).len(),
{
    b.len()
}

/// Relies on arrs_buffer::Buffer::as_slice: a view of the `len` bytes of the
/// region; indexing it reads one byte.
#[verifier::external_body]
pub fn buffer_read(b: &Buffer, i: usize) -> (r: u8)
    requires
        i < buffer_bytes(*b).len(),
    ensures
        r == buffer_bytes(*b)[i as int],
{
    b.as_slice()[i]
}

/// Relies on arrs_buffer::Buffer::as_mut_slice: a mutable view of the `len`
/// bytes of the region; used only during the single build step of a buffer.
#[verifier::external_body]
pub fn buffer_write(b: &mut Buffer, i: usize, v: u8)
    requires
        i < buffer_bytes(*old(b)).len(),
    ensures
        buffer_bytes(*final(b)) == buffer_bytes(*old(b)).update(i as int, v),
{
    b.as_mut_slice()[i] = v;
}

/// Relies on std::sync::Arc::clone: returns a handle to the same allocation,
/// sharing the same buffer without copying bytes.
#[verifier::external_body]
pub fn buffer_share(b: &Arc<Buffer>) -> (r: Arc<Buffer>)
    ensures
        r == *b,
{
    b.clone()
}

} // verus!
