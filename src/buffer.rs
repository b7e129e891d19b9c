//! The read buffer: a fixed-capacity byte ring from the `circular` crate.

use vstd::prelude::*;

verus! {

/// `circular::Buffer`, known to the contracts only through the names below.
#[verifier::external_type_specification]
#[verifier::external_body]
pub struct ExBuffer(circular::Buffer);

/// The bytes that a buffer holds and that have not been consumed yet.
pub uninterp spec fn buffer_data(b: circular::Buffer) -> Seq<u8>;

/// The room left at the tail of a buffer, where new bytes are written.
pub uninterp spec fn buffer_space(b: circular::Buffer) -> nat;

/// The fixed capacity that a buffer was made with.
pub uninterp spec fn buffer_capacity(b: circular::Buffer) -> nat;

/// Relies on `circular::Buffer::with_capacity`: an empty buffer whose whole
/// capacity is free.
#[verifier::external_body]
pub(crate) fn new_buffer(capacity: usize) -> (r: circular::Buffer)
    ensures
        buffer_data(r) == Seq::<u8>::empty(),
        buffer_capacity(r) == capacity,
        buffer_space(r) == capacity,
{
    circular::Buffer::with_capacity(capacity)
}

/// Relies on `circular::Buffer::data`: the unconsumed bytes, in order.
#[verifier::external_body]
pub(crate) fn buffered(b: &circular::Buffer) -> (r: &[u8])
    ensures
        r@ == buffer_data(*b),
{
    b.data()
}

/// Relies on `circular::Buffer::consume`: drops up to `count` bytes from the
/// front; it may move the rest to the base, which only grows the free room.
#[verifier::external_body]
pub(crate) fn consume(b: &mut circular::Buffer, count: usize) -> (r: usize)
    ensures
        r == if count <= buffer_data(*old(b)).len() { count as nat } else { buffer_data(*old(b)).len() },
        buffer_data(*final(b)) == buffer_data(*old(b)).skip(r as int),
        buffer_capacity(*final(b)) == buffer_capacity(*old(b)),
        buffer_space(*final(b)) >= buffer_space(*old(b)),
        buffer_data(*final(b)).len() + buffer_space(*final(b)) <= buffer_capacity(*final(b)),
{
    b.consume(count)
}

/// Relies on `circular::Buffer::shift`: moves the unconsumed bytes to the
/// base, so that all the room that they leave is free at the tail.
#[verifier::external_body]
pub(crate) fn shift(b: &mut circular::Buffer)
    ensures
        buffer_data(*final(b)) == buffer_data(*old(b)),
        buffer_capacity(*final(b)) == buffer_capacity(*old(b)),
        buffer_space(*final(b)) + buffer_data(*final(b)).len() == buffer_capacity(*final(b)),
{
    b.shift()
}

/// Relies on `circular::Buffer`'s `std::io::Write::write`: copies as many
/// bytes as fit in the free room at the tail and appends them to the data.
/// Writing into that room never fails.
#[verifier::external_body]
pub(crate) fn fill_from(b: &mut circular::Buffer, bytes: &[u8]) -> (r: usize)
    ensures
        r == if bytes@.len() <= buffer_space(*old(b)) { bytes@.len() } else { buffer_space(*old(b)) },
        buffer_data(*final(b)) == buffer_data(*old(b)) + bytes@.take(r as int),
        buffer_capacity(*final(b)) == buffer_capacity(*old(b)),
        buffer_data(*final(b)).len() + buffer_space(*final(b)) <= buffer_capacity(*final(b)),
{
    match std::io::Write::write(b, bytes) {
        Ok(n) => n,
        Err(_) => 0,
    }
}

} // verus!
