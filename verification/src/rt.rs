//! The runtime that generated accessors call: the primitives of `internal`,
//! with `u32` offsets.

use vstd::prelude::*;

use crate::internal;
use crate::object::Object;
use crate::object::SizedObject;
use crate::value::Value;

verus! {

/// `<&[u8; N]>::try_from` of std, on a slice of exactly `N` bytes: it
/// succeeds, and the array is a view of the same bytes.
#[verifier::external_body]
fn slice_as_array<const N: usize>(s: &[u8]) -> (r: &[u8; N])
    requires
        s@.len() == N,
    ensures
        r@ == s@,
{
    <&[u8; N]>::try_from(s).unwrap()
}

/// `<&mut [u8; N]>::try_from` of std, on a slice of exactly `N` bytes: it
/// succeeds, and the array is a view of the same bytes, so that what is
/// written to it is what the slice holds afterwards.
#[verifier::external_body]
fn slice_as_array_mut<const N: usize>(s: &mut [u8]) -> (r: &mut [u8; N])
    requires
        old(s)@.len() == N,
    ensures
        r@ == old(s)@,
        final(s)@ == final(r)@,
{
    <&mut [u8; N]>::try_from(s).unwrap()
}

/// The `N` bytes at `ofs`, as an array.
pub fn get_array<const N: usize>(buf: &[u8], ofs: u32) -> (r: &[u8; N])
    requires
        ofs + N <= buf@.len(),
    ensures
        r@ == buf@.subrange(ofs as int, ofs + N),
{
    let o = ofs as usize;
    slice_as_array::<N>(internal::get_slice(buf, o, N))
}

/// The `N` bytes at `ofs`, as an array for writing; what is written to it is
/// what `buf` holds there afterwards.
pub fn get_array_mut<const N: usize>(buf: &mut [u8], ofs: u32) -> (r: &mut [u8; N])
    requires
        ofs + N <= old(buf)@.len(),
    ensures
        r@ == old(buf)@.subrange(ofs as int, ofs + N),
        final(buf)@ == old(buf)@.take(ofs as int) + final(r)@ + old(buf)@.skip(ofs + N),
{
    let (head, rest) = buf.split_at_mut(ofs as usize);
    let (mid, tail) = rest.split_at_mut(N);
    proof {
        assert(has_resolved(head));
        assert(has_resolved(tail));
    }
    slice_as_array_mut::<N>(mid)
}

/// The bytes of `buf` from `lo` up to `hi`.
pub fn get_slice(buf: &[u8], lo: u32, hi: u32) -> (r: &[u8])
    requires
        lo <= hi <= buf@.len(),
    ensures
        r@ == buf@.subrange(lo as int, hi as int),
{
    &buf[lo as usize..hi as usize]
}

/// Splits off the first `ofs` bytes of `*buf`: returns them and leaves the
/// rest in `*buf`.
pub fn pop_slice<'a>(buf: &mut &'a [u8], ofs: u32) -> (r: &'a [u8])
    requires
        ofs <= old(buf)@.len(),
    ensures
        r@ == old(buf)@.take(ofs as int),
        final(buf)@ == old(buf)@.skip(ofs as int),
{
    internal::pop_slice(buf, ofs as usize)
}

/// The `N` bytes at `*ofs`; moves `*ofs` past them.
pub fn get_bytes<const N: usize>(buf: &[u8], ofs: &mut u32) -> (r: [u8; N])
    requires
        *old(ofs) + N <= buf@.len(),
        *old(ofs) + N <= u32::MAX,
    ensures
        r@ == buf@.subrange(*old(ofs) as int, *old(ofs) + N),
        *final(ofs) == *old(ofs) + N,
{
    let p = get_array::<N>(buf, *ofs);
    *ofs = *ofs + N as u32;
    *p
}

/// Stores `value` in the `N` bytes at `*ofs`; moves `*ofs` past them.
pub fn set_bytes<const N: usize>(buf: &mut [u8], ofs: &mut u32, value: [u8; N])
    requires
        *old(ofs) + N <= old(buf)@.len(),
        *old(ofs) + N <= u32::MAX,
    ensures
        *final(ofs) == *old(ofs) + N,
        final(buf)@ == old(buf)@.take(*old(ofs) as int) + value@ + old(buf)@.skip(
            *final(ofs) as int,
        ),
{
    let p = get_array_mut::<N>(buf, *ofs);
    *ofs = *ofs + N as u32;
    *p = value;
}

/// The little-endian `u32` at `ofs`.
pub fn get_u32(buf: &[u8], ofs: u32) -> (r: u32)
    requires
        ofs + 4 <= buf@.len(),
    ensures
        r == u32::spec_read(buf@.skip(ofs as int)).0,
{
    internal::get_field(buf, ofs as usize)
}

/// Reads a `T` at `*ofs` and moves `*ofs` past the bytes it consumed.
pub fn get_value<T: Value>(buf: &[u8], ofs: &mut u32) -> (v: T)
    requires
        *old(ofs) + T::spec_stride() <= buf@.len(),
        *old(ofs) + T::spec_stride() <= u32::MAX,
    ensures
        (v, (*final(ofs) - *old(ofs)) as nat) == T::spec_read(buf@.skip(*old(ofs) as int)),
        *old(ofs) <= *final(ofs),
{
    let mut o = *ofs as usize;
    let v = T::get(buf, &mut o);
    proof {
        T::lemma_read_len(buf@.skip(*ofs as int));
    }
    *ofs = o as u32;
    v
}

/// The object whose representation is the bytes of `buf` from `lo` up to `hi`.
pub fn get_object<'a, T: Object<'a>>(buf: &'a [u8], lo: u32, hi: u32) -> (r: T)
    requires
        lo <= hi <= buf@.len(),
        T::spec_valid(buf@.subrange(lo as int, hi as int)),
    ensures
        r.spec_bytes() == buf@.subrange(lo as int, hi as int),
{
    T::new(get_slice(buf, lo, hi))
}

/// The slot size of `T` as a `u32`.
pub fn size_of_value<T: Value>() -> (n: u32)
    requires
        T::spec_stride() <= u32::MAX,
    ensures
        n == T::spec_stride(),
{
    T::stride() as u32
}

/// The representation size of `T` as a `u32`.
pub fn size_of_object<'a, T: SizedObject<'a>>() -> (n: u32)
    requires
        T::spec_size() <= u32::MAX,
    ensures
        n == T::spec_size(),
{
    T::size() as u32
}

/// The bytes of `buf` from `lo` up to `hi`, for writing; what is written to
/// them is what `buf` holds there afterwards.
pub fn get_slice_mut(buf: &mut [u8], lo: u32, hi: u32) -> (r: &mut [u8])
    requires
        lo <= hi <= old(buf)@.len(),
    ensures
        r@ == old(buf)@.subrange(lo as int, hi as int),
        final(buf)@ == old(buf)@.take(lo as int) + final(r)@ + old(buf)@.skip(hi as int),
{
    let (head, rest) = buf.split_at_mut(lo as usize);
    let (mid, tail) = rest.split_at_mut((hi - lo) as usize);
    proof {
        assert(has_resolved(head));
        assert(has_resolved(tail));
    }
    mid
}

/// Splits off the first `ofs` bytes of `*buf`, for writing: returns them and
/// leaves the rest in `*buf`.
pub fn pop_slice_mut<'a>(buf: &mut &'a mut [u8], ofs: u32) -> (r: &'a mut [u8])
    requires
        ofs <= old(buf)@.len(),
    ensures
        r@ == old(buf)@.take(ofs as int),
        final(buf)@ == old(buf)@.skip(ofs as int),
        final(*old(buf))@ == final(r)@ + final(*final(buf))@,
{
    let mut whole: &'a mut [u8] = &mut [];
    core::mem::swap(buf, &mut whole);
    let (x, y) = whole.split_at_mut(ofs as usize);
    *buf = y;
    x
}

} // verus!
