//! Cursor-style primitives over byte buffers that the value and array types
//! are built from.

use vstd::prelude::*;

use crate::object::Object;
use crate::value::Value;

verus! {

/// A slice holds at most `usize::MAX` elements.
pub proof fn lemma_slice_len_bound<T>(s: &[T])
    ensures
        s@.len() <= usize::MAX,
{
    broadcast use vstd::slice::group_slice_axioms;

    assert(vstd::slice::spec_slice_len(s) == s@.len());
}

/// The `len` bytes of `buf` that start at `ofs`.
pub fn get_slice(buf: &[u8], ofs: usize, len: usize) -> (r: &[u8])
    requires
        ofs + len <= buf@.len(),
    ensures
        r@ == buf@.subrange(ofs as int, ofs + len),
{
    proof {
        lemma_slice_len_bound(buf);
    }
    &buf[ofs..ofs + len]
}

/// Splits off the first `ofs` bytes of `*buf`: returns them and leaves the
/// rest in `*buf`.
pub fn pop_slice<'a>(buf: &mut &'a [u8], ofs: usize) -> (r: &'a [u8])
    requires
        ofs <= old(buf)@.len(),
    ensures
        r@ == old(buf)@.take(ofs as int),
        final(buf)@ == old(buf)@.skip(ofs as int),
{
    let (x, y) = buf.split_at(ofs);
    *buf = y;
    x
}

/// The `n` bytes at `*ofs`; moves `*ofs` past them.
pub fn get_bytes<'a>(buf: &'a [u8], ofs: &mut usize, n: usize) -> (r: &'a [u8])
    requires
        *old(ofs) + n <= buf@.len(),
    ensures
        r@ == buf@.subrange(*old(ofs) as int, *old(ofs) + n),
        *final(ofs) == *old(ofs) + n,
{
    proof {
        lemma_slice_len_bound(buf);
    }
    let o = *ofs;
    let r = &buf[o..o + n];
    *ofs = o + n;
    r
}

/// Copies `bytes` to `buf` at `*ofs`; moves `*ofs` past them.
pub fn set_bytes(buf: &mut [u8], ofs: &mut usize, bytes: &[u8])
    requires
        *old(ofs) + bytes@.len() <= old(buf)@.len(),
    ensures
        *final(ofs) == *old(ofs) + bytes@.len(),
        final(buf)@ == old(buf)@.take(*old(ofs) as int) + bytes@ + old(buf)@.skip(
            *final(ofs) as int,
        ),
{
    proof {
        lemma_slice_len_bound(&*buf);
    }
    let o = *ofs;
    let n = bytes.len();
    let mut i: usize = 0;
    while i < n
        invariant
            o + n <= old(buf)@.len(),
            old(buf)@.len() <= usize::MAX,
            n == bytes@.len(),
            i <= n,
            buf@.len() == old(buf)@.len(),
            forall|k: int| 0 <= k < o ==> buf@[k] == old(buf)@[k],
            forall|k: int| 0 <= k < i ==> buf@[o + k] == bytes@[k],
            forall|k: int| o + i <= k < buf@.len() ==> buf@[k] == old(buf)@[k],
        decreases n - i,
    {
        buf[o + i] = bytes[i];
        i = i + 1;
    }
    *ofs = o + n;
    assert(buf@ =~= old(buf)@.take(o as int) + bytes@ + old(buf)@.skip(o + n));
}


/// The slot size of `T`.
pub fn stride_of<T: Value>() -> (n: usize)
    requires
        T::spec_stride() <= usize::MAX,
    ensures
        n == T::spec_stride(),
{
    T::stride()
}

/// Reads a `T` at `*ofs` and moves `*ofs` past the bytes it consumed.
pub fn get_value<T: Value>(buf: &[u8], ofs: &mut usize) -> (v: T)
    requires
        *old(ofs) + T::spec_stride() <= buf@.len(),
    ensures
        (v, (*final(ofs) - *old(ofs)) as nat) == T::spec_read(buf@.skip(*old(ofs) as int)),
        *old(ofs) <= *final(ofs),
{
    T::get(buf, ofs)
}

/// Writes `value` at `*ofs` and moves `*ofs` past the bytes written.
pub fn set_value<T: Value>(buf: &mut [u8], ofs: &mut usize, value: T)
    requires
        *old(ofs) + T::spec_stride() <= old(buf)@.len(),
    ensures
        *final(ofs) == *old(ofs) + T::spec_write(value).len(),
        final(buf)@ == old(buf)@.take(*old(ofs) as int) + T::spec_write(value) + old(buf)@.skip(
            *final(ofs) as int,
        ),
{
    T::set(buf, ofs, value)
}

/// Reads a `T` at `ofs`.
pub fn get_field<T: Value>(buf: &[u8], ofs: usize) -> (v: T)
    requires
        ofs + T::spec_stride() <= buf@.len(),
    ensures
        v == T::spec_read(buf@.skip(ofs as int)).0,
{
    let mut p = ofs;
    T::get(buf, &mut p)
}

/// The object whose representation is the `len` bytes of `buf` at `ofs`.
pub fn get_child<'a, T: Object<'a>>(buf: &'a [u8], ofs: usize, len: usize) -> (r: T)
    requires
        ofs + len <= buf@.len(),
        T::spec_valid(buf@.subrange(ofs as int, ofs + len)),
    ensures
        r.spec_bytes() == buf@.subrange(ofs as int, ofs + len),
{
    T::new(get_slice(buf, ofs, len))
}

} // verus!
