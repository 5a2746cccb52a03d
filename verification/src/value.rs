//! Values that live in fixed-size slots of a byte buffer.

use vstd::prelude::*;

verus! {

/// The larger of two strides.
pub open spec fn spec_max(x: nat, y: nat) -> nat {
    if x >= y { x } else { y }
}

/// The larger of two sizes.
pub fn max(x: usize, y: usize) -> (r: usize)
    ensures
        r == spec_max(x as nat, y as nat),
{
    if x >= y { x } else { y }
}

/// A type whose values are stored in slots of `spec_stride()` bytes.
///
/// A read at some offset of a buffer yields a value together with the number
/// of bytes it consumed; a write stores `spec_write(v)` at the offset. Neither
/// touches more than `spec_stride()` bytes.
pub trait Value: Sized {
    /// Number of bytes of a slot that holds a value of this type.
    spec fn spec_stride() -> nat;

    /// What a read at the start of `bytes` yields, and how many bytes it consumes.
    spec fn spec_read(bytes: Seq<u8>) -> (Self, nat);

    /// The bytes that a write of `v` stores.
    spec fn spec_write(v: Self) -> Seq<u8>;

    /// A read consumes at most one slot.
    proof fn lemma_read_len(bytes: Seq<u8>)
        ensures
            Self::spec_read(bytes).1 <= Self::spec_stride(),
    ;

    /// A write stores at most one slot.
    proof fn lemma_write_len(v: Self)
        ensures
            Self::spec_write(v).len() <= Self::spec_stride(),
    ;

    /// A read looks at no byte past the slot.
    proof fn lemma_read_local(b1: Seq<u8>, b2: Seq<u8>)
        requires
            b1.len() >= Self::spec_stride(),
            b2.len() >= Self::spec_stride(),
            b1.take(Self::spec_stride() as int) == b2.take(Self::spec_stride() as int),
        ensures
            Self::spec_read(b1) == Self::spec_read(b2),
    ;

    /// A read of what a write stored gives back the value written, and consumes
    /// exactly the bytes that were written, whatever follows them.
    proof fn lemma_read_write(v: Self, rest: Seq<u8>)
        ensures
            Self::spec_read(Self::spec_write(v) + rest) == (v, Self::spec_write(v).len()),
    ;

    /// The stride as a machine integer.
    fn stride() -> (n: usize)
        requires
            Self::spec_stride() <= usize::MAX,
        ensures
            n == Self::spec_stride(),
    ;

    /// Reads a value at `*ofs` and moves `*ofs` past the bytes it consumed.
    fn get(buf: &[u8], ofs: &mut usize) -> (v: Self)
        requires
            *old(ofs) + Self::spec_stride() <= buf@.len(),
        ensures
            (v, (*final(ofs) - *old(ofs)) as nat) == Self::spec_read(buf@.skip(*old(ofs) as int)),
            *old(ofs) <= *final(ofs),
    ;

    /// Writes `value` at `*ofs` and moves `*ofs` past the bytes written.
    fn set(buf: &mut [u8], ofs: &mut usize, value: Self)
        requires
            *old(ofs) + Self::spec_stride() <= old(buf)@.len(),
        ensures
            *final(ofs) == *old(ofs) + Self::spec_write(value).len(),
            final(buf)@ == old(buf)@.take(*old(ofs) as int) + Self::spec_write(value)
                + old(buf)@.skip(*final(ofs) as int),
    ;
}

/// The bytes of `buf` after a write of `v` at `ofs`.
pub open spec fn written<T: Value>(buf: Seq<u8>, ofs: int, v: T) -> Seq<u8> {
    buf.take(ofs) + T::spec_write(v) + buf.skip(ofs + T::spec_write(v).len())
}

/// A read at the offset of a write gives back the value written, and
/// consumes exactly the bytes written; the buffer keeps its length.
pub proof fn lemma_get_after_set<T: Value>(buf: Seq<u8>, ofs: int, v: T)
    requires
        0 <= ofs,
        ofs + T::spec_stride() <= buf.len(),
    ensures
        written(buf, ofs, v).len() == buf.len(),
        T::spec_read(written(buf, ofs, v).skip(ofs)) == (v, T::spec_write(v).len()),
{
    T::lemma_write_len(v);
    let w = T::spec_write(v);
    let rest = buf.skip(ofs + w.len());
    assert(written(buf, ofs, v).skip(ofs) =~= w + rest);
    T::lemma_read_write(v, rest);
}

/// A write into one slot leaves what a read of any slot apart from it gives.
pub proof fn lemma_set_keeps_other_slots<T: Value, U: Value>(
    buf: Seq<u8>,
    ofs: int,
    v: T,
    other: int,
)
    requires
        0 <= ofs,
        ofs + T::spec_stride() <= buf.len(),
        0 <= other,
        other + U::spec_stride() <= buf.len(),
        other + U::spec_stride() <= ofs || ofs + T::spec_stride() <= other,
    ensures
        U::spec_read(written(buf, ofs, v).skip(other)) == U::spec_read(buf.skip(other)),
{
    T::lemma_write_len(v);
    let after = written(buf, ofs, v);
    let u = U::spec_stride() as int;
    assert(after.skip(other).take(u) =~= buf.skip(other).take(u));
    U::lemma_read_local(after.skip(other), buf.skip(other));
}

impl Value for u8 {
    open spec fn spec_stride() -> nat {
        1
    }

    open spec fn spec_read(bytes: Seq<u8>) -> (u8, nat) {
        (bytes[0], 1)
    }

    open spec fn spec_write(v: u8) -> Seq<u8> {
        seq![v]
    }

    proof fn lemma_read_len(bytes: Seq<u8>) {
    }

    proof fn lemma_write_len(v: u8) {
    }

    proof fn lemma_read_local(b1: Seq<u8>, b2: Seq<u8>) {
        assert(b1[0] == b1.take(1)[0]);
        assert(b2[0] == b2.take(1)[0]);
    }

    proof fn lemma_read_write(v: u8, rest: Seq<u8>) {
    }

    fn stride() -> (n: usize) {
        1
    }

    fn get(buf: &[u8], ofs: &mut usize) -> (v: u8) {
        let v = buf[*ofs];
        *ofs = *ofs + 1;
        v
    }

    fn set(buf: &mut [u8], ofs: &mut usize, value: u8) {
        let o = *ofs;
        buf[o] = value;
        *ofs = o + 1;
        assert(buf@ =~= old(buf)@.take(o as int) + seq![value] + old(buf)@.skip(o + 1));
    }
}

/// The number that the first two bytes of `b` encode, least significant first.
pub open spec fn le2(b: Seq<u8>) -> int {
    b[0] + 256 * b[1]
}

/// The number that the first four bytes of `b` encode, least significant first.
pub open spec fn le4(b: Seq<u8>) -> int {
    le2(b) + 0x1_0000 * le2(b.skip(2))
}

/// The number that the first eight bytes of `b` encode, least significant first.
pub open spec fn le8(b: Seq<u8>) -> int {
    le4(b) + 0x1_0000_0000 * le4(b.skip(4))
}

/// The two bytes that encode `v` (below `0x1_0000`), least significant first.
pub open spec fn bytes2(v: int) -> Seq<u8> {
    seq![(v % 256) as u8, ((v / 256) % 256) as u8]
}

/// The four bytes that encode `v` (below `0x1_0000_0000`), least significant first.
pub open spec fn bytes4(v: int) -> Seq<u8> {
    bytes2(v % 0x1_0000) + bytes2(v / 0x1_0000)
}

/// The eight bytes that encode `v` (below `2^64`), least significant first.
pub open spec fn bytes8(v: int) -> Seq<u8> {
    bytes4(v % 0x1_0000_0000) + bytes4(v / 0x1_0000_0000)
}

/// Two bytes decode to what they encode.
pub proof fn lemma_le2(v: int, rest: Seq<u8>)
    requires
        0 <= v < 0x1_0000,
    ensures
        le2(bytes2(v) + rest) == v,
        bytes2(v).len() == 2,
{
    let b = bytes2(v) + rest;
    assert(b[0] == v % 256);
    assert(b[1] == v / 256);
}

/// Four bytes decode to what they encode.
pub proof fn lemma_le4(v: int, rest: Seq<u8>)
    requires
        0 <= v < 0x1_0000_0000,
    ensures
        le4(bytes4(v) + rest) == v,
        bytes4(v).len() == 4,
{
    let lo = v % 0x1_0000;
    let hi = v / 0x1_0000;
    let b = bytes4(v) + rest;
    assert(b =~= bytes2(lo) + (bytes2(hi) + rest));
    lemma_le2(lo, bytes2(hi) + rest);
    assert(b.skip(2) =~= bytes2(hi) + rest);
    lemma_le2(hi, rest);
}

/// Eight bytes decode to what they encode.
pub proof fn lemma_le8(v: int, rest: Seq<u8>)
    requires
        0 <= v < 0x1_0000_0000_0000_0000,
    ensures
        le8(bytes8(v) + rest) == v,
        bytes8(v).len() == 8,
{
    let lo = v % 0x1_0000_0000;
    let hi = v / 0x1_0000_0000;
    let b = bytes8(v) + rest;
    assert(b =~= bytes4(lo) + (bytes4(hi) + rest));
    lemma_le4(lo, bytes4(hi) + rest);
    assert(b.skip(4) =~= bytes4(hi) + rest);
    lemma_le4(hi, rest);
}

/// Byte strings that agree on their first `n` bytes agree on each of them.
pub proof fn lemma_same_prefix(b1: Seq<u8>, b2: Seq<u8>, n: int)
    requires
        0 <= n <= b1.len(),
        n <= b2.len(),
        b1.take(n) == b2.take(n),
    ensures
        forall|i: int| 0 <= i < n ==> b1[i] == b2[i],
{
    assert forall|i: int| 0 <= i < n implies b1[i] == b2[i] by {
        assert(b1[i] == b1.take(n)[i]);
        assert(b2[i] == b2.take(n)[i]);
    }
}

/// Reads the two bytes at `*ofs` as a little-endian number.
fn get_le2(buf: &[u8], ofs: &mut usize) -> (v: u16)
    requires
        *old(ofs) + 2 <= buf@.len(),
    ensures
        v == le2(buf@.skip(*old(ofs) as int)),
        *final(ofs) == *old(ofs) + 2,
{
    let o = *ofs;
    let lo = buf[o];
    let hi = buf[o + 1];
    *ofs = o + 2;
    lo as u16 + (hi as u16) * 256
}

/// Reads the four bytes at `*ofs` as a little-endian number.
fn get_le4(buf: &[u8], ofs: &mut usize) -> (v: u32)
    requires
        *old(ofs) + 4 <= buf@.len(),
    ensures
        v == le4(buf@.skip(*old(ofs) as int)),
        *final(ofs) == *old(ofs) + 4,
{
    let ghost o = *ofs as int;
    let lo = get_le2(buf, ofs);
    let hi = get_le2(buf, ofs);
    assert(buf@.skip(o).skip(2) =~= buf@.skip(o + 2));
    lo as u32 + (hi as u32) * 0x1_0000
}

/// Reads the eight bytes at `*ofs` as a little-endian number.
fn get_le8(buf: &[u8], ofs: &mut usize) -> (v: u64)
    requires
        *old(ofs) + 8 <= buf@.len(),
    ensures
        v == le8(buf@.skip(*old(ofs) as int)),
        *final(ofs) == *old(ofs) + 8,
{
    let ghost o = *ofs as int;
    let lo = get_le4(buf, ofs);
    let hi = get_le4(buf, ofs);
    assert(buf@.skip(o).skip(4) =~= buf@.skip(o + 4));
    lo as u64 + (hi as u64) * 0x1_0000_0000
}

/// Writes the two little-endian bytes of `v` at `*ofs`.
fn set_le2(buf: &mut [u8], ofs: &mut usize, v: u16)
    requires
        *old(ofs) + 2 <= old(buf)@.len(),
    ensures
        *final(ofs) == *old(ofs) + 2,
        final(buf)@ == old(buf)@.take(*old(ofs) as int) + bytes2(v as int) + old(buf)@.skip(
            *old(ofs) + 2,
        ),
{
    let o = *ofs;
    buf[o] = (v % 256) as u8;
    buf[o + 1] = (v / 256) as u8;
    *ofs = o + 2;
    assert(buf@ =~= old(buf)@.take(o as int) + bytes2(v as int) + old(buf)@.skip(o + 2));
}

/// Writes the four little-endian bytes of `v` at `*ofs`.
fn set_le4(buf: &mut [u8], ofs: &mut usize, v: u32)
    requires
        *old(ofs) + 4 <= old(buf)@.len(),
    ensures
        *final(ofs) == *old(ofs) + 4,
        final(buf)@ == old(buf)@.take(*old(ofs) as int) + bytes4(v as int) + old(buf)@.skip(
            *old(ofs) + 4,
        ),
{
    let ghost o = *ofs as int;
    let ghost b0 = buf@;
    set_le2(buf, ofs, (v % 0x1_0000) as u16);
    set_le2(buf, ofs, (v / 0x1_0000) as u16);
    assert(buf@ =~= b0.take(o) + bytes4(v as int) + b0.skip(o + 4));
}

/// Writes the eight little-endian bytes of `v` at `*ofs`.
fn set_le8(buf: &mut [u8], ofs: &mut usize, v: u64)
    requires
        *old(ofs) + 8 <= old(buf)@.len(),
    ensures
        *final(ofs) == *old(ofs) + 8,
        final(buf)@ == old(buf)@.take(*old(ofs) as int) + bytes8(v as int) + old(buf)@.skip(
            *old(ofs) + 8,
        ),
{
    let ghost o = *ofs as int;
    let ghost b0 = buf@;
    set_le4(buf, ofs, (v % 0x1_0000_0000) as u32);
    set_le4(buf, ofs, (v / 0x1_0000_0000) as u32);
    assert(buf@ =~= b0.take(o) + bytes8(v as int) + b0.skip(o + 8));
}

impl Value for u16 {
    open spec fn spec_stride() -> nat {
        2
    }

    open spec fn spec_read(bytes: Seq<u8>) -> (u16, nat) {
        (le2(bytes) as u16, 2)
    }

    open spec fn spec_write(v: u16) -> Seq<u8> {
        bytes2(v as int)
    }

    proof fn lemma_read_len(bytes: Seq<u8>) {
    }

    proof fn lemma_write_len(v: u16) {
    }

    proof fn lemma_read_local(b1: Seq<u8>, b2: Seq<u8>) {
        lemma_same_prefix(b1, b2, 2);
    }

    proof fn lemma_read_write(v: u16, rest: Seq<u8>) {
        lemma_le2(v as int, rest);
    }

    fn stride() -> (n: usize) {
        2
    }

    fn get(buf: &[u8], ofs: &mut usize) -> (v: u16) {
        get_le2(buf, ofs)
    }

    fn set(buf: &mut [u8], ofs: &mut usize, value: u16) {
        set_le2(buf, ofs, value)
    }
}

impl Value for u32 {
    open spec fn spec_stride() -> nat {
        4
    }

    open spec fn spec_read(bytes: Seq<u8>) -> (u32, nat) {
        (le4(bytes) as u32, 4)
    }

    open spec fn spec_write(v: u32) -> Seq<u8> {
        bytes4(v as int)
    }

    proof fn lemma_read_len(bytes: Seq<u8>) {
    }

    proof fn lemma_write_len(v: u32) {
    }

    proof fn lemma_read_local(b1: Seq<u8>, b2: Seq<u8>) {
        lemma_same_prefix(b1, b2, 4);
    }

    proof fn lemma_read_write(v: u32, rest: Seq<u8>) {
        lemma_le4(v as int, rest);
    }

    fn stride() -> (n: usize) {
        4
    }

    fn get(buf: &[u8], ofs: &mut usize) -> (v: u32) {
        get_le4(buf, ofs)
    }

    fn set(buf: &mut [u8], ofs: &mut usize, value: u32) {
        set_le4(buf, ofs, value)
    }
}

impl Value for u64 {
    open spec fn spec_stride() -> nat {
        8
    }

    open spec fn spec_read(bytes: Seq<u8>) -> (u64, nat) {
        (le8(bytes) as u64, 8)
    }

    open spec fn spec_write(v: u64) -> Seq<u8> {
        bytes8(v as int)
    }

    proof fn lemma_read_len(bytes: Seq<u8>) {
    }

    proof fn lemma_write_len(v: u64) {
    }

    proof fn lemma_read_local(b1: Seq<u8>, b2: Seq<u8>) {
        lemma_same_prefix(b1, b2, 8);
    }

    proof fn lemma_read_write(v: u64, rest: Seq<u8>) {
        lemma_le8(v as int, rest);
    }

    fn stride() -> (n: usize) {
        8
    }

    fn get(buf: &[u8], ofs: &mut usize) -> (v: u64) {
        get_le8(buf, ofs)
    }

    fn set(buf: &mut [u8], ofs: &mut usize, value: u64) {
        set_le8(buf, ofs, value)
    }
}

impl Value for bool {
    open spec fn spec_stride() -> nat {
        1
    }

    open spec fn spec_read(bytes: Seq<u8>) -> (bool, nat) {
        (bytes[0] != 0, 1)
    }

    open spec fn spec_write(v: bool) -> Seq<u8> {
        seq![if v { 1u8 } else { 0u8 }]
    }

    proof fn lemma_read_len(bytes: Seq<u8>) {
    }

    proof fn lemma_write_len(v: bool) {
    }

    proof fn lemma_read_local(b1: Seq<u8>, b2: Seq<u8>) {
        assert(b1[0] == b1.take(1)[0]);
        assert(b2[0] == b2.take(1)[0]);
    }

    proof fn lemma_read_write(v: bool, rest: Seq<u8>) {
    }

    fn stride() -> (n: usize) {
        1
    }

    fn get(buf: &[u8], ofs: &mut usize) -> (v: bool) {
        0 != u8::get(buf, ofs)
    }

    fn set(buf: &mut [u8], ofs: &mut usize, value: bool) {
        u8::set(buf, ofs, if value { 1 } else { 0 })
    }
}

impl<T: Value> Value for Option<T> {
    open spec fn spec_stride() -> nat {
        1 + T::spec_stride()
    }

    open spec fn spec_read(bytes: Seq<u8>) -> (Option<T>, nat) {
        if bytes[0] == 0 {
            (None, 1)
        } else {
            let (x, n) = T::spec_read(bytes.skip(1));
            (Some(x), 1 + n)
        }
    }

    open spec fn spec_write(v: Option<T>) -> Seq<u8> {
        match v {
            None => seq![0u8],
            Some(x) => seq![1u8] + T::spec_write(x),
        }
    }

    proof fn lemma_read_len(bytes: Seq<u8>) {
        T::lemma_read_len(bytes.skip(1));
    }

    proof fn lemma_write_len(v: Option<T>) {
        if let Some(x) = v {
            T::lemma_write_len(x);
        }
    }

    proof fn lemma_read_local(b1: Seq<u8>, b2: Seq<u8>) {
        let s = T::spec_stride() as int;
        assert(b1[0] == b1.take(1 + s)[0]);
        assert(b2[0] == b2.take(1 + s)[0]);
        assert(b1.skip(1).take(s) =~= b1.take(1 + s).skip(1));
        assert(b2.skip(1).take(s) =~= b2.take(1 + s).skip(1));
        T::lemma_read_local(b1.skip(1), b2.skip(1));
    }

    proof fn lemma_read_write(v: Option<T>, rest: Seq<u8>) {
        if let Some(x) = v {
            let w = T::spec_write(x);
            assert((seq![1u8] + w + rest).skip(1) =~= w + rest);
            T::lemma_read_write(x, rest);
        }
    }

    fn stride() -> (n: usize) {
        1 + T::stride()
    }

    fn get(buf: &[u8], ofs: &mut usize) -> (v: Option<T>) {
        let ghost o = *ofs as int;
        if 0 == u8::get(buf, ofs) {
            None
        } else {
            assert(buf@.skip(o).skip(1) =~= buf@.skip(o + 1));
            Some(T::get(buf, ofs))
        }
    }

    fn set(buf: &mut [u8], ofs: &mut usize, value: Option<T>) {
        match value {
            None => {
                u8::set(buf, ofs, 0);
            },
            Some(x) => {
                let ghost o = *ofs as int;
                let ghost b0 = buf@;
                proof {
                    T::lemma_write_len(x);
                }
                u8::set(buf, ofs, 1);
                T::set(buf, ofs, x);
                let ghost w = T::spec_write(x);
                assert(buf@ =~= b0.take(o) + (seq![1u8] + w) + b0.skip(o + 1 + w.len()));
            },
        }
    }
}

impl<T: Value, E: Value> Value for Result<T, E> {
    open spec fn spec_stride() -> nat {
        1 + spec_max(T::spec_stride(), E::spec_stride())
    }

    open spec fn spec_read(bytes: Seq<u8>) -> (Result<T, E>, nat) {
        if bytes[0] == 0 {
            let (x, n) = T::spec_read(bytes.skip(1));
            (Ok(x), 1 + n)
        } else {
            let (e, n) = E::spec_read(bytes.skip(1));
            (Err(e), 1 + n)
        }
    }

    open spec fn spec_write(v: Result<T, E>) -> Seq<u8> {
        match v {
            Ok(x) => seq![0u8] + T::spec_write(x),
            Err(e) => seq![1u8] + E::spec_write(e),
        }
    }

    proof fn lemma_read_len(bytes: Seq<u8>) {
        T::lemma_read_len(bytes.skip(1));
        E::lemma_read_len(bytes.skip(1));
    }

    proof fn lemma_write_len(v: Result<T, E>) {
        match v {
            Ok(x) => T::lemma_write_len(x),
            Err(e) => E::lemma_write_len(e),
        }
    }

    proof fn lemma_read_local(b1: Seq<u8>, b2: Seq<u8>) {
        let s = spec_max(T::spec_stride(), E::spec_stride()) as int;
        let t = T::spec_stride() as int;
        let e = E::spec_stride() as int;
        assert(b1[0] == b1.take(1 + s)[0]);
        assert(b2[0] == b2.take(1 + s)[0]);
        assert(b1.skip(1).take(t) =~= b1.take(1 + s).skip(1).take(t));
        assert(b2.skip(1).take(t) =~= b2.take(1 + s).skip(1).take(t));
        assert(b1.skip(1).take(e) =~= b1.take(1 + s).skip(1).take(e));
        assert(b2.skip(1).take(e) =~= b2.take(1 + s).skip(1).take(e));
        T::lemma_read_local(b1.skip(1), b2.skip(1));
        E::lemma_read_local(b1.skip(1), b2.skip(1));
    }

    proof fn lemma_read_write(v: Result<T, E>, rest: Seq<u8>) {
        match v {
            Ok(x) => {
                let w = T::spec_write(x);
                assert((seq![0u8] + w + rest).skip(1) =~= w + rest);
                T::lemma_read_write(x, rest);
            },
            Err(e) => {
                let w = E::spec_write(e);
                assert((seq![1u8] + w + rest).skip(1) =~= w + rest);
                E::lemma_read_write(e, rest);
            },
        }
    }

    fn stride() -> (n: usize) {
        1 + max(T::stride(), E::stride())
    }

    fn get(buf: &[u8], ofs: &mut usize) -> (v: Result<T, E>) {
        let ghost o = *ofs as int;
        let tag = u8::get(buf, ofs);
        assert(buf@.skip(o).skip(1) =~= buf@.skip(o + 1));
        if 0 == tag {
            Ok(T::get(buf, ofs))
        } else {
            Err(E::get(buf, ofs))
        }
    }

    fn set(buf: &mut [u8], ofs: &mut usize, value: Result<T, E>) {
        let ghost o = *ofs as int;
        let ghost b0 = buf@;
        match value {
            Ok(x) => {
                proof {
                    T::lemma_write_len(x);
                }
                u8::set(buf, ofs, 0);
                T::set(buf, ofs, x);
                let ghost w = T::spec_write(x);
                assert(buf@ =~= b0.take(o) + (seq![0u8] + w) + b0.skip(o + 1 + w.len()));
            },
            Err(e) => {
                proof {
                    E::lemma_write_len(e);
                }
                u8::set(buf, ofs, 1);
                E::set(buf, ofs, e);
                let ghost w = E::spec_write(e);
                assert(buf@ =~= b0.take(o) + (seq![1u8] + w) + b0.skip(o + 1 + w.len()));
            },
        }
    }
}

impl<T: Value, U: Value> Value for (T, U) {
    open spec fn spec_stride() -> nat {
        T::spec_stride() + U::spec_stride()
    }

    open spec fn spec_read(bytes: Seq<u8>) -> ((T, U), nat) {
        let (x, n) = T::spec_read(bytes);
        let (y, m) = U::spec_read(bytes.skip(n as int));
        ((x, y), n + m)
    }

    open spec fn spec_write(v: (T, U)) -> Seq<u8> {
        T::spec_write(v.0) + U::spec_write(v.1)
    }

    proof fn lemma_read_len(bytes: Seq<u8>) {
        T::lemma_read_len(bytes);
        U::lemma_read_len(bytes.skip(T::spec_read(bytes).1 as int));
    }

    proof fn lemma_write_len(v: (T, U)) {
        T::lemma_write_len(v.0);
        U::lemma_write_len(v.1);
    }

    proof fn lemma_read_local(b1: Seq<u8>, b2: Seq<u8>) {
        let t = T::spec_stride() as int;
        let u = U::spec_stride() as int;
        assert(b1.take(t) =~= b1.take(t + u).take(t));
        assert(b2.take(t) =~= b2.take(t + u).take(t));
        T::lemma_read_local(b1, b2);
        T::lemma_read_len(b1);
        let n = T::spec_read(b1).1 as int;
        assert(b1.skip(n).take(u) =~= b1.take(t + u).skip(n).take(u));
        assert(b2.skip(n).take(u) =~= b2.take(t + u).skip(n).take(u));
        U::lemma_read_local(b1.skip(n), b2.skip(n));
    }

    proof fn lemma_read_write(v: (T, U), rest: Seq<u8>) {
        let wt = T::spec_write(v.0);
        let wu = U::spec_write(v.1);
        assert(wt + wu + rest =~= wt + (wu + rest));
        T::lemma_read_write(v.0, wu + rest);
        assert((wt + (wu + rest)).skip(wt.len() as int) =~= wu + rest);
        U::lemma_read_write(v.1, rest);
    }

    fn stride() -> (n: usize) {
        T::stride() + U::stride()
    }

    fn get(buf: &[u8], ofs: &mut usize) -> (v: (T, U)) {
        let ghost o = *ofs as int;
        let x = T::get(buf, ofs);
        let ghost n = *ofs - o;
        proof {
            T::lemma_read_len(buf@.skip(o));
        }
        assert(buf@.skip(o).skip(n) =~= buf@.skip(o + n));
        let y = U::get(buf, ofs);
        (x, y)
    }

    fn set(buf: &mut [u8], ofs: &mut usize, value: (T, U)) {
        let ghost o = *ofs as int;
        let ghost b0 = buf@;
        proof {
            T::lemma_write_len(value.0);
            U::lemma_write_len(value.1);
        }
        T::set(buf, ofs, value.0);
        U::set(buf, ofs, value.1);
        let ghost w = T::spec_write(value.0) + U::spec_write(value.1);
        assert(buf@ =~= b0.take(o) + w + b0.skip(o + w.len()));
    }
}

/// What `n` reads in a row from the start of `bytes` yield, and the number of
/// bytes they consume together.
pub open spec fn read_many<T: Value>(bytes: Seq<u8>, n: nat) -> (Seq<T>, nat)
    decreases n,
{
    if n == 0 {
        (Seq::empty(), 0)
    } else {
        let (xs, m) = read_many::<T>(bytes, (n - 1) as nat);
        let (x, k) = T::spec_read(bytes.skip(m as int));
        (xs.push(x), m + k)
    }
}

/// The bytes that writes of `xs`, one after another, store.
pub open spec fn write_many<T: Value>(xs: Seq<T>) -> Seq<u8>
    decreases xs.len(),
{
    if xs.len() == 0 {
        Seq::empty()
    } else {
        write_many::<T>(xs.drop_last()) + T::spec_write(xs.last())
    }
}

/// `n` reads in a row yield `n` values and consume at most `n` slots.
pub proof fn lemma_read_many_len<T: Value>(bytes: Seq<u8>, n: nat)
    ensures
        read_many::<T>(bytes, n).0.len() == n,
        read_many::<T>(bytes, n).1 <= n * T::spec_stride(),
    decreases n,
{
    if n > 0 {
        lemma_read_many_len::<T>(bytes, (n - 1) as nat);
        T::lemma_read_len(bytes.skip(read_many::<T>(bytes, (n - 1) as nat).1 as int));
        assert((n - 1) * T::spec_stride() + T::spec_stride() == n * T::spec_stride())
            by (nonlinear_arith);
    }
}

/// Writes of `xs` store at most one slot each.
pub proof fn lemma_write_many_len<T: Value>(xs: Seq<T>)
    ensures
        write_many::<T>(xs).len() <= xs.len() * T::spec_stride(),
    decreases xs.len(),
{
    if xs.len() > 0 {
        lemma_write_many_len::<T>(xs.drop_last());
        T::lemma_write_len(xs.last());
        assert((xs.len() - 1) * T::spec_stride() + T::spec_stride() == xs.len()
            * T::spec_stride()) by (nonlinear_arith);
    }
}

/// `n` reads in a row look at no byte past the first `n` slots.
pub proof fn lemma_read_many_local<T: Value>(b1: Seq<u8>, b2: Seq<u8>, n: nat)
    requires
        b1.len() >= n * T::spec_stride(),
        b2.len() >= n * T::spec_stride(),
        b1.take((n * T::spec_stride()) as int) == b2.take((n * T::spec_stride()) as int),
    ensures
        read_many::<T>(b1, n) == read_many::<T>(b2, n),
    decreases n,
{
    if n > 0 {
        let t = T::spec_stride();
        assert((n - 1) * t + t == n * t) by (nonlinear_arith);
        let p = (n - 1) * t;
        assert(b1.take(p as int) =~= b1.take((n * t) as int).take(p as int));
        assert(b2.take(p as int) =~= b2.take((n * t) as int).take(p as int));
        lemma_read_many_local::<T>(b1, b2, (n - 1) as nat);
        lemma_read_many_len::<T>(b1, (n - 1) as nat);
        let m = read_many::<T>(b1, (n - 1) as nat).1 as int;
        assert(b1.skip(m).take(t as int) =~= b1.take((n * t) as int).skip(m).take(t as int));
        assert(b2.skip(m).take(t as int) =~= b2.take((n * t) as int).skip(m).take(t as int));
        T::lemma_read_local(b1.skip(m), b2.skip(m));
    }
}

/// Reads, one after another, of what writes of `xs` stored give back `xs`
/// and consume exactly the bytes written, whatever follows them.
pub proof fn lemma_read_many_write_many<T: Value>(xs: Seq<T>, rest: Seq<u8>)
    ensures
        read_many::<T>(write_many::<T>(xs) + rest, xs.len()) == (xs, write_many::<T>(xs).len()),
    decreases xs.len(),
{
    if xs.len() > 0 {
        let init = xs.drop_last();
        let w0 = write_many::<T>(init);
        let w1 = T::spec_write(xs.last());
        assert(write_many::<T>(xs) + rest =~= w0 + (w1 + rest));
        lemma_read_many_write_many::<T>(init, w1 + rest);
        assert((w0 + (w1 + rest)).skip(w0.len() as int) =~= w1 + rest);
        T::lemma_read_write(xs.last(), rest);
        assert(init.push(xs.last()) =~= xs);
    }
}

/// `<[T; N]>::try_from` of std, on a vector of exactly `N` elements: it
/// succeeds, and the array holds the same elements in the same order.
#[verifier::external_body]
fn vec_into_array<T, const N: usize>(v: Vec<T>) -> (r: [T; N])
    requires
        v@.len() == N,
    ensures
        r@ == v@,
{
    <[T; N]>::try_from(v).ok().unwrap()
}

impl<T: Value + Copy, const N: usize> Value for [T; N] {
    open spec fn spec_stride() -> nat {
        (N as nat) * T::spec_stride()
    }

    open spec fn spec_read(bytes: Seq<u8>) -> ([T; N], nat) {
        let (xs, m) = read_many::<T>(bytes, N as nat);
        (choose|a: [T; N]| a@ == xs, m)
    }

    open spec fn spec_write(v: [T; N]) -> Seq<u8> {
        write_many::<T>(v@)
    }

    proof fn lemma_read_len(bytes: Seq<u8>) {
        lemma_read_many_len::<T>(bytes, N as nat);
    }

    proof fn lemma_write_len(v: [T; N]) {
        lemma_write_many_len::<T>(v@);
    }

    proof fn lemma_read_local(b1: Seq<u8>, b2: Seq<u8>) {
        lemma_read_many_local::<T>(b1, b2, N as nat);
    }

    proof fn lemma_read_write(v: [T; N], rest: Seq<u8>) {
        broadcast use vstd::array::group_array_axioms;

        lemma_read_many_write_many::<T>(v@, rest);
        let a = choose|a: [T; N]| a@ == v@;
        assert(a@ == v@);
        assert(a =~= v);
    }

    fn stride() -> (n: usize) {
        if N == 0 {
            0
        } else {
            assert(T::spec_stride() <= N * T::spec_stride()) by (nonlinear_arith)
                requires
                    N > 0,
            ;
            N * T::stride()
        }
    }

    fn get(buf: &[u8], ofs: &mut usize) -> (v: [T; N]) {
        broadcast use vstd::array::group_array_axioms;

        let ghost o = *ofs as int;
        let ghost t = T::spec_stride();
        let mut xs: Vec<T> = Vec::new();
        let mut i: usize = 0;
        assert(0 * t == 0);
        assert(N * t >= 0) by (nonlinear_arith);
        while i < N
            invariant
                i <= N,
                t == T::spec_stride(),
                0 <= o,
                N * t >= 0,
                o + N * t <= buf@.len(),
                o <= *ofs,
                *ofs - o <= i * t,
                (xs@, (*ofs - o) as nat) == read_many::<T>(buf@.skip(o), i as nat),
            decreases N - i,
        {
            assert(i * t + t <= N * t) by (nonlinear_arith)
                requires
                    i < N,
            ;
            assert(i * t + t == (i + 1) * t) by (nonlinear_arith);
            let ghost p = *ofs as int;
            assert(buf@.skip(o).skip(p - o) =~= buf@.skip(p));
            proof {
                T::lemma_read_len(buf@.skip(p));
            }
            let x = T::get(buf, ofs);
            xs.push(x);
            i = i + 1;
        }
        proof {
            lemma_read_many_len::<T>(buf@.skip(o), N as nat);
        }
        let a = vec_into_array::<T, N>(xs);
        let ghost c = choose|c: [T; N]| c@ == xs@;
        assert(c =~= a);
        a
    }

    fn set(buf: &mut [u8], ofs: &mut usize, value: [T; N]) {
        let ghost o = *ofs as int;
        let ghost b0 = buf@;
        let ghost t = T::spec_stride();
        let mut i: usize = 0;
        assert(value@.take(0) =~= Seq::<T>::empty());
        assert(0 * t == 0);
        assert(N * t >= 0) by (nonlinear_arith);
        assert(b0 =~= b0.take(o) + Seq::<u8>::empty() + b0.skip(o));
        while i < N
            invariant
                i <= N,
                t == T::spec_stride(),
                0 <= o,
                N * t >= 0,
                o + N * t <= b0.len(),
                *ofs == o + write_many::<T>(value@.take(i as int)).len(),
                write_many::<T>(value@.take(i as int)).len() <= i * t,
                buf@ == b0.take(o) + write_many::<T>(value@.take(i as int)) + b0.skip(*ofs as int),
            decreases N - i,
        {
            assert(i * t + t <= N * t) by (nonlinear_arith)
                requires
                    i < N,
            ;
            assert(i * t + t == (i + 1) * t) by (nonlinear_arith);
            let x = value[i];
            let ghost w = write_many::<T>(value@.take(i as int));
            let ghost before = buf@;
            proof {
                T::lemma_write_len(x);
            }
            T::set(buf, ofs, x);
            let ghost wx = T::spec_write(x);
            assert(value@.take(i + 1).drop_last() =~= value@.take(i as int));
            assert(value@.take(i + 1).last() == x);
            assert(buf@ =~= b0.take(o) + (w + wx) + b0.skip(*ofs as int));
            i = i + 1;
        }
        assert(value@.take(N as int) =~= value@);
    }
}

/// The slot sizes of the values: one byte for `u8` and `bool`, two for
/// `u16`, four for `u32`, eight for `u64`; one tag byte more than the value for
/// an `Option`, one more than the larger of the two for a `Result`, the sum
/// for a pair, and `N` times the element's for an array of `N`.
pub proof fn lemma_stride_table<U: Value, E: Value, V: Value + Copy, const N: usize>()
    ensures
        <u8 as Value>::spec_stride() == 1,
        <bool as Value>::spec_stride() == 1,
        <u16 as Value>::spec_stride() == 2,
        <u32 as Value>::spec_stride() == 4,
        <u64 as Value>::spec_stride() == 8,
        <Option<U> as Value>::spec_stride() == 1 + U::spec_stride(),
        <Result<U, E> as Value>::spec_stride() == 1 + spec_max(U::spec_stride(), E::spec_stride()),
        <(U, E) as Value>::spec_stride() == U::spec_stride() + E::spec_stride(),
        <[V; N] as Value>::spec_stride() == N * V::spec_stride(),
{
}

/// A `u16` is stored least significant byte first: its value modulo 256,
/// then its value divided by 256; a read of two bytes gives the first plus 256
/// times the second.
pub proof fn lemma_u16_layout(b: Seq<u8>, x: u16)
    requires
        b.len() >= 2,
    ensures
        <u16 as Value>::spec_read(b) == ((b[0] + 256 * b[1]) as u16, 2nat),
        b[0] + 256 * b[1] <= u16::MAX,
        <u16 as Value>::spec_write(x) == seq![(x % 256) as u8, (x / 256) as u8],
{
    assert(<u16 as Value>::spec_write(x) =~= seq![(x % 256) as u8, (x / 256) as u8]);
}

/// A `u32` is stored least significant byte first, and a read of four bytes
/// gives the sum of each byte times 256 to the power of its place.
pub proof fn lemma_u32_layout(b: Seq<u8>, y: u32)
    requires
        b.len() >= 4,
    ensures
        <u32 as Value>::spec_read(b) == ((b[0] + 0x100 * b[1] + 0x1_0000 * b[2] + 0x100_0000
            * b[3]) as u32, 4nat),
        b[0] + 0x100 * b[1] + 0x1_0000 * b[2] + 0x100_0000 * b[3] <= u32::MAX,
        <u32 as Value>::spec_write(y) == seq![
            (y % 0x100) as u8,
            (y / 0x100 % 0x100) as u8,
            (y / 0x1_0000 % 0x100) as u8,
            (y / 0x100_0000) as u8,
        ],
{
    assert(b.skip(2)[0] == b[2] && b.skip(2)[1] == b[3]);
    let lo = y as int % 0x1_0000;
    let hi = y as int / 0x1_0000;
    assert(lo / 256 % 256 == y / 0x100 % 0x100);
    assert(<u32 as Value>::spec_write(y) =~= seq![
        (y % 0x100) as u8,
        (y / 0x100 % 0x100) as u8,
        (y / 0x1_0000 % 0x100) as u8,
        (y / 0x100_0000) as u8,
    ]);
}

/// A `u64` is stored least significant byte first, and a read of eight bytes
/// gives the sum of each byte times 256 to the power of its place.
#[verifier::rlimit(50)]
pub proof fn lemma_u64_layout(b: Seq<u8>, z: u64)
    requires
        b.len() >= 8,
    ensures
        <u64 as Value>::spec_read(b).0 == b[0] + 0x100 * b[1] + 0x1_0000 * b[2] + 0x100_0000 * b[3]
            + 0x1_0000_0000 * b[4] + 0x100_0000_0000 * b[5] + 0x1_0000_0000_0000 * b[6]
            + 0x100_0000_0000_0000 * b[7],
        <u64 as Value>::spec_read(b).1 == 8,
        <u64 as Value>::spec_write(z) == seq![
            (z % 0x100) as u8,
            (z / 0x100 % 0x100) as u8,
            (z / 0x1_0000 % 0x100) as u8,
            (z / 0x100_0000 % 0x100) as u8,
            (z / 0x1_0000_0000 % 0x100) as u8,
            (z / 0x100_0000_0000 % 0x100) as u8,
            (z / 0x1_0000_0000_0000 % 0x100) as u8,
            (z / 0x100_0000_0000_0000) as u8,
        ],
{
    assert(b.skip(2)[0] == b[2] && b.skip(2)[1] == b[3]);
    assert(b.skip(4)[0] == b[4] && b.skip(4)[1] == b[5]);
    assert(b.skip(4).skip(2)[0] == b[6] && b.skip(4).skip(2)[1] == b[7]);
    assert(z % 0x1_0000_0000 % 0x1_0000 % 0x100 == z % 0x100) by (bit_vector);
    assert(z % 0x1_0000_0000 % 0x1_0000 / 0x100 % 0x100 == z / 0x100 % 0x100) by (bit_vector);
    assert(z % 0x1_0000_0000 / 0x1_0000 % 0x100 == z / 0x1_0000 % 0x100) by (bit_vector);
    assert(z % 0x1_0000_0000 / 0x1_0000 / 0x100 % 0x100 == z / 0x100_0000 % 0x100) by (bit_vector);
    assert(z / 0x1_0000_0000 % 0x1_0000 % 0x100 == z / 0x1_0000_0000 % 0x100) by (bit_vector);
    assert(z / 0x1_0000_0000 % 0x1_0000 / 0x100 % 0x100 == z / 0x100_0000_0000 % 0x100)
        by (bit_vector);
    assert(z / 0x1_0000_0000 / 0x1_0000 % 0x100 == z / 0x1_0000_0000_0000 % 0x100)
        by (bit_vector);
    assert(z / 0x1_0000_0000 / 0x1_0000 / 0x100 % 0x100 == z / 0x100_0000_0000_0000)
        by (bit_vector);
    assert(<u64 as Value>::spec_write(z) =~= seq![
        (z % 0x100) as u8,
        (z / 0x100 % 0x100) as u8,
        (z / 0x1_0000 % 0x100) as u8,
        (z / 0x100_0000 % 0x100) as u8,
        (z / 0x1_0000_0000 % 0x100) as u8,
        (z / 0x100_0000_0000 % 0x100) as u8,
        (z / 0x1_0000_0000_0000 % 0x100) as u8,
        (z / 0x100_0000_0000_0000) as u8,
    ]);
}

/// A `bool` is one byte: 1 for true and 0 for false; a read takes every byte
/// but 0 for true.
pub proof fn lemma_bool_layout(b: Seq<u8>, v: bool)
    requires
        b.len() >= 1,
    ensures
        <bool as Value>::spec_read(b) == (b[0] != 0, 1nat),
        <bool as Value>::spec_write(v) == seq![if v { 1u8 } else { 0u8 }],
{
}

/// An `Option` is a tag byte, 0 for `None` and 1 for `Some`, and for `Some`
/// the value right behind it; a read takes a tag of 0 for `None` and any other
/// tag for `Some`, whose value it reads right behind the tag.
pub proof fn lemma_option_layout<T: Value>(b: Seq<u8>, x: T)
    requires
        b.len() >= 1,
    ensures
        <Option<T> as Value>::spec_write(None) == seq![0u8],
        <Option<T> as Value>::spec_write(Some(x)) == seq![1u8] + T::spec_write(x),
        (<Option<T> as Value>::spec_read(b).0 is None) <==> b[0] == 0,
        b[0] == 0 ==> <Option<T> as Value>::spec_read(b).1 == 1,
        b[0] != 0 ==> <Option<T> as Value>::spec_read(b) == (
            Some(T::spec_read(b.skip(1)).0),
            1 + T::spec_read(b.skip(1)).1,
        ),
{
}

/// A `Result` is a tag byte, 0 for `Ok` and 1 for `Err`, and the value right
/// behind it, whatever the two types; a read takes a tag of 0 for `Ok` and any
/// other tag for `Err`, and reads the value right behind the tag.
pub proof fn lemma_result_layout<T: Value, E: Value>(b: Seq<u8>, x: T, e: E)
    requires
        b.len() >= 1,
    ensures
        <Result<T, E> as Value>::spec_write(Ok(x)) == seq![0u8] + T::spec_write(x),
        <Result<T, E> as Value>::spec_write(Err(e)) == seq![1u8] + E::spec_write(e),
        (<Result<T, E> as Value>::spec_read(b).0 is Ok) <==> b[0] == 0,
        b[0] == 0 ==> <Result<T, E> as Value>::spec_read(b) == (
            Ok::<T, E>(T::spec_read(b.skip(1)).0),
            1 + T::spec_read(b.skip(1)).1,
        ),
        b[0] != 0 ==> <Result<T, E> as Value>::spec_read(b) == (
            Err::<T, E>(E::spec_read(b.skip(1)).0),
            1 + E::spec_read(b.skip(1)).1,
        ),
{
}

/// A pair is its first component and, right behind the bytes that one
/// takes, its second: a write stores the first component's bytes and then the
/// second's; a read reads the first component at the start and the second
/// where the first one's bytes end.
pub proof fn lemma_pair_layout<T: Value, U: Value>(b: Seq<u8>, x: T, y: U)
    ensures
        <(T, U) as Value>::spec_write((x, y)) == T::spec_write(x) + U::spec_write(y),
        <(T, U) as Value>::spec_read(b).0.0 == T::spec_read(b).0,
        <(T, U) as Value>::spec_read(b).0.1 == U::spec_read(b.skip(T::spec_read(b).1 as int)).0,
        <(T, U) as Value>::spec_read(b).1 == T::spec_read(b).1 + U::spec_read(
            b.skip(T::spec_read(b).1 as int),
        ).1,
{
}

/// Writes of `xs`, one after another, store the writes of its elements in
/// order.
pub proof fn lemma_write_many_fold<T: Value>(xs: Seq<T>)
    ensures
        write_many::<T>(xs) == xs.fold_left(
            Seq::<u8>::empty(),
            |acc: Seq<u8>, x: T| acc + T::spec_write(x),
        ),
    decreases xs.len(),
{
    if xs.len() > 0 {
        lemma_write_many_fold::<T>(xs.drop_last());
    }
}

/// An array filled with `xs[0]` and then set, place by place, to the first
/// `k` elements of `xs`.
pub open spec fn array_set_prefix<T: Copy, const N: usize>(xs: Seq<T>, k: nat) -> [T; N]
    decreases k,
{
    if k == 0 {
        vstd::array::spec_array_fill_for_copy_type::<T, N>(xs[0])
    } else {
        vstd::array::spec_array_update(array_set_prefix::<T, N>(xs, (k - 1) as nat), k - 1, xs[k - 1])
    }
}

/// The first `k` places of `array_set_prefix(xs, k)` hold those of `xs`.
pub proof fn lemma_array_set_prefix<T: Copy, const N: usize>(xs: Seq<T>, k: nat)
    requires
        xs.len() == N,
        0 < N,
        k <= N,
    ensures
        array_set_prefix::<T, N>(xs, k)@.len() == N,
        forall|i: int| 0 <= i < k ==> array_set_prefix::<T, N>(xs, k)@[i] == xs[i],
    decreases k,
{
    broadcast use vstd::array::group_array_axioms;

    if k == 0 {
        let a = vstd::array::spec_array_fill_for_copy_type::<T, N>(xs[0]);
        assert(a@.len() == N);
    } else {
        lemma_array_set_prefix::<T, N>(xs, (k - 1) as nat);
    }
}

/// Every sequence of `N` elements is the view of an array of `N`.
pub proof fn lemma_array_from_seq<T: Copy, const N: usize>(xs: Seq<T>)
    requires
        xs.len() == N,
    ensures
        exists|a: [T; N]| a@ == xs,
{
    if N == 0 {
        let a = vstd::pervasive::arbitrary::<[T; N]>();
        assert(a@ =~= xs);
    } else {
        lemma_array_set_prefix::<T, N>(xs, N as nat);
        let a = array_set_prefix::<T, N>(xs, N as nat);
        assert(a@ =~= xs);
    }
}

/// An array is stored as its elements in index order, each right behind the
/// one before it.
pub proof fn lemma_array_write<T: Value + Copy, const N: usize>(a: [T; N])
    ensures
        <[T; N] as Value>::spec_write(a) == a@.fold_left(
            Seq::<u8>::empty(),
            |acc: Seq<u8>, x: T| acc + T::spec_write(x),
        ),
{
    lemma_write_many_fold::<T>(a@);
}

/// A read of an array gives `N` elements, the first read at the start of the
/// bytes, each next one right where the one before it ended.
pub proof fn lemma_array_read<T: Value + Copy, const N: usize>(b: Seq<u8>, i: int)
    requires
        0 <= i < N,
    ensures
        (<[T; N] as Value>::spec_read(b).0)@ == read_many::<T>(b, N as nat).0,
        (<[T; N] as Value>::spec_read(b).0)@[0] == T::spec_read(b).0,
        i + 1 < N ==> (<[T; N] as Value>::spec_read(b).0)@[i + 1] == T::spec_read(
            b.skip(read_many::<T>(b, (i + 1) as nat).1 as int),
        ).0,
        read_many::<T>(b, (i + 1) as nat).1 == read_many::<T>(b, i as nat).1 + T::spec_read(
            b.skip(read_many::<T>(b, i as nat).1 as int),
        ).1,
        (<[T; N] as Value>::spec_read(b).0)@[i] == T::spec_read(
            b.skip(read_many::<T>(b, i as nat).1 as int),
        ).0,
{
    lemma_read_many_len::<T>(b, N as nat);
    lemma_array_from_seq::<T, N>(read_many::<T>(b, N as nat).0);
    lemma_read_many_prefix::<T>(b, N as nat, (i + 1) as nat);
    if i + 1 < N {
        lemma_read_many_prefix::<T>(b, N as nat, (i + 2) as nat);
    }
    lemma_read_many_prefix::<T>(b, N as nat, 1);
    assert(b.skip(0) =~= b);
}

/// The first `k` of `n` reads in a row are `k` reads in a row.
pub proof fn lemma_read_many_prefix<T: Value>(b: Seq<u8>, n: nat, k: nat)
    requires
        1 <= k <= n,
    ensures
        read_many::<T>(b, n).0[k - 1] == read_many::<T>(b, k).0[k - 1],
        read_many::<T>(b, k).0[k - 1] == T::spec_read(
            b.skip(read_many::<T>(b, (k - 1) as nat).1 as int),
        ).0,
    decreases n,
{
    lemma_read_many_len::<T>(b, n);
    lemma_read_many_len::<T>(b, k);
    if n > k {
        lemma_read_many_prefix::<T>(b, (n - 1) as nat, k);
        lemma_read_many_len::<T>(b, (n - 1) as nat);
    }
}

/// An array of bytes reads as the bytes and is stored as its elements.
pub proof fn lemma_byte_array<const N: usize>(b: Seq<u8>, a: [u8; N])
    requires
        b.len() >= N,
    ensures
        (<[u8; N] as Value>::spec_read(b).0)@ == b.take(N as int),
        <[u8; N] as Value>::spec_read(b).1 == N,
        <[u8; N] as Value>::spec_write(a) == a@,
{
    lemma_byte_reads::<N>(b, N as nat);
    lemma_byte_writes(a@);
    lemma_read_many_len::<u8>(b, N as nat);
    lemma_array_from_seq::<u8, N>(read_many::<u8>(b, N as nat).0);
}

/// `n` reads of a byte in a row are the first `n` bytes.
pub proof fn lemma_byte_reads<const N: usize>(b: Seq<u8>, n: nat)
    requires
        b.len() >= n,
    ensures
        read_many::<u8>(b, n) == (b.take(n as int), n),
    decreases n,
{
    if n > 0 {
        lemma_byte_reads::<N>(b, (n - 1) as nat);
        assert(b.take(n as int) =~= b.take(n - 1).push(b[n - 1]));
    } else {
        assert(b.take(0) =~= Seq::<u8>::empty());
    }
}

/// Writes of bytes, one after another, store the bytes.
pub proof fn lemma_byte_writes(xs: Seq<u8>)
    ensures
        write_many::<u8>(xs) == xs,
    decreases xs.len(),
{
    if xs.len() > 0 {
        lemma_byte_writes(xs.drop_last());
        assert(xs.drop_last() + seq![xs.last()] =~= xs);
    } else {
        assert(xs =~= Seq::<u8>::empty());
    }
}

} // verus!
