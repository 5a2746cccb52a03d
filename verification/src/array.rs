//! Arrays laid out in a borrowed byte buffer.

use vstd::prelude::*;

use core::marker::PhantomData;

use crate::internal::get_field;
use crate::internal::lemma_slice_len_bound;
use crate::internal::pop_slice;
use crate::internal::get_child;
use crate::object::Object;
use crate::object::SizedObject;
use crate::value::max;
use crate::value::spec_max;
use crate::value::Value;

verus! {

/// `stride * index` and the slot after it fit in a buffer of `len` bytes
/// when `index` is below `len / stride`.
pub proof fn lemma_slot_in_bounds(len: nat, stride: nat, index: nat)
    requires
        stride > 0,
        index < len / stride,
    ensures
        stride * index + stride <= len,
        stride * index + stride == stride * (index + 1),
{
    let q = len / stride;
    assert(stride * q <= len) by (nonlinear_arith)
        requires
            stride > 0,
            q == len / stride,
    ;
    assert(stride * (index + 1) <= stride * q) by (nonlinear_arith)
        requires
            stride > 0,
            index + 1 <= q,
    ;
    assert(stride * index + stride == stride * (index + 1)) by (nonlinear_arith);
}

/// Removing `k` whole slots removes `k` from the slot count.
pub proof fn lemma_div_after_slots(l: nat, s: nat, k: nat)
    requires
        s > 0,
        s * k <= l,
    ensures
        (l - s * k) / (s as int) == l / s - k,
        (l - s * k) % (s as int) == l % s,
{
    let q = l as int / s as int;
    let r = l as int % s as int;
    vstd::arithmetic::div_mod::lemma_fundamental_div_mod(l as int, s as int);
    vstd::arithmetic::div_mod::lemma_mod_pos_bound(l as int, s as int);
    assert(s * (q - k) == s * q - s * k) by (nonlinear_arith);
    vstd::arithmetic::div_mod::lemma_div_multiples_vanish_fancy(q - k, r, s as int);
    vstd::arithmetic::div_mod::lemma_fundamental_div_mod_converse_mod(
        l - s * k,
        s as int,
        q - k,
        r,
    );
}

/// A whole number of slots that is less than one slot is no slot at all.
pub proof fn lemma_no_slot(l: nat, s: nat)
    requires
        s > 0,
        l % s == 0,
        l / s == 0,
    ensures
        l == 0,
{
    vstd::arithmetic::div_mod::lemma_fundamental_div_mod(l as int, s as int);
    assert(s * 0 == 0);
}

/// The slot size of an array of `T`: the stride of `T`, but at least one byte.
pub open spec fn array_stride<T: Value>() -> nat {
    spec_max(T::spec_stride(), 1)
}

/// The values that an array of `T` over `bytes` holds: one per full slot.
pub open spec fn array_values<T: Value>(bytes: Seq<u8>) -> Seq<T> {
    let s = array_stride::<T>();
    Seq::new(bytes.len() / s, |i: int| T::spec_read(bytes.skip(s * i)).0)
}

/// Whether `bytes` can back an array of `T`: a whole number of slots.
pub open spec fn array_valid<T: Value>(bytes: Seq<u8>) -> bool {
    &&& T::spec_stride() <= usize::MAX
    &&& bytes.len() % array_stride::<T>() == 0
}

/// Skipping `k` slots of the bytes skips `k` values of the array.
pub proof fn lemma_array_values_skip<T: Value>(bytes: Seq<u8>, k: nat)
    requires
        array_stride::<T>() * k <= bytes.len(),
    ensures
        array_values::<T>(bytes.skip((array_stride::<T>() * k) as int)) == array_values::<T>(bytes).skip(
            k as int,
        ),
{
    let s = array_stride::<T>();
    let rest = bytes.skip((s * k) as int);
    let l = bytes.len();
    lemma_div_after_slots(l, s, k);
    assert forall|i: int| 0 <= i < array_values::<T>(rest).len() implies #[trigger] array_values::<
        T,
    >(rest)[i] == array_values::<T>(bytes).skip(k as int)[i] by {
        assert(s * i + s * k == s * (i + k)) by (nonlinear_arith);
        lemma_slot_in_bounds(rest.len(), s, i as nat);
        assert(0 <= s * i) by (nonlinear_arith)
            requires
                s > 0,
                i >= 0,
        ;
        assert(rest.skip(s * i) =~= bytes.skip(s * (i + k)));
    }
    assert(array_values::<T>(rest) =~= array_values::<T>(bytes).skip(k as int));
}

/// An array of values of `T`, each in a slot of `array_stride::<T>()` bytes,
/// over a borrowed buffer.
pub struct ArrayV<'a, T: Value> {
    buf: &'a [u8],
    marker: PhantomData<T>,
}

impl<'a, T: Value> ArrayV<'a, T> {
    #[verifier::type_invariant]
    spec fn inv(self) -> bool {
        array_valid::<T>(self.buf@)
    }

    /// The bytes of the array.
    pub closed spec fn bytes(self) -> Seq<u8> {
        self.buf@
    }
}

impl<'a, T: Value> View for ArrayV<'a, T> {
    type V = Seq<T>;

    open spec fn view(&self) -> Seq<T> {
        array_values::<T>(self.bytes())
    }
}

impl<'a, T: Value> Object<'a> for ArrayV<'a, T> {
    open spec fn spec_bytes(&self) -> Seq<u8> {
        self.bytes()
    }

    open spec fn spec_valid(bytes: Seq<u8>) -> bool {
        array_valid::<T>(bytes)
    }

    fn new(buf: &'a [u8]) -> (r: Self) {
        ArrayV { buf, marker: PhantomData }
    }
}

impl<'a, T: Value> ArrayV<'a, T> {
    /// The slot size.
    fn slot() -> (n: usize)
        requires
            T::spec_stride() <= usize::MAX,
        ensures
            n == array_stride::<T>(),
    {
        max(T::stride(), 1)
    }

    /// Whether the array holds no value.
    pub fn is_empty(&self) -> (r: bool)
        ensures
            r == (self@.len() == 0),
            r == (self.bytes().len() == 0),
    {
        proof {
            use_type_invariant(self);
            if self.buf@.len() / array_stride::<T>() == 0 {
                lemma_no_slot(self.buf@.len(), array_stride::<T>());
            }
        }
        self.buf.is_empty()
    }

    /// The number of values: one per slot.
    pub fn len(&self) -> (r: usize)
        ensures
            r == self@.len(),
            r == self.bytes().len() / array_stride::<T>(),
    {
        proof {
            use_type_invariant(self);
        }
        self.buf.len() / Self::slot()
    }

    /// The value at `index`.
    pub fn get_unchecked(&self, index: usize) -> (v: T)
        requires
            index < self@.len(),
        ensures
            v == self@[index as int],
            v == T::spec_read(self.bytes().skip(array_stride::<T>() * index)).0,
    {
        proof {
            use_type_invariant(self);
            lemma_slot_in_bounds(self.buf@.len(), array_stride::<T>(), index as nat);
            lemma_slice_len_bound(self.buf);
        }
        let i = Self::slot() * index;
        get_field(self.buf, i)
    }

    /// The value at `index`; `index` is below `len()`.
    pub fn get(&self, index: usize) -> (v: T)
        requires
            index < self@.len(),
        ensures
            v == self@[index as int],
            v == T::spec_read(self.bytes().skip(array_stride::<T>() * index)).0,
    {
        self.get_unchecked(index)
    }

    /// A cursor over the values, first to last.
    pub fn iter(&self) -> (r: IterArrayV<'a, T>)
        ensures
            r@ == self@,
            r.bytes() == self.bytes(),
    {
        proof {
            use_type_invariant(self);
        }
        IterArrayV { buf: self.buf, marker: PhantomData }
    }
}

/// A cursor over the values of an `ArrayV` that have not been taken yet.
pub struct IterArrayV<'a, T: Value> {
    buf: &'a [u8],
    marker: PhantomData<T>,
}

impl<'a, T: Value> IterArrayV<'a, T> {
    #[verifier::type_invariant]
    spec fn inv(self) -> bool {
        array_valid::<T>(self.buf@)
    }

    /// The bytes of the values not taken yet.
    pub closed spec fn bytes(self) -> Seq<u8> {
        self.buf@
    }

    /// Takes the next value, if any is left.
    pub fn next(&mut self) -> (r: Option<T>)
        ensures
            old(self).bytes().len() == 0 ==> final(self).bytes() == old(self).bytes(),
            old(self).bytes().len() > 0 ==> final(self).bytes() == old(self).bytes().skip(
                array_stride::<T>() as int,
            ),
            old(self).bytes().len() > 0 ==> r == Some(T::spec_read(old(self).bytes()).0),
            old(self)@.len() == 0 ==> r is None && final(self)@ == old(self)@,
            old(self)@.len() > 0 ==> r == Some(old(self)@[0]),
            old(self)@.len() > 0 ==> final(self)@ == old(self)@.drop_first(),
    {
        proof {
            use_type_invariant(&*self);
        }
        if self.buf.is_empty() {
            None
        } else {
            let ghost b = self.buf@;
            let ghost s = array_stride::<T>();
            let n = max(T::stride(), 1);
            proof {
                assert(b.len() >= s) by {
                    if b.len() < s {
                        vstd::arithmetic::div_mod::lemma_basic_div(b.len() as int, s as int);
                        lemma_no_slot(b.len(), s);
                    }
                }
                lemma_div_after_slots(b.len(), s, 1);
                lemma_array_values_skip::<T>(b, 1);
            }
            let mut rest = self.buf;
            let p = pop_slice(&mut rest, n);
            self.buf = rest;
            proof {
                assert(p@.skip(0) =~= p@);
                assert(b.skip((s * 0) as int) =~= b);
                assert(p@.take(T::spec_stride() as int) =~= b.take(T::spec_stride() as int));
                T::lemma_read_local(p@, b);
            }
            Some(get_field(p, 0))
        }
    }
}

impl<'a, T: Value> View for IterArrayV<'a, T> {
    type V = Seq<T>;

    open spec fn view(&self) -> Seq<T> {
        array_values::<T>(self.bytes())
    }
}

/// The first `size` bytes of each whole slot of `stride` bytes.
pub open spec fn slots(bytes: Seq<u8>, stride: nat, size: nat) -> Seq<Seq<u8>> {
    Seq::new(bytes.len() / stride, |i: int| bytes.subrange(stride * i, stride * i + size))
}

/// Skipping `k` slots of the bytes skips `k` of their slots.
pub proof fn lemma_slots_skip(bytes: Seq<u8>, stride: nat, size: nat, k: nat)
    requires
        stride > 0,
        size <= stride,
        stride * k <= bytes.len(),
    ensures
        slots(bytes.skip((stride * k) as int), stride, size) == slots(bytes, stride, size).skip(
            k as int,
        ),
{
    let rest = bytes.skip((stride * k) as int);
    lemma_div_after_slots(bytes.len(), stride, k);
    assert forall|i: int| 0 <= i < slots(rest, stride, size).len() implies #[trigger] slots(
        rest,
        stride,
        size,
    )[i] == slots(bytes, stride, size).skip(k as int)[i] by {
        assert(stride * i + stride * k == stride * (i + k)) by (nonlinear_arith);
        lemma_slot_in_bounds(rest.len(), stride, i as nat);
        lemma_slot_in_bounds(bytes.len(), stride, (i + k) as nat);
        assert(0 <= stride * i) by (nonlinear_arith)
            requires
                stride > 0,
                i >= 0,
        ;
        assert(rest.subrange(stride * i, stride * i + size) =~= bytes.subrange(
            stride * (i + k),
            stride * (i + k) + size,
        ));
    }
    assert(slots(rest, stride, size) =~= slots(bytes, stride, size).skip(k as int));
}

/// The slot size of an array of objects of type `T`: their size, but at
/// least one byte.
pub open spec fn object_stride<'a, T: SizedObject<'a>>() -> nat {
    spec_max(T::spec_size(), 1)
}

/// The representations that an array of objects of type `T` over `bytes`
/// holds: the first `T::spec_size()` bytes of each whole slot.
pub open spec fn object_slots<'a, T: SizedObject<'a>>(bytes: Seq<u8>) -> Seq<Seq<u8>> {
    slots(bytes, object_stride::<'a, T>(), T::spec_size())
}

/// Whether `bytes` can back an array of objects of type `T`: a whole number
/// of slots, each of which starts with a representation of a `T`.
pub open spec fn object_array_valid<'a, T: SizedObject<'a>>(bytes: Seq<u8>) -> bool {
    &&& T::spec_size() <= usize::MAX
    &&& bytes.len() % object_stride::<'a, T>() == 0
    &&& forall|i: int|
        0 <= i < object_slots::<'a, T>(bytes).len() ==> T::spec_valid(
            #[trigger] object_slots::<'a, T>(bytes)[i],
        )
}

/// An array of objects of type `T`, each in a slot of `object_stride::<T>()`
/// bytes, over a borrowed buffer.
pub struct ArrayO<'a, T: SizedObject<'a>> {
    buf: &'a [u8],
    marker: PhantomData<T>,
}

impl<'a, T: SizedObject<'a>> ArrayO<'a, T> {
    #[verifier::type_invariant]
    spec fn inv(self) -> bool {
        object_array_valid::<'a, T>(self.buf@)
    }

    /// The bytes of the array.
    pub closed spec fn bytes(self) -> Seq<u8> {
        self.buf@
    }

    /// The slot size.
    fn slot() -> (n: usize)
        requires
            T::spec_size() <= usize::MAX,
        ensures
            n == object_stride::<'a, T>(),
    {
        max(T::size(), 1)
    }

    /// Whether the array holds no object.
    pub fn is_empty(&self) -> (r: bool)
        ensures
            r == (self@.len() == 0),
            r == (self.bytes().len() == 0),
    {
        proof {
            use_type_invariant(self);
            if self.buf@.len() / object_stride::<'a, T>() == 0 {
                lemma_no_slot(self.buf@.len(), object_stride::<'a, T>());
            }
        }
        self.buf.is_empty()
    }

    /// The number of objects: one per slot.
    pub fn len(&self) -> (r: usize)
        ensures
            r == self@.len(),
            r == self.bytes().len() / object_stride::<'a, T>(),
    {
        proof {
            use_type_invariant(self);
        }
        self.buf.len() / Self::slot()
    }

    /// The object at `index`.
    pub fn get_unchecked(&self, index: usize) -> (r: T)
        requires
            index < self@.len(),
        ensures
            r.spec_bytes() == self@[index as int],
            r.spec_bytes() == self.bytes().subrange(
                object_stride::<'a, T>() * index,
                object_stride::<'a, T>() * index + T::spec_size(),
            ),
    {
        proof {
            use_type_invariant(self);
            lemma_slot_in_bounds(self.buf@.len(), object_stride::<'a, T>(), index as nat);
            lemma_slice_len_bound(self.buf);
            assert(T::spec_valid(object_slots::<'a, T>(self.buf@)[index as int]));
        }
        let i = Self::slot() * index;
        get_child(self.buf, i, T::size())
    }

    /// The object at `index`; `index` is below `len()`.
    pub fn get(&self, index: usize) -> (r: T)
        requires
            index < self@.len(),
        ensures
            r.spec_bytes() == self@[index as int],
            r.spec_bytes() == self.bytes().subrange(
                object_stride::<'a, T>() * index,
                object_stride::<'a, T>() * index + T::spec_size(),
            ),
    {
        self.get_unchecked(index)
    }

    /// A cursor over the objects, first to last.
    pub fn iter(&self) -> (r: IterArrayO<'a, T>)
        ensures
            r@ == self@,
            r.bytes() == self.bytes(),
    {
        proof {
            use_type_invariant(self);
        }
        IterArrayO { buf: self.buf, marker: PhantomData }
    }
}

impl<'a, T: SizedObject<'a>> View for ArrayO<'a, T> {
    type V = Seq<Seq<u8>>;

    open spec fn view(&self) -> Seq<Seq<u8>> {
        object_slots::<'a, T>(self.bytes())
    }
}

impl<'a, T: SizedObject<'a>> Object<'a> for ArrayO<'a, T> {
    open spec fn spec_bytes(&self) -> Seq<u8> {
        self.bytes()
    }

    open spec fn spec_valid(bytes: Seq<u8>) -> bool {
        object_array_valid::<'a, T>(bytes)
    }

    fn new(buf: &'a [u8]) -> (r: Self) {
        ArrayO { buf, marker: PhantomData }
    }
}

/// A cursor over the objects of an `ArrayO` that have not been taken yet.
pub struct IterArrayO<'a, T: SizedObject<'a>> {
    buf: &'a [u8],
    marker: PhantomData<T>,
}

impl<'a, T: SizedObject<'a>> IterArrayO<'a, T> {
    #[verifier::type_invariant]
    spec fn inv(self) -> bool {
        object_array_valid::<'a, T>(self.buf@)
    }

    /// The bytes of the objects not taken yet.
    pub closed spec fn bytes(self) -> Seq<u8> {
        self.buf@
    }

    /// Takes the next object, if any is left.
    pub fn next(&mut self) -> (r: Option<T>)
        ensures
            old(self).bytes().len() == 0 ==> final(self).bytes() == old(self).bytes(),
            old(self).bytes().len() > 0 ==> final(self).bytes() == old(self).bytes().skip(
                object_stride::<'a, T>() as int,
            ),
            old(self).bytes().len() > 0 ==> r is Some && r->0.spec_bytes() == old(
                self,
            ).bytes().subrange(0, T::spec_size() as int),
            old(self)@.len() == 0 ==> r is None && final(self)@ == old(self)@,
            old(self)@.len() > 0 ==> r is Some && r->0.spec_bytes() == old(self)@[0],
            old(self)@.len() > 0 ==> final(self)@ == old(self)@.drop_first(),
    {
        proof {
            use_type_invariant(&*self);
        }
        if self.buf.is_empty() {
            None
        } else {
            let ghost b = self.buf@;
            let ghost s = object_stride::<'a, T>();
            let ghost z = T::spec_size();
            let n = max(T::size(), 1);
            proof {
                assert(b.len() >= s) by {
                    if b.len() < s {
                        vstd::arithmetic::div_mod::lemma_basic_div(b.len() as int, s as int);
                        lemma_no_slot(b.len(), s);
                    }
                }
                lemma_div_after_slots(b.len(), s, 1);
                lemma_slots_skip(b, s, z, 1);
                assert(T::spec_valid(object_slots::<'a, T>(b)[0]));
                assert forall|i: int|
                    0 <= i < object_slots::<'a, T>(b.skip(s as int)).len() implies T::spec_valid(
                    #[trigger] object_slots::<'a, T>(b.skip(s as int))[i],
                ) by {
                    assert(object_slots::<'a, T>(b.skip(s as int))[i] == object_slots::<'a, T>(
                        b,
                    )[i + 1]);
                }
            }
            let mut rest = self.buf;
            let p = pop_slice(&mut rest, n);
            self.buf = rest;
            proof {
                assert(p@.subrange(0, z as int) =~= b.subrange((s * 0) as int, (s * 0 + z) as int));
            }
            Some(get_child(p, 0, T::size()))
        }
    }
}

impl<'a, T: SizedObject<'a>> View for IterArrayO<'a, T> {
    type V = Seq<Seq<u8>>;

    open spec fn view(&self) -> Seq<Seq<u8>> {
        object_slots::<'a, T>(self.bytes())
    }
}

/// Entry `index` of the offset table at the start of `bytes`: the
/// little-endian `u32` in bytes `4 * index .. 4 * index + 4`.
pub open spec fn offset_entry(bytes: Seq<u8>, index: int) -> u32 {
    u32::spec_read(bytes.skip(4 * index)).0
}

/// Whether `bytes` can back an array of variable-size objects: it starts with
/// an offset table whose first entry, the table's own size in bytes, counts
/// at least that entry.
pub open spec fn indexed_array_valid(bytes: Seq<u8>) -> bool {
    &&& bytes.len() >= 4
    &&& offset_entry(bytes, 0) >= 4
}

/// An array of variable-size objects of type `T` over a borrowed buffer whose
/// first bytes are a table of little-endian `u32` offsets, one more than there
/// are objects: entry `index` is at bytes `4 * index .. 4 * index + 4` of the
/// buffer, so the table's first entry, its own size in bytes, is at byte 0.
pub struct ArrayI<'a, T: Object<'a>> {
    buf: &'a [u8],
    marker: PhantomData<T>,
}

impl<'a, T: Object<'a>> ArrayI<'a, T> {
    #[verifier::type_invariant]
    spec fn inv(self) -> bool {
        indexed_array_valid(self.buf@)
    }

    /// The bytes of the array.
    pub closed spec fn bytes(self) -> Seq<u8> {
        self.buf@
    }

    /// The number of objects: one less than the whole entries that the table's
    /// size in bytes counts.
    pub open spec fn spec_len(self) -> nat {
        (offset_entry(self.bytes(), 0) / 4 - 1) as nat
    }

    /// Entry `index` of the offset table.
    fn offset(&self, index: usize) -> (r: usize)
        requires
            4 * index + 4 <= self.bytes().len(),
        ensures
            r == offset_entry(self.bytes(), index as int),
    {
        proof {
            lemma_slice_len_bound(self.buf);
        }
        let i = 4 * index;
        let x: u32 = get_field(self.buf, i);
        x as usize
    }

    /// Whether the offset table is exactly one entry long.
    pub fn is_empty(&self) -> (r: bool)
        ensures
            r == (offset_entry(self.bytes(), 0) == 4),
    {
        proof {
            use_type_invariant(self);
        }
        let n = self.offset(0);
        n == 4
    }

    /// The number of objects.
    pub fn len(&self) -> (r: usize)
        ensures
            r == self.spec_len(),
            r == offset_entry(self.bytes(), 0) / 4 - 1,
    {
        proof {
            use_type_invariant(self);
        }
        let n = self.offset(0);
        n / 4 - 1
    }
}

impl<'a, T: Object<'a>> Object<'a> for ArrayI<'a, T> {
    open spec fn spec_bytes(&self) -> Seq<u8> {
        self.bytes()
    }

    open spec fn spec_valid(bytes: Seq<u8>) -> bool {
        indexed_array_valid(bytes)
    }

    fn new(buf: &'a [u8]) -> (r: Self) {
        ArrayI { buf, marker: PhantomData }
    }
}

/// What a cursor over `bytes` holds after one call of `next`: the bytes past
/// the first slot of `stride` bytes, or nothing new once it is empty.
pub open spec fn cursor_step(bytes: Seq<u8>, stride: nat) -> Seq<u8> {
    if bytes.len() == 0 {
        bytes
    } else {
        bytes.skip(stride as int)
    }
}

/// What a cursor over `bytes` holds after `k` calls of `next`.
pub open spec fn cursor_after(bytes: Seq<u8>, stride: nat, k: nat) -> Seq<u8>
    decreases k,
{
    if k == 0 {
        bytes
    } else {
        cursor_step(cursor_after(bytes, stride, (k - 1) as nat), stride)
    }
}

/// A cursor over `n` whole slots holds, after `k <= n` calls of `next`, the
/// bytes past the first `k` slots; from the `n`-th call on it holds nothing.
pub proof fn lemma_cursor_after(bytes: Seq<u8>, stride: nat, k: nat)
    requires
        stride > 0,
        bytes.len() % stride == 0,
    ensures
        k <= bytes.len() / stride ==> cursor_after(bytes, stride, k) == bytes.skip(
            (stride * k) as int,
        ),
        k <= bytes.len() / stride ==> cursor_after(bytes, stride, k).len() == bytes.len() - stride
            * k,
        k < bytes.len() / stride ==> cursor_after(bytes, stride, k).len() >= stride,
        k >= bytes.len() / stride ==> cursor_after(bytes, stride, k).len() == 0,
    decreases k,
{
    let n = bytes.len() / stride;
    vstd::arithmetic::div_mod::lemma_fundamental_div_mod(bytes.len() as int, stride as int);
    assert(bytes.len() == stride * n);
    if k == 0 {
        assert(stride * k == 0) by (nonlinear_arith)
            requires
                k == 0,
        ;
        assert(bytes.skip(0) =~= bytes);
        if n > 0 {
            assert(stride * n >= stride) by (nonlinear_arith)
                requires
                    n > 0,
                    stride > 0,
            ;
        }
    } else {
        lemma_cursor_after(bytes, stride, (k - 1) as nat);
        let prev = cursor_after(bytes, stride, (k - 1) as nat);
        if k <= n {
            assert(stride * k == stride * (k - 1) + stride) by (nonlinear_arith);
            assert(stride * k <= stride * n) by (nonlinear_arith)
                requires
                    k <= n,
                    stride > 0,
            ;
            assert(prev.len() == stride * n - stride * (k - 1));
            assert(prev.len() >= stride);
            assert(cursor_after(bytes, stride, k) == prev.skip(stride as int));
            assert(prev.skip(stride as int) =~= bytes.skip((stride * k) as int));
            if k < n {
                assert(stride * n - stride * k >= stride) by (nonlinear_arith)
                    requires
                        k < n,
                        stride > 0,
                ;
            }
        } else {
            if k - 1 == n {
                assert(stride * (k - 1) == stride * n);
            }
        }
    }
}

/// Iterating an array of values yields its values in index order, one per
/// call of `next`, and then nothing, however many more calls follow: the
/// `k`-th call (from zero) on a cursor started over `bytes` returns
/// `array_values(bytes)[k]` while `k` is below their number, and `None` after.
pub proof fn lemma_array_iteration<T: Value>(bytes: Seq<u8>, k: nat)
    requires
        array_valid::<T>(bytes),
    ensures
        k < array_values::<T>(bytes).len() ==> cursor_after(bytes, array_stride::<T>(), k).len()
            > 0,
        k < array_values::<T>(bytes).len() ==> T::spec_read(
            cursor_after(bytes, array_stride::<T>(), k),
        ).0 == array_values::<T>(bytes)[k as int],
        k >= array_values::<T>(bytes).len() ==> cursor_after(bytes, array_stride::<T>(), k).len()
            == 0,
{
    lemma_cursor_after(bytes, array_stride::<T>(), k);
}

/// Iterating an array of objects yields the representations of its objects in
/// index order, one per call of `next`, and then nothing.
pub proof fn lemma_object_array_iteration<'a, T: SizedObject<'a>>(bytes: Seq<u8>, k: nat)
    requires
        object_array_valid::<'a, T>(bytes),
    ensures
        k < object_slots::<'a, T>(bytes).len() ==> cursor_after(
            bytes,
            object_stride::<'a, T>(),
            k,
        ).len() > 0,
        k < object_slots::<'a, T>(bytes).len() ==> cursor_after(
            bytes,
            object_stride::<'a, T>(),
            k,
        ).subrange(0, T::spec_size() as int) == object_slots::<'a, T>(bytes)[k as int],
        k >= object_slots::<'a, T>(bytes).len() ==> cursor_after(
            bytes,
            object_stride::<'a, T>(),
            k,
        ).len() == 0,
{
    let s = object_stride::<'a, T>();
    lemma_cursor_after(bytes, s, k);
    if k < object_slots::<'a, T>(bytes).len() {
        let c = cursor_after(bytes, s, k);
        lemma_slot_in_bounds(bytes.len(), s, k);
        assert(c.subrange(0, T::spec_size() as int) =~= bytes.subrange(
            (s * k) as int,
            (s * k + T::spec_size()) as int,
        ));
    }
}

/// An offset table entry is the little-endian `u32` in its four bytes.
pub proof fn lemma_offset_entry(bytes: Seq<u8>, index: int)
    requires
        0 <= index,
        4 * index + 4 <= bytes.len(),
    ensures
        offset_entry(bytes, index) == bytes[4 * index] + 0x100 * bytes[4 * index + 1] + 0x1_0000
            * bytes[4 * index + 2] + 0x100_0000 * bytes[4 * index + 3],
{
    let b = bytes.skip(4 * index);
    assert(b[0] == bytes[4 * index] && b[1] == bytes[4 * index + 1]);
    assert(b.skip(2)[0] == bytes[4 * index + 2] && b.skip(2)[1] == bytes[4 * index + 3]);
}

/// An array whose offset table has `k + 1` entries, so that its first entry
/// is `4 * (k + 1)`, holds `k` objects, and is empty exactly when `k` is zero.
pub proof fn lemma_indexed_len<'a, T: Object<'a>>(a: ArrayI<'a, T>, k: nat)
    requires
        offset_entry(a.bytes(), 0) == 4 * (k + 1),
    ensures
        a.spec_len() == k,
        (offset_entry(a.bytes(), 0) == 4) <==> k == 0,
{
}

/// The slot of an array of values is the values' own size, or one byte for
/// values of no size.
pub proof fn lemma_array_stride<T: Value>()
    ensures
        T::spec_stride() == 0 ==> array_stride::<T>() == 1,
        T::spec_stride() > 0 ==> array_stride::<T>() == T::spec_stride(),
{
}

} // verus!
