//! Objects: typed views over a byte slice that they borrow.

use vstd::prelude::*;

use crate::internal::get_field;
use crate::value::Value;

verus! {

/// A typed view over the bytes of a buffer.
///
/// `spec_valid` says which byte strings are representations of the type; a
/// view is made over such bytes only, and keeps them.
pub trait Object<'a>: Sized {
    /// The bytes this object is a view of.
    spec fn spec_bytes(&self) -> Seq<u8>;

    /// Whether `bytes` represent an object of this type.
    spec fn spec_valid(bytes: Seq<u8>) -> bool;

    /// Makes the view over `buf`.
    fn new(buf: &'a [u8]) -> (r: Self)
        requires
            Self::spec_valid(buf@),
        ensures
            r.spec_bytes() == buf@,
    ;
}

/// An object whose representation always takes the same number of bytes.
pub trait SizedObject<'a>: Object<'a> {
    /// The number of bytes of a representation.
    spec fn spec_size() -> nat;

    /// The size as a machine integer.
    fn size() -> (n: usize)
        requires
            Self::spec_size() <= usize::MAX,
        ensures
            n == Self::spec_size(),
    ;
}

/// A fixed-size object that is one slot holding a value of type `T`, as a
/// field of a generated record is.
pub struct Field<'a, T: Value> {
    buf: &'a [u8],
    marker: core::marker::PhantomData<T>,
}

impl<'a, T: Value> Field<'a, T> {
    #[verifier::type_invariant]
    spec fn inv(self) -> bool {
        &&& T::spec_stride() <= usize::MAX
        &&& self.buf@.len() == T::spec_stride()
    }

    /// The bytes of the slot.
    pub closed spec fn bytes(self) -> Seq<u8> {
        self.buf@
    }

    /// The value in the slot.
    pub fn get(&self) -> (v: T)
        ensures
            v == T::spec_read(self.bytes()).0,
    {
        proof {
            use_type_invariant(self);
            assert(self.buf@.skip(0) =~= self.buf@);
        }
        get_field(self.buf, 0)
    }
}

impl<'a, T: Value> Object<'a> for Field<'a, T> {
    open spec fn spec_bytes(&self) -> Seq<u8> {
        self.bytes()
    }

    open spec fn spec_valid(bytes: Seq<u8>) -> bool {
        &&& T::spec_stride() <= usize::MAX
        &&& bytes.len() == T::spec_stride()
    }

    fn new(buf: &'a [u8]) -> (r: Self) {
        Field { buf, marker: core::marker::PhantomData }
    }
}

impl<'a, T: Value> SizedObject<'a> for Field<'a, T> {
    open spec fn spec_size() -> nat {
        T::spec_stride()
    }

    fn size() -> (n: usize) {
        T::stride()
    }
}

} // verus!
