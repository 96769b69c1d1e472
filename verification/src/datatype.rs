//! The element types that the reduction recognises, and what a sum of two
//! elements is.

use vstd::prelude::*;

verus! {

/// An element of a reduction buffer.
///
/// Every element stands for an integer (`value`), and sums are taken modulo
/// the width of the type: `wrap` maps an integer back into the type.
pub trait MpiType: Copy + Sized {
    /// The integer that the element stands for.
    spec fn value(self) -> int;

    /// Whether an integer can be held without wrapping.
    spec fn fits(x: int) -> bool;

    /// The element that an integer wraps around to.
    spec fn wrap(x: int) -> Self;

    /// Number of bytes that one element occupies.
    spec fn spec_size() -> int;

    /// Number of bytes that one element occupies.
    fn size() -> (bytes: usize)
        ensures
            bytes == Self::spec_size(),
    ;

    /// An element is one, two, four or eight bytes wide, so that a whole
    /// number of elements fills a page.
    proof fn lemma_size()
        ensures
            Self::spec_size() == 1 || Self::spec_size() == 2 || Self::spec_size() == 4
                || Self::spec_size() == 8,
    ;

    /// The element that stands for 0.
    fn zero() -> (z: Self)
        ensures
            z == Self::wrap(0),
    ;

    /// Adds `other` into `self`, wrapping around at the type's bounds.
    fn sum_mut(&mut self, other: &Self)
        ensures
            *final(self) == Self::wrap(old(self).value() + other.value()),
    ;

    /// An integer that fits is held exactly.
    proof fn lemma_wrap_exact(x: int)
        requires
            Self::fits(x),
        ensures
            Self::wrap(x).value() == x,
    ;

    /// Every element is the wrap of its own value.
    proof fn lemma_wrap_value(e: Self)
        ensures
            Self::fits(e.value()),
            Self::wrap(e.value()) == e,
    ;

    /// Wrapping before a further addition changes nothing.
    proof fn lemma_wrap_sum(x: int, y: int)
        ensures
            Self::wrap(Self::wrap(x).value() + y) == Self::wrap(x + y),
    ;
}

impl MpiType for i32 {
    open spec fn value(self) -> int {
        self as int
    }

    open spec fn fits(x: int) -> bool {
        i32::MIN <= x <= i32::MAX
    }

    open spec fn wrap(x: int) -> i32 {
        ((x + 0x8000_0000) % 0x1_0000_0000 - 0x8000_0000) as i32
    }

    open spec fn spec_size() -> int {
        4
    }

    fn size() -> (bytes: usize) {
        4
    }

    proof fn lemma_size() {
    }

    fn zero() -> (z: i32) {
        0
    }

    fn sum_mut(&mut self, other: &i32) {
        *self = self.wrapping_add(*other);
    }

    proof fn lemma_wrap_exact(x: int) {
    }

    proof fn lemma_wrap_value(e: i32) {
    }

    proof fn lemma_wrap_sum(x: int, y: int) {
    }
}

impl MpiType for i8 {
    open spec fn value(self) -> int {
        self as int
    }

    open spec fn fits(x: int) -> bool {
        i8::MIN <= x <= i8::MAX
    }

    open spec fn wrap(x: int) -> i8 {
        ((x + 0x80) % 0x100 - 0x80) as i8
    }

    open spec fn spec_size() -> int {
        1
    }

    fn size() -> (bytes: usize) {
        1
    }

    proof fn lemma_size() {
    }

    fn zero() -> (z: i8) {
        0
    }

    fn sum_mut(&mut self, other: &i8) {
        *self = self.wrapping_add(*other);
    }

    proof fn lemma_wrap_exact(x: int) {
    }

    proof fn lemma_wrap_value(e: i8) {
    }

    proof fn lemma_wrap_sum(x: int, y: int) {
    }
}

/// The element types that a caller can name.
#[derive(Clone, Copy, Debug, PartialEq, Eq, Structural)]
pub enum Datatype {
    /// 32-bit floating point.
    Float32,
    /// 32-bit signed integer.
    Int32,
    /// 8-bit signed integer.
    Int8,
}

impl Datatype {
    /// Number of bytes that one element of the type occupies.
    pub open spec fn spec_size(self) -> int {
        match self {
            Datatype::Float32 => 4,
            Datatype::Int32 => 4,
            Datatype::Int8 => 1,
        }
    }

    /// The element type to reduce over, given whether the operation tag is
    /// the sum and which of the three recognised type tags the type tag
    /// equals: the first type that it equals, and none if the operation is
    /// not the sum or the type is none of the three. With none, the
    /// reduction is skipped.
    pub fn recognize(is_sum: bool, is_float32: bool, is_int32: bool, is_int8: bool) -> (datatype:
        Option<Datatype>)
        ensures
            datatype == if !is_sum {
                None
            } else if is_float32 {
                Some(Datatype::Float32)
            } else if is_int32 {
                Some(Datatype::Int32)
            } else if is_int8 {
                Some(Datatype::Int8)
            } else {
                None
            },
    {
        if !is_sum {
            None
        } else if is_float32 {
            Some(Datatype::Float32)
        } else if is_int32 {
            Some(Datatype::Int32)
        } else if is_int8 {
            Some(Datatype::Int8)
        } else {
            None
        }
    }

    /// Number of bytes that one element of the type occupies.
    pub fn size(self) -> (bytes: usize)
        ensures
            bytes == self.spec_size(),
    {
        match self {
            Datatype::Float32 => 4,
            Datatype::Int32 => 4,
            Datatype::Int8 => 1,
        }
    }
}

} // verus!
