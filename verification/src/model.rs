//! The mathematical models decoded values are pinned to. A codec's parse
//! function returns a value of the model type: integers model themselves,
//! owned text is modelled by its character sequence, byte buffers by their
//! byte sequence, and composites by tuples and options of their parts'
//! models.
use vstd::prelude::*;

verus! {

use crate::endian::{Ascii, Length, UTF16Char, BE, LE, UTF16, VLQ};

/// Ties a type to the mathematical model its decoder reproduces.
pub trait Model {
    /// The model type.
    type M;

    /// The model of this value.
    spec fn model(&self) -> Self::M;
}

impl Model for u8 {
    type M = u8;

    open spec fn model(&self) -> u8 {
        *self
    }
}

impl Model for i8 {
    type M = i8;

    open spec fn model(&self) -> i8 {
        *self
    }
}

impl Model for u16 {
    type M = u16;

    open spec fn model(&self) -> u16 {
        *self
    }
}

impl Model for i16 {
    type M = i16;

    open spec fn model(&self) -> i16 {
        *self
    }
}

impl Model for u32 {
    type M = u32;

    open spec fn model(&self) -> u32 {
        *self
    }
}

impl Model for i32 {
    type M = i32;

    open spec fn model(&self) -> i32 {
        *self
    }
}

impl Model for u64 {
    type M = u64;

    open spec fn model(&self) -> u64 {
        *self
    }
}

impl Model for i64 {
    type M = i64;

    open spec fn model(&self) -> i64 {
        *self
    }
}

impl Model for u128 {
    type M = u128;

    open spec fn model(&self) -> u128 {
        *self
    }
}

impl Model for i128 {
    type M = i128;

    open spec fn model(&self) -> i128 {
        *self
    }
}

impl Model for usize {
    type M = usize;

    open spec fn model(&self) -> usize {
        *self
    }
}

impl Model for isize {
    type M = isize;

    open spec fn model(&self) -> isize {
        *self
    }
}

impl Model for bool {
    type M = bool;

    open spec fn model(&self) -> bool {
        *self
    }
}

impl Model for char {
    type M = char;

    open spec fn model(&self) -> char {
        *self
    }
}

impl Model for String {
    type M = Seq<char>;

    open spec fn model(&self) -> Seq<char> {
        self@
    }
}

impl Model for Vec<u8> {
    type M = Seq<u8>;

    open spec fn model(&self) -> Seq<u8> {
        self@
    }
}

impl<T: Model> Model for Option<T> {
    type M = Option<T::M>;

    open spec fn model(&self) -> Option<T::M> {
        match self {
            Some(v) => Some(v.model()),
            None => None,
        }
    }
}

impl<T: Model> Model for Box<T> {
    type M = T::M;

    open spec fn model(&self) -> T::M {
        (**self).model()
    }
}

impl<A: Model, B: Model> Model for (A, B) {
    type M = (A::M, B::M);

    open spec fn model(&self) -> (A::M, B::M) {
        (self.0.model(), self.1.model())
    }
}

impl<A: Model, B: Model, C: Model> Model for (A, B, C) {
    type M = (A::M, B::M, C::M);

    open spec fn model(&self) -> (A::M, B::M, C::M) {
        (self.0.model(), self.1.model(), self.2.model())
    }
}

impl<A: Model, B: Model, C: Model, D: Model> Model for (A, B, C, D) {
    type M = (A::M, B::M, C::M, D::M);

    open spec fn model(&self) -> (A::M, B::M, C::M, D::M) {
        (self.0.model(), self.1.model(), self.2.model(), self.3.model())
    }
}


impl<T: Model> Model for core::ops::Range<T> {
    type M = (T::M, T::M);

    open spec fn model(&self) -> (T::M, T::M) {
        (self.start.model(), self.end.model())
    }
}

impl<const N: usize> Model for [u8; N] {
    type M = Seq<u8>;

    open spec fn model(&self) -> Seq<u8> {
        self@
    }
}

impl<T: Model> Model for BE<T> {
    type M = T::M;

    open spec fn model(&self) -> T::M {
        self.0.model()
    }
}

impl<T: Model> Model for LE<T> {
    type M = T::M;

    open spec fn model(&self) -> T::M {
        self.0.model()
    }
}

impl Model for UTF16Char {
    type M = char;

    open spec fn model(&self) -> char {
        self.0
    }
}

impl Model for UTF16 {
    type M = Seq<char>;

    open spec fn model(&self) -> Seq<char> {
        self.0@
    }
}

impl Model for Ascii {
    type M = Seq<char>;

    open spec fn model(&self) -> Seq<char> {
        self.0@
    }
}

impl Model for VLQ {
    type M = usize;

    open spec fn model(&self) -> usize {
        self.0
    }
}

impl Model for Length {
    type M = usize;

    open spec fn model(&self) -> usize {
        self.0
    }
}

} // verus!
