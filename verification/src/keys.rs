//! The key capability: a type that a backing store can hold must offer a
//! mathematical model (its [`View`]) together with an executable equality
//! test that decides equality of models. Ordered stores additionally need a
//! total order on models, supplied by [`OrderedKey`].

use vstd::prelude::*;

verus! {

/// A type usable as a key of a map store or as an element of a set store.
///
/// All container contracts speak about the model `self@`, never about the
/// executable value itself: two keys with equal models are the same key to
/// every container of this crate.
pub trait StoreKey: View + Sized {
    /// Decides whether two keys have the same model.
    fn key_eq(&self, other: &Self) -> (r: bool)
        ensures
            r == (self@ == other@),
    ;

    /// Produces a fresh key with the same model.
    fn dup(&self) -> (r: Self)
        ensures
            r@ == self@,
    ;
}

/// A key whose models carry a total order; required by the sorted backends.
pub trait OrderedKey: StoreKey {
    /// The order on models. Must be reflexive, transitive, antisymmetric and
    /// total, which the proof obligations below enforce.
    spec fn le_model(a: Self::V, b: Self::V) -> bool;

    proof fn le_reflexive(a: Self::V)
        ensures
            Self::le_model(a, a),
    ;

    proof fn le_transitive(a: Self::V, b: Self::V, c: Self::V)
        requires
            Self::le_model(a, b),
            Self::le_model(b, c),
        ensures
            Self::le_model(a, c),
    ;

    proof fn le_antisymmetric(a: Self::V, b: Self::V)
        requires
            Self::le_model(a, b),
            Self::le_model(b, a),
        ensures
            a == b,
    ;

    proof fn le_total(a: Self::V, b: Self::V)
        ensures
            Self::le_model(a, b) || Self::le_model(b, a),
    ;

    /// Decides the order on the two keys' models.
    fn key_le(&self, other: &Self) -> (r: bool)
        ensures
            r == Self::le_model(self@, other@),
    ;
}

impl StoreKey for u8 {
    fn key_eq(&self, other: &Self) -> (r: bool) {
        *self == *other
    }

    fn dup(&self) -> (r: Self) {
        *self
    }
}

impl OrderedKey for u8 {
    open spec fn le_model(a: u8, b: u8) -> bool {
        a <= b
    }

    proof fn le_reflexive(a: u8) {
    }

    proof fn le_transitive(a: u8, b: u8, c: u8) {
    }

    proof fn le_antisymmetric(a: u8, b: u8) {
    }

    proof fn le_total(a: u8, b: u8) {
    }

    fn key_le(&self, other: &Self) -> (r: bool) {
        *self <= *other
    }
}

impl StoreKey for u16 {
    fn key_eq(&self, other: &Self) -> (r: bool) {
        *self == *other
    }

    fn dup(&self) -> (r: Self) {
        *self
    }
}

impl OrderedKey for u16 {
    open spec fn le_model(a: u16, b: u16) -> bool {
        a <= b
    }

    proof fn le_reflexive(a: u16) {
    }

    proof fn le_transitive(a: u16, b: u16, c: u16) {
    }

    proof fn le_antisymmetric(a: u16, b: u16) {
    }

    proof fn le_total(a: u16, b: u16) {
    }

    fn key_le(&self, other: &Self) -> (r: bool) {
        *self <= *other
    }
}

impl StoreKey for u32 {
    fn key_eq(&self, other: &Self) -> (r: bool) {
        *self == *other
    }

    fn dup(&self) -> (r: Self) {
        *self
    }
}

impl OrderedKey for u32 {
    open spec fn le_model(a: u32, b: u32) -> bool {
        a <= b
    }

    proof fn le_reflexive(a: u32) {
    }

    proof fn le_transitive(a: u32, b: u32, c: u32) {
    }

    proof fn le_antisymmetric(a: u32, b: u32) {
    }

    proof fn le_total(a: u32, b: u32) {
    }

    fn key_le(&self, other: &Self) -> (r: bool) {
        *self <= *other
    }
}

impl StoreKey for u64 {
    fn key_eq(&self, other: &Self) -> (r: bool) {
        *self == *other
    }

    fn dup(&self) -> (r: Self) {
        *self
    }
}

impl OrderedKey for u64 {
    open spec fn le_model(a: u64, b: u64) -> bool {
        a <= b
    }

    proof fn le_reflexive(a: u64) {
    }

    proof fn le_transitive(a: u64, b: u64, c: u64) {
    }

    proof fn le_antisymmetric(a: u64, b: u64) {
    }

    proof fn le_total(a: u64, b: u64) {
    }

    fn key_le(&self, other: &Self) -> (r: bool) {
        *self <= *other
    }
}

impl StoreKey for usize {
    fn key_eq(&self, other: &Self) -> (r: bool) {
        *self == *other
    }

    fn dup(&self) -> (r: Self) {
        *self
    }
}

impl OrderedKey for usize {
    open spec fn le_model(a: usize, b: usize) -> bool {
        a <= b
    }

    proof fn le_reflexive(a: usize) {
    }

    proof fn le_transitive(a: usize, b: usize, c: usize) {
    }

    proof fn le_antisymmetric(a: usize, b: usize) {
    }

    proof fn le_total(a: usize, b: usize) {
    }

    fn key_le(&self, other: &Self) -> (r: bool) {
        *self <= *other
    }
}

impl StoreKey for i32 {
    fn key_eq(&self, other: &Self) -> (r: bool) {
        *self == *other
    }

    fn dup(&self) -> (r: Self) {
        *self
    }
}

impl OrderedKey for i32 {
    open spec fn le_model(a: i32, b: i32) -> bool {
        a <= b
    }

    proof fn le_reflexive(a: i32) {
    }

    proof fn le_transitive(a: i32, b: i32, c: i32) {
    }

    proof fn le_antisymmetric(a: i32, b: i32) {
    }

    proof fn le_total(a: i32, b: i32) {
    }

    fn key_le(&self, other: &Self) -> (r: bool) {
        *self <= *other
    }
}

impl StoreKey for i64 {
    fn key_eq(&self, other: &Self) -> (r: bool) {
        *self == *other
    }

    fn dup(&self) -> (r: Self) {
        *self
    }
}

impl OrderedKey for i64 {
    open spec fn le_model(a: i64, b: i64) -> bool {
        a <= b
    }

    proof fn le_reflexive(a: i64) {
    }

    proof fn le_transitive(a: i64, b: i64, c: i64) {
    }

    proof fn le_antisymmetric(a: i64, b: i64) {
    }

    proof fn le_total(a: i64, b: i64) {
    }

    fn key_le(&self, other: &Self) -> (r: bool) {
        *self <= *other
    }
}

impl StoreKey for char {
    fn key_eq(&self, other: &Self) -> (r: bool) {
        *self == *other
    }

    fn dup(&self) -> (r: Self) {
        *self
    }
}

impl OrderedKey for char {
    open spec fn le_model(a: char, b: char) -> bool {
        (a as u32) <= (b as u32)
    }

    proof fn le_reflexive(a: char) {
    }

    proof fn le_transitive(a: char, b: char, c: char) {
    }

    proof fn le_antisymmetric(a: char, b: char) {
        vstd::utf8::char_u32_cast(a, a as u32);
        vstd::utf8::char_u32_cast(b, b as u32);
    }

    proof fn le_total(a: char, b: char) {
    }

    fn key_le(&self, other: &Self) -> (r: bool) {
        (*self as u32) <= (*other as u32)
    }
}

impl StoreKey for String {
    fn key_eq(&self, other: &Self) -> (r: bool) {
        *self == *other
    }

    fn dup(&self) -> (r: Self) {
        self.clone()
    }
}

} // verus!
