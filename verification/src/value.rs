//! The value contract: the capability set that every value type flowing
//! through generated code must supply, and the key-derivation capability
//! that the map codec needs.

use vstd::prelude::*;

verus! {

/// Outcome of a three-way comparison between two values.
#[derive(Clone, Copy, PartialEq, Eq, Structural, Debug)]
pub enum KeyOrder {
    /// The left value sorts strictly before the right one.
    Before,
    /// The two values are equal.
    Same,
    /// The left value sorts strictly after the right one.
    After,
}

/// The capability set required of any storable value type: it must be
/// default-constructible, equality-comparable, totally ordered, hashable,
/// cloneable, and encodable to / decodable from a wire representation.
/// A type that misses one of these capabilities cannot implement the
/// trait and is rejected when the embedding code is built, never at run
/// time.
pub trait Val: Sized {
    /// Wire representation of a single value, as exchanged with the
    /// element-level codec.
    type Repr;

    /// The total order on values, as specifications see it:
    /// `le_spec(a, b)` means `a` sorts at or before `b`.
    spec fn le_spec(a: Self, b: Self) -> bool;

    /// What a wire representation decodes to; `None` marks a malformed
    /// representation.
    spec fn decode_spec(r: Self::Repr) -> Option<Self>;

    /// Hash code of a value, as specifications see it. Because it is a
    /// function of the value alone, equal values always hash alike.
    spec fn hash_spec(a: Self) -> u64;

    /// `le_spec` is a total order: reflexive, transitive, antisymmetric
    /// and total.
    proof fn order_laws(a: Self, b: Self, c: Self)
        ensures
            Self::le_spec(a, a),
            Self::le_spec(a, b) && Self::le_spec(b, c) ==> Self::le_spec(a, c),
            Self::le_spec(a, b) && Self::le_spec(b, a) ==> a == b,
            Self::le_spec(a, b) || Self::le_spec(b, a),
    ;

    /// Three-way comparison, agreeing with `le_spec` and with equality.
    fn cmp_val(&self, other: &Self) -> (c: KeyOrder)
        ensures
            c == KeyOrder::Before ==> Self::le_spec(*self, *other) && *self != *other,
            c == KeyOrder::Same ==> *self == *other,
            c == KeyOrder::After ==> Self::le_spec(*other, *self) && *self != *other,
    ;

    /// Equality test, agreeing with specification equality.
    fn eq_val(&self, other: &Self) -> (r: bool)
        ensures
            r == (*self == *other),
    ;

    /// An exact copy of the value.
    fn clone_val(&self) -> (r: Self)
        ensures
            r == *self,
    ;

    /// Default construction.
    fn default_val() -> Self;

    /// Hash code of the value.
    fn hash_val(&self) -> (h: u64)
        ensures
            h == Self::hash_spec(*self),
    ;

    /// Encode the value; an encoding always decodes back to the value it
    /// was made from.
    fn encode(&self) -> (r: Self::Repr)
        ensures
            Self::decode_spec(r) == Some(*self),
    ;

    /// Decode one wire representation; returns `None` exactly on a
    /// malformed one.
    fn decode(r: &Self::Repr) -> (v: Option<Self>)
        ensures
            v == Self::decode_spec(*r),
    ;
}

/// Key derivation: a pure function from a value to the key it is stored
/// under. The specification-level `key_spec` makes the function
/// deterministic by construction; the executable `derive_key` must agree
/// with it, is total, and never fails.
pub trait DeriveKey<K>: Sized {
    /// The derived key, as specifications see it.
    spec fn key_spec(self) -> K;

    /// Compute the key this value is stored under.
    fn derive_key(&self) -> (k: K)
        ensures
            k == self.key_spec(),
    ;
}

} // verus!
