//! Conforming value types: the base integer type of the rule language and
//! a small record type whose wire representation can be malformed. They
//! show what an implementation of the value contract looks like and give
//! the codec concrete types to run on.

use vstd::prelude::*;
use crate::value::{Val, DeriveKey, KeyOrder};

verus! {

impl Val for u64 {
    type Repr = u64;

    open spec fn le_spec(a: u64, b: u64) -> bool {
        a <= b
    }

    open spec fn decode_spec(r: u64) -> Option<u64> {
        Some(r)
    }

    open spec fn hash_spec(a: u64) -> u64 {
        a
    }

    proof fn order_laws(a: u64, b: u64, c: u64) {
    }

    fn cmp_val(&self, other: &u64) -> (c: KeyOrder) {
        if *self < *other {
            KeyOrder::Before
        } else if *self > *other {
            KeyOrder::After
        } else {
            KeyOrder::Same
        }
    }

    fn eq_val(&self, other: &u64) -> (r: bool) {
        *self == *other
    }

    fn clone_val(&self) -> (r: u64) {
        *self
    }

    fn default_val() -> u64 {
        0
    }

    fn hash_val(&self) -> (h: u64) {
        *self
    }

    fn encode(&self) -> (r: u64) {
        *self
    }

    fn decode(r: &u64) -> (v: Option<u64>) {
        Some(*r)
    }
}

/// A record as generated program logic would store it: `key` is the field
/// the record is keyed by, `tag` is the rest of its payload. Its wire
/// representation is the plain list of its fields, so a list of the wrong
/// length is malformed.
#[derive(Clone, Copy, PartialEq, Eq, Structural, Debug)]
pub struct Rec {
    /// The field the record is keyed by.
    pub key: u64,
    /// The remaining payload of the record.
    pub tag: u64,
}

impl Val for Rec {
    type Repr = Vec<u64>;

    open spec fn le_spec(a: Rec, b: Rec) -> bool {
        a.key < b.key || (a.key == b.key && a.tag <= b.tag)
    }

    open spec fn decode_spec(r: Vec<u64>) -> Option<Rec> {
        if r@.len() == 2 {
            Some(Rec { key: r@[0], tag: r@[1] })
        } else {
            None
        }
    }

    open spec fn hash_spec(a: Rec) -> u64 {
        a.key ^ a.tag
    }

    proof fn order_laws(a: Rec, b: Rec, c: Rec) {
    }

    fn cmp_val(&self, other: &Rec) -> (c: KeyOrder) {
        if self.key < other.key {
            KeyOrder::Before
        } else if self.key > other.key {
            KeyOrder::After
        } else if self.tag < other.tag {
            KeyOrder::Before
        } else if self.tag > other.tag {
            KeyOrder::After
        } else {
            KeyOrder::Same
        }
    }

    fn eq_val(&self, other: &Rec) -> (r: bool) {
        self.key == other.key && self.tag == other.tag
    }

    fn clone_val(&self) -> (r: Rec) {
        *self
    }

    fn default_val() -> Rec {
        Rec { key: 0, tag: 0 }
    }

    fn hash_val(&self) -> (h: u64) {
        self.key ^ self.tag
    }

    fn encode(&self) -> (r: Vec<u64>) {
        let mut r: Vec<u64> = Vec::new();
        r.push(self.key);
        r.push(self.tag);
        r
    }

    fn decode(r: &Vec<u64>) -> (v: Option<Rec>) {
        if r.len() == 2 {
            Some(Rec { key: r[0], tag: r[1] })
        } else {
            None
        }
    }
}

impl DeriveKey<u64> for Rec {
    open spec fn key_spec(self) -> u64 {
        self.key
    }

    fn derive_key(&self) -> (k: u64) {
        self.key
    }
}

} // verus!
