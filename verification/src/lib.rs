//! Runtime support for code generated from a declarative rule language:
//! the capability contract that every generated value type satisfies, an
//! ordered map together with a codec that stores such a map as a bare
//! sequence of values and rebuilds the keys on load, and a few small
//! helpers (numeric width aliases, string append) used by generated
//! expression code.

use vstd::prelude::*;
use vstd::string::StringExecFns;

pub mod value;
pub mod map;
pub mod codec;
pub mod record;

pub use value::{Val, DeriveKey, KeyOrder};
pub use map::OrderedMap;
pub use codec::{serialize, from_values, deserialize, CodecError};
pub use record::Rec;

verus! {

/// Unsigned word type of the rule language, named so that generated code
/// does not collide with the host language's own `usize`.
#[allow(non_camel_case_types)]
pub type std_usize = u64;

/// Signed word type of the rule language, named so that generated code
/// does not collide with the host language's own `isize`.
#[allow(non_camel_case_types)]
pub type std_isize = i64;

/// Append a string slice onto an owned string and return the owner.
pub fn string_append_str(s1: String, s2: &str) -> (r: String)
    ensures
        r@ == s1@ + s2@,
{
    let mut s = s1;
    s.append(s2);
    s
}

/// Append one owned string's contents onto another and return the owner.
pub fn string_append(s1: String, s2: &String) -> (r: String)
    ensures
        r@ == s1@ + s2@,
{
    let mut s = s1;
    s.append(s2.as_str());
    s
}

} // verus!
