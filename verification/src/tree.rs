//! The input boundary: a complete, already-parsed, in-memory recursive JSON
//! value of the six kinds, with arrays ordered and objects order-preserving.

use vstd::prelude::*;

verus! {

/// A finite, acyclic, arbitrarily nested JSON value. Numbers carry the
/// literal's own token so that no precision is lost; objects keep their
/// members in source order.
#[derive(Debug)]
pub enum JsonValue {
    Null,
    Boolean(bool),
    Number(String),
    String(String),
    Array(Vec<JsonValue>),
    Object(Vec<(String, JsonValue)>),
}

} // verus!
