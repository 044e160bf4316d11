//! A type with a single value, for conversions around tasks, inputs and
//! invocations that carry no information.
use vstd::prelude::*;
use crate::value::{Val, Value};

verus! {

/// Unit type, which allows only one value and so holds no information.
#[derive(Clone, Copy, Debug, PartialEq, Eq)]
pub struct Unit;

impl Unit {
    /// The unit as a value: null.
    pub fn to_value(self) -> (r: Value)
        ensures
            r@ == Val::Null,
    {
        Value::Null
    }

    /// Any value read as the unit.
    pub fn from_value(_v: Value) -> (r: Unit)
        ensures
            r == Unit,
    {
        Unit
    }
}

} // verus!
