//! The two symbols that can be written into a grid cell.

use vstd::prelude::*;

verus! {

/// The two possible values that can be put in a binero grid.
#[derive(Clone, Copy, PartialEq, Eq, Structural, Debug)]
pub enum Value {
    First,
    Second,
}

impl Value {
    /// The symbol that is not `self`.
    pub open spec fn spec_the_other(self) -> Value {
        match self {
            Value::First => Value::Second,
            Value::Second => Value::First,
        }
    }

    /// Returns a `Some(Value)` if the given character is correct and `None` otherwise.
    pub fn from_char(val: char) -> (r: Option<Value>)
        ensures
            r == (if val == '0' {
                Some(Value::First)
            } else if val == '1' {
                Some(Value::Second)
            } else {
                None::<Value>
            }),
    {
        match val {
            '0' => Some(Value::First),
            '1' => Some(Value::Second),
            _ => None,
        }
    }

    /// Returns a `Some(Value)` if the given integer is correct and `None` otherwise.
    pub fn from_u8(val: u8) -> (r: Option<Value>)
        ensures
            r == (if val == 0 {
                Some(Value::First)
            } else if val == 1 {
                Some(Value::Second)
            } else {
                None::<Value>
            }),
    {
        match val {
            0 => Some(Value::First),
            1 => Some(Value::Second),
            _ => None,
        }
    }

    /// Returns the other value.
    pub fn the_other(&self) -> (r: Value)
        ensures
            r == self.spec_the_other(),
    {
        match *self {
            Value::First => Value::Second,
            Value::Second => Value::First,
        }
    }
}

} // verus!
