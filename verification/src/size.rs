//! The possible sizes of a binero grid.

use vstd::prelude::*;
use crate::names::str_eq;

verus! {

/// The possible sizes of a binero: even side lengths from 6 to 16.
#[derive(Copy, Clone, Debug, PartialEq, Eq, Hash, Structural)]
pub enum Size {
    Side6,
    Side8,
    Side10,
    Side12,
    Side14,
    Side16,
}

impl Size {
    /// The side length, as a mathematical integer.
    pub open spec fn side(self) -> nat {
        match self {
            Size::Side6 => 6,
            Size::Side8 => 8,
            Size::Side10 => 10,
            Size::Side12 => 12,
            Size::Side14 => 14,
            Size::Side16 => 16,
        }
    }

    /// What `from_str` recognises: the side length written in decimal.
    pub open spec fn from_str_spec(chars: Seq<char>) -> Option<Size> {
        if chars == "6"@ {
            Some(Size::Side6)
        } else if chars == "8"@ {
            Some(Size::Side8)
        } else if chars == "10"@ {
            Some(Size::Side10)
        } else if chars == "12"@ {
            Some(Size::Side12)
        } else if chars == "14"@ {
            Some(Size::Side14)
        } else if chars == "16"@ {
            Some(Size::Side16)
        } else {
            None
        }
    }

    /// Returns the size as an unsigned 8-bit integer.
    pub fn as_u8(&self) -> (r: u8)
        ensures
            r == self.side(),
            6 <= r <= 16,
            r % 2 == 0,
    {
        match *self {
            Size::Side6 => 6,
            Size::Side8 => 8,
            Size::Side10 => 10,
            Size::Side12 => 12,
            Size::Side14 => 14,
            Size::Side16 => 16,
        }
    }

    /// Returns the `Size` corresponding to a given string slice.
    pub fn from_str(size: &str) -> (r: Option<Size>)
        ensures
            r == Size::from_str_spec(size@),
    {
        if str_eq(size, "6") {
            Some(Size::Side6)
        } else if str_eq(size, "8") {
            Some(Size::Side8)
        } else if str_eq(size, "10") {
            Some(Size::Side10)
        } else if str_eq(size, "12") {
            Some(Size::Side12)
        } else if str_eq(size, "14") {
            Some(Size::Side14)
        } else if str_eq(size, "16") {
            Some(Size::Side16)
        } else {
            None
        }
    }
}

} // verus!
