//! The record shape this library persists: a pair of coordinates and a text,
//! the shape the schema-driven serializer is asked to encode and decode.

use vstd::prelude::*;

verus! {

/// One persistable record.  Contracts speak of the plain fields `x`, `y` and
/// of `text@`, the text's character sequence.
#[derive(Debug)]
pub struct Data {
    pub x: u32,
    pub y: u32,
    pub text: String,
}

impl Data {
    /// Structural equality of the record, as a spec predicate.
    pub open spec fn same_value(self, other: Data) -> bool {
        self.x == other.x && self.y == other.y && self.text@ == other.text@
    }
}

} // verus!
