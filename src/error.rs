//! The ways in which the library's operations fail.
use vstd::prelude::*;

verus! {

#[derive(Debug, Clone, Copy, PartialEq, Eq, Structural)]
pub enum TrackError {
    /// A line does not have the `[timestamp] category:value` shape.
    MalformedLine,
    /// The bracketed text of a line is not an RFC 3339 date and time.
    MalformedTimestamp,
    /// A value starts like a number but is not one, or is out of range.
    MalformedQuantity,
    /// A query looks back a negative number of days.
    InvalidRange,
    /// An entry was given an empty category.
    EmptyCategory,
    /// An entry was given a value that is empty once trimmed.
    EmptyValue,
    /// A category holds a `:`, a `] ` or a line break, which the line format cannot carry.
    InvalidCategory,
    /// A value holds a line break, or a `] ` with a `:` after it, which the
    /// line format cannot carry.
    InvalidValue,
    /// A message has no space between a category and a value.
    MalformedMessage,
}

} // verus!
