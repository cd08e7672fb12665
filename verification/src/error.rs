//! What can be wrong with an edited listing.

use crate::number::digits;
use crate::quote::{ascii, lossy_text, push_number, quote_text, read_lossy, text_debug};
use crate::rows::copy_bytes;
use vstd::prelude::*;
use vstd::string::StringExecFns;

verus! {

/// Why an edited listing was refused. Rows are counted from 0, and only the
/// rows that are not blank count.
#[derive(Debug, PartialEq, Eq)]
pub enum EditError {
    /// The row holds no space, so it has no number in front of a path.
    MissingIndex { row: usize },
    /// The text in front of the first space of the row is not a number.
    InvalidIndex { text: Vec<u8>, row: usize },
    /// The listing holds no entry with the number of the row.
    UnknownIndex { index: usize, row: usize },
}

/// The model of an [`EditError`].
pub enum Fault {
    MissingIndex { row: nat },
    InvalidIndex { text: Seq<u8>, row: nat },
    UnknownIndex { index: nat, row: nat },
}

impl View for EditError {
    type V = Fault;

    open spec fn view(&self) -> Fault {
        match self {
            EditError::MissingIndex { row } => Fault::MissingIndex { row: *row as nat },
            EditError::InvalidIndex { text, row } => Fault::InvalidIndex {
                text: text@,
                row: *row as nat,
            },
            EditError::UnknownIndex { index, row } => Fault::UnknownIndex {
                index: *index as nat,
                row: *row as nat,
            },
        }
    }
}

impl Fault {
    /// The fault in words.
    pub open spec fn message(self) -> Seq<char> {
        match self {
            Fault::MissingIndex { row } => missing_index_text(row),
            Fault::InvalidIndex { text, row } => invalid_index_text(
                text_debug(lossy_text(text)),
                row,
            ),
            Fault::UnknownIndex { index, row } => unknown_index_text(index, row),
        }
    }
}

/// The words for a row without a number.
pub open spec fn missing_index_text(row: nat) -> Seq<char> {
    "Couldn't find index at row "@ + ascii(digits(row))
}

/// The words for a row whose number cannot be read. `quoted` shows what stands
/// in its place.
pub open spec fn invalid_index_text(quoted: Seq<char>, row: nat) -> Seq<char> {
    "Invalid index "@ + quoted + " at row "@ + ascii(digits(row))
}

/// The words for a row with a number that the listing does not hold.
pub open spec fn unknown_index_text(index: nat, row: nat) -> Seq<char> {
    "Unknown index "@ + ascii(digits(index)) + " at row "@ + ascii(digits(row))
}

/// Says that the row at `row` has no number.
pub fn missing_index_message(row: usize) -> (r: String)
    ensures
        r@ == missing_index_text(row as nat),
{
    let mut r = String::from_str("Couldn't find index at row ");
    push_number(row, &mut r);
    r
}

/// Says that the number of the row at `row` cannot be read. `quoted` shows
/// what stands in its place.
pub fn invalid_index_message(quoted: &str, row: usize) -> (r: String)
    ensures
        r@ == invalid_index_text(quoted@, row as nat),
{
    let mut r = String::from_str("Invalid index ");
    r.append(quoted);
    r.append(" at row ");
    push_number(row, &mut r);
    r
}

/// Says that the row at `row` has the number `index`, which the listing does
/// not hold.
pub fn unknown_index_message(index: usize, row: usize) -> (r: String)
    ensures
        r@ == unknown_index_text(index as nat, row as nat),
{
    let mut r = String::from_str("Unknown index ");
    push_number(index, &mut r);
    r.append(" at row ");
    push_number(row, &mut r);
    r
}

impl EditError {
    /// The error in words, as it is shown to the user.
    pub fn message(&self) -> (r: String)
        ensures
            r@ == self@.message(),
    {
        match self {
            EditError::MissingIndex { row } => missing_index_message(*row),
            EditError::InvalidIndex { text, row } => {
                let read = read_lossy(text.as_slice());
                let quoted = quote_text(read.as_str());
                invalid_index_message(quoted.as_str(), *row)
            },
            EditError::UnknownIndex { index, row } => unknown_index_message(*index, *row),
        }
    }
}

impl Clone for EditError {
    fn clone(&self) -> (r: Self)
        ensures
            r@ == self@,
    {
        match self {
            EditError::MissingIndex { row } => EditError::MissingIndex { row: *row },
            EditError::InvalidIndex { text, row } => EditError::InvalidIndex {
                text: copy_bytes(text.as_slice()),
                row: *row,
            },
            EditError::UnknownIndex { index, row } => EditError::UnknownIndex {
                index: *index,
                row: *row,
            },
        }
    }
}

} // verus!
