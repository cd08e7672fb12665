//! From the listing and the edited text to the operations.

use crate::decode::{decode, parse_files};
use crate::error::{EditError, Fault};
use crate::reconcile::{reconcile, update_files};
use crate::rows::{IndexedEntry, InputRow, Operation, Verdict};
use vstd::prelude::*;

verus! {

/// What the edited text says of the listing. The text is read first: where it
/// cannot be read, that is the fault, and the rows are not compared with the
/// listing at all.
pub open spec fn plan(entries: Seq<IndexedEntry>, text: Seq<u8>) -> Result<Seq<Verdict>, Fault> {
    match decode(text) {
        Err(fault) => Err(fault),
        Ok(rows) => reconcile(entries, rows),
    }
}

/// Reads the edited text and says what is to be done with each entry of the
/// listing.
pub fn plan_edit(input: &[InputRow], edited: &[u8]) -> (r: Result<Vec<Operation>, EditError>)
    ensures
        match r {
            Ok(ops) => plan(input.deep_view(), edited@) == Ok::<Seq<Verdict>, Fault>(
                ops.deep_view(),
            ),
            Err(e) => plan(input.deep_view(), edited@) == Err::<Seq<Verdict>, Fault>(e@),
        },
{
    match parse_files(edited) {
        Err(e) => Err(e),
        Ok(rows) => update_files(input, rows.as_slice()),
    }
}

} // verus!
