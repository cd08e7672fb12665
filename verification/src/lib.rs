//! Bulk renaming and deleting of directory entries through an edited listing.
//!
//! The entries of one or more directories are written out as numbered rows.
//! The user edits the rows in a text editor. The edited text is read back and
//! compared with the rows as they were written, which yields one operation
//! for each entry: keep it, rename it or delete it.
//!
//! Paths are byte strings throughout: nothing here assumes that a path is
//! valid text.

pub mod apply;
pub mod decode;
pub mod edit;
pub mod editor;
pub mod encode;
pub mod error;
pub mod laws;
pub mod listing;
pub mod number;
pub mod quote;
pub mod reconcile;
pub mod rows;
pub mod text;
