//! The data that runs through an edit: the entries found, the rows shown, the
//! rows read back and the operations that follow from them.

use vstd::prelude::*;

verus! {

/// The byte that is shown after the path of a directory.
pub const SLASH: u8 = 47;

/// A file or directory as it was found, before the edit.
#[derive(Debug, PartialEq, Eq)]
pub struct PathInfo {
    /// The path, byte for byte. It need not be valid text.
    pub name: Vec<u8>,
    /// Whether the entry is a directory.
    pub is_dir: bool,
}

/// An entry with its place in the listing.
#[derive(Debug, PartialEq, Eq)]
pub struct InputRow {
    /// The number shown in front of the row. A listing counts from 1.
    pub index: usize,
    /// The path, byte for byte.
    pub name: Vec<u8>,
    /// Whether the entry is a directory.
    pub is_dir: bool,
}

/// A row as it was read back after the edit.
#[derive(Debug, PartialEq, Eq)]
pub struct OutputRow {
    /// The number in front of the row. Nothing has yet checked that the
    /// listing holds an entry with this number.
    pub index: usize,
    /// The path as the user left it, byte for byte.
    pub name: Vec<u8>,
}

/// What is to be done with one entry.
#[derive(Debug, PartialEq, Eq)]
pub enum Operation {
    /// Remove the entry: its row is gone.
    Delete(InputRow),
    /// Move the entry to the given path: its row shows another path.
    Rename(InputRow, Vec<u8>),
    /// Leave the entry alone: its row is as it was.
    Keep(InputRow),
}

/// The model of a [`PathInfo`].
pub struct Entry {
    pub path: Seq<u8>,
    pub is_dir: bool,
}

/// The model of an [`InputRow`].
pub struct IndexedEntry {
    pub index: nat,
    pub path: Seq<u8>,
    pub is_dir: bool,
}

/// The model of an [`OutputRow`].
pub struct EditedRow {
    pub index: nat,
    pub path: Seq<u8>,
}

/// The model of an [`Operation`].
pub enum Verdict {
    Delete(IndexedEntry),
    Rename(IndexedEntry, Seq<u8>),
    Keep(IndexedEntry),
}

impl View for PathInfo {
    type V = Entry;

    open spec fn view(&self) -> Entry {
        Entry { path: self.name@, is_dir: self.is_dir }
    }
}

impl DeepView for PathInfo {
    type V = Entry;

    open spec fn deep_view(&self) -> Entry {
        self@
    }
}

impl View for InputRow {
    type V = IndexedEntry;

    open spec fn view(&self) -> IndexedEntry {
        IndexedEntry { index: self.index as nat, path: self.name@, is_dir: self.is_dir }
    }
}

impl DeepView for InputRow {
    type V = IndexedEntry;

    open spec fn deep_view(&self) -> IndexedEntry {
        self@
    }
}

impl View for OutputRow {
    type V = EditedRow;

    open spec fn view(&self) -> EditedRow {
        EditedRow { index: self.index as nat, path: self.name@ }
    }
}

impl DeepView for OutputRow {
    type V = EditedRow;

    open spec fn deep_view(&self) -> EditedRow {
        self@
    }
}

impl View for Operation {
    type V = Verdict;

    open spec fn view(&self) -> Verdict {
        match self {
            Operation::Delete(entry) => Verdict::Delete(entry@),
            Operation::Rename(entry, to) => Verdict::Rename(entry@, to@),
            Operation::Keep(entry) => Verdict::Keep(entry@),
        }
    }
}

impl DeepView for Operation {
    type V = Verdict;

    open spec fn deep_view(&self) -> Verdict {
        self@
    }
}

impl IndexedEntry {
    /// The entry without its number.
    pub open spec fn entry(self) -> Entry {
        Entry { path: self.path, is_dir: self.is_dir }
    }

    /// The path as the listing shows it: a directory's path is followed by a
    /// `/`, a file's path stands alone.
    pub open spec fn shown_path(self) -> Seq<u8> {
        if self.is_dir {
            self.path.push(SLASH)
        } else {
            self.path
        }
    }
}

impl Verdict {
    /// The entry that the verdict is about.
    pub open spec fn entry(self) -> IndexedEntry {
        match self {
            Verdict::Delete(entry) => entry,
            Verdict::Rename(entry, _) => entry,
            Verdict::Keep(entry) => entry,
        }
    }
}

/// The numbers of a listing are 1, 2, 3 and so on, in the order of the rows.
pub open spec fn numbered(entries: Seq<IndexedEntry>) -> bool {
    forall|i: int| 0 <= i < entries.len() ==> (#[trigger] entries[i]).index == i + 1
}

/// Copies a byte string.
pub fn copy_bytes(s: &[u8]) -> (r: Vec<u8>)
    ensures
        r@ == s@,
{
    let mut r: Vec<u8> = Vec::with_capacity(s.len());
    let mut i: usize = 0;
    while i < s.len()
        invariant
            i <= s@.len(),
            r@ == s@.take(i as int),
        decreases s@.len() - i,
    {
        r.push(s[i]);
        proof {
            assert(s@.take(i + 1) =~= s@.take(i as int).push(s@[i as int]));
        }
        i += 1;
    }
    proof {
        assert(s@.take(s@.len() as int) =~= s@);
    }
    r
}

impl Clone for PathInfo {
    fn clone(&self) -> (r: Self)
        ensures
            r@ == self@,
    {
        PathInfo { name: copy_bytes(self.name.as_slice()), is_dir: self.is_dir }
    }
}

impl Clone for InputRow {
    fn clone(&self) -> (r: Self)
        ensures
            r@ == self@,
    {
        InputRow { index: self.index, name: copy_bytes(self.name.as_slice()), is_dir: self.is_dir }
    }
}

impl Clone for OutputRow {
    fn clone(&self) -> (r: Self)
        ensures
            r@ == self@,
    {
        OutputRow { index: self.index, name: copy_bytes(self.name.as_slice()) }
    }
}

impl Clone for Operation {
    fn clone(&self) -> (r: Self)
        ensures
            r@ == self@,
    {
        match self {
            Operation::Delete(entry) => Operation::Delete(entry.clone()),
            Operation::Rename(entry, to) => Operation::Rename(
                entry.clone(),
                copy_bytes(to.as_slice()),
            ),
            Operation::Keep(entry) => Operation::Keep(entry.clone()),
        }
    }
}

} // verus!
