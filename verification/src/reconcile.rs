//! Comparing the rows read back with the entries of the listing.

use crate::error::{EditError, Fault};
use crate::rows::{copy_bytes, EditedRow, IndexedEntry, InputRow, Operation, OutputRow, Verdict, SLASH};
use std::collections::{HashMap, HashSet};
use vstd::prelude::*;

verus! {

/// Whether the listing holds an entry with this number.
pub open spec fn known(entries: Seq<IndexedEntry>, index: nat) -> bool {
    exists|i: int| 0 <= i < entries.len() && (#[trigger] entries[i]).index == index
}

/// The position of the first row whose number the listing does not hold, or
/// the number of rows where it holds them all.
pub open spec fn first_unknown(entries: Seq<IndexedEntry>, rows: Seq<EditedRow>) -> int
    decreases rows.len(),
{
    if rows.len() == 0 || !known(entries, rows[0].index) {
        0
    } else {
        1 + first_unknown(entries, rows.drop_first())
    }
}

/// The path of the last row with this number, or `None` where no row has it.
/// Where several rows have one number, the last of them counts.
pub open spec fn last_path(rows: Seq<EditedRow>, index: nat) -> Option<Seq<u8>>
    decreases rows.len(),
{
    if rows.len() == 0 {
        None
    } else if rows.last().index == index {
        Some(rows.last().path)
    } else {
        last_path(rows.drop_last(), index)
    }
}

/// What the rows say of one entry. Without a row it is deleted. With a row
/// that shows, byte for byte, what the listing showed, it is kept. With a row
/// that shows anything else it is renamed to just that.
pub open spec fn verdict(entry: IndexedEntry, rows: Seq<EditedRow>) -> Verdict {
    match last_path(rows, entry.index) {
        None => Verdict::Delete(entry),
        Some(path) => if path == entry.shown_path() {
            Verdict::Keep(entry)
        } else {
            Verdict::Rename(entry, path)
        },
    }
}

/// What the rows say of the listing: one verdict for each entry, in the order
/// of the entries, unless a row has a number that the listing does not hold.
/// The first such row is the fault.
pub open spec fn reconcile(entries: Seq<IndexedEntry>, rows: Seq<EditedRow>) -> Result<
    Seq<Verdict>,
    Fault,
> {
    let k = first_unknown(entries, rows);
    if 0 <= k < rows.len() {
        Err(Fault::UnknownIndex { index: rows[k].index, row: k as nat })
    } else {
        Ok(Seq::new(entries.len(), |i: int| verdict(entries[i], rows)))
    }
}

/// What `first_unknown` is: every row before it has a known number, and the
/// row at it, if there is one, has not.
pub proof fn lemma_first_unknown(entries: Seq<IndexedEntry>, rows: Seq<EditedRow>)
    ensures
        0 <= first_unknown(entries, rows) <= rows.len(),
        forall|j: int|
            0 <= j < first_unknown(entries, rows) ==> known(entries, (#[trigger] rows[j]).index),
        first_unknown(entries, rows) < rows.len() ==> !known(
            entries,
            rows[first_unknown(entries, rows)].index,
        ),
    decreases rows.len(),
{
    if rows.len() == 0 || !known(entries, rows[0].index) {
    } else {
        let rest = rows.drop_first();
        lemma_first_unknown(entries, rest);
        assert forall|j: int| 0 <= j < first_unknown(entries, rows) implies known(
            entries,
            (#[trigger] rows[j]).index,
        ) by {
            if j > 0 {
                assert(rows[j] == rest[j - 1]);
            }
        }
    }
}

/// A position before which every row has a known number, and at which the row,
/// if there is one, has not, is `first_unknown`.
pub proof fn lemma_first_unknown_is(entries: Seq<IndexedEntry>, rows: Seq<EditedRow>, k: int)
    requires
        0 <= k <= rows.len(),
        forall|j: int| 0 <= j < k ==> known(entries, (#[trigger] rows[j]).index),
        k < rows.len() ==> !known(entries, rows[k].index),
    ensures
        first_unknown(entries, rows) == k,
{
    lemma_first_unknown(entries, rows);
    let i = first_unknown(entries, rows);
    if i < k {
        assert(known(entries, rows[i].index));
    } else if k < i {
        assert(known(entries, rows[k].index));
    }
}

/// Whether `latest` knows what the first `n` rows say of the number `k`: it
/// holds the place of the last of them that has the number, and nothing where
/// none has it.
spec fn finds_one(latest: Map<usize, usize>, rows: Seq<EditedRow>, n: int, k: usize) -> bool {
    match last_path(rows.take(n), k as nat) {
        None => !latest.contains_key(k),
        Some(path) => latest.contains_key(k) && latest[k] < n && rows[latest[k] as int].path
            == path,
    }
}

/// Whether `latest` knows what the first `n` rows say of every number.
spec fn finds(latest: Map<usize, usize>, rows: Seq<EditedRow>, n: int) -> bool {
    forall|k: usize| finds_one(latest, rows, n, k)
}

/// Whether `path` is what the listing showed for `entry`.
pub fn shows(entry: &InputRow, path: &[u8]) -> (r: bool)
    ensures
        r == (path@ == entry@.shown_path()),
{
    let name = entry.name.as_slice();
    let n = name.len();
    if entry.is_dir {
        if path.len() == 0 || path.len() - 1 != n || path[n] != SLASH {
            proof {
                if path@.len() == n + 1 {
                    assert(entry@.shown_path()[n as int] == SLASH);
                }
            }
            return false;
        }
    } else if path.len() != n {
        return false;
    }
    let mut i: usize = 0;
    while i < n
        invariant
            name@ == entry@.path,
            n == name@.len(),
            n <= path@.len(),
            i <= n,
            entry.is_dir ==> path@.len() == n + 1 && path@[n as int] == SLASH,
            !entry.is_dir ==> path@.len() == n,
            forall|j: int| 0 <= j < i ==> path@[j] == name@[j],
        decreases n - i,
    {
        if path[i] != name[i] {
            proof {
                assert(entry@.shown_path()[i as int] == name@[i as int]);
            }
            return false;
        }
        i += 1;
    }
    proof {
        assert(path@ =~= entry@.shown_path());
    }
    true
}

/// Compares the rows read back with the entries of the listing and says what
/// is to be done with each entry.
///
/// Every row must have the number of an entry. Otherwise nothing is to be
/// done at all, and the first row with an unknown number is reported.
pub fn update_files(input: &[InputRow], output: &[OutputRow]) -> (r: Result<
    Vec<Operation>,
    EditError,
>)
    ensures
        match r {
            Ok(ops) => reconcile(input.deep_view(), output.deep_view()) == Ok::<
                Seq<Verdict>,
                Fault,
            >(ops.deep_view()),
            Err(e) => reconcile(input.deep_view(), output.deep_view()) == Err::<
                Seq<Verdict>,
                Fault,
            >(e@),
        },
{
    let ghost entries = input.deep_view();
    let ghost rows = output.deep_view();
    let mut numbers: HashSet<usize> = HashSet::new();
    let mut i: usize = 0;
    while i < input.len()
        invariant
            i <= input@.len(),
            forall|j: int| 0 <= j < i ==> numbers@.contains((#[trigger] input@[j]).index),
            forall|k: usize|
                numbers@.contains(k) ==> exists|j: int|
                    0 <= j < i && (#[trigger] input@[j]).index == k,
        decreases input@.len() - i,
    {
        numbers.insert(input[i].index);
        i += 1;
    }
    let mut row: usize = 0;
    while row < output.len()
        invariant
            row <= output@.len(),
            entries == input.deep_view(),
            rows == output.deep_view(),
            forall|j: int|
                0 <= j < input@.len() ==> numbers@.contains((#[trigger] input@[j]).index),
            forall|k: usize|
                numbers@.contains(k) ==> exists|j: int|
                    0 <= j < input@.len() && (#[trigger] input@[j]).index == k,
            forall|j: int| 0 <= j < row ==> known(entries, (#[trigger] rows[j]).index),
        decreases output@.len() - row,
    {
        let index = output[row].index;
        assert(rows[row as int].index == index);
        if !numbers.contains(&index) {
            proof {
                if known(entries, index as nat) {
                    let j = choose|j: int|
                        0 <= j < entries.len() && (#[trigger] entries[j]).index == index as nat;
                    assert(input@[j].index == index);
                }
                lemma_first_unknown_is(entries, rows, row as int);
            }
            return Err(EditError::UnknownIndex { index, row });
        }
        proof {
            let j = choose|j: int| 0 <= j < input@.len() && (#[trigger] input@[j]).index == index;
            assert(entries[j].index == index as nat);
        }
        row += 1;
    }
    proof {
        lemma_first_unknown_is(entries, rows, rows.len() as int);
    }
    let mut latest: HashMap<usize, usize> = HashMap::new();
    let mut row: usize = 0;
    while row < output.len()
        invariant
            row <= output@.len(),
            rows == output.deep_view(),
            finds(latest@, rows, row as int),
        decreases output@.len() - row,
    {
        let ghost before = latest@;
        let index = output[row].index;
        latest.insert(index, row);
        proof {
            let shorter = rows.take(row as int);
            let longer = rows.take(row + 1);
            assert(longer.drop_last() =~= shorter);
            assert(longer.last() == rows[row as int]);
            assert(rows[row as int].index == index as nat);
            let n = row + 1;
            assert forall|k: usize| finds_one(latest@, rows, n, k) by {
                assert(finds_one(before, rows, row as int, k));
                if k != index {
                    assert(last_path(longer, k as nat) == last_path(shorter, k as nat));
                }
            }
        }
        row += 1;
    }
    proof {
        assert(rows.take(rows.len() as int) =~= rows);
    }
    let mut ops: Vec<Operation> = Vec::with_capacity(input.len());
    let mut i: usize = 0;
    while i < input.len()
        invariant
            i <= input@.len(),
            entries == input.deep_view(),
            rows == output.deep_view(),
            finds(latest@, rows, rows.len() as int),
            rows.take(rows.len() as int) == rows,
            ops.deep_view() == Seq::new(i as nat, |j: int| verdict(entries[j], rows)),
        decreases input@.len() - i,
    {
        let entry = &input[i];
        let ghost before = ops.deep_view();
        proof {
            assert(finds_one(latest@, rows, rows.len() as int, entry.index));
            assert(entries[i as int] == entry@);
        }
        let op = match latest.get(&entry.index) {
            None => Operation::Delete(entry.clone()),
            Some(at) => {
                let path = output[*at].name.as_slice();
                if shows(entry, path) {
                    Operation::Keep(entry.clone())
                } else {
                    Operation::Rename(entry.clone(), copy_bytes(path))
                }
            },
        };
        proof {
            assert(op@ == verdict(entries[i as int], rows));
        }
        ops.push(op);
        proof {
            assert(ops.deep_view() =~= before.push(verdict(entries[i as int], rows)));
            assert(ops.deep_view() =~= Seq::new((i + 1) as nat, |j: int| verdict(entries[j], rows)));
        }
        i += 1;
    }
    Ok(ops)
}

} // verus!
