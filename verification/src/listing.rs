//! From the entries that were found to the rows of the listing: the entries
//! of all directories are put together, ordered by path and numbered.

use crate::quote::{path_debug, quote_path};
use crate::rows::{copy_bytes, numbered, Entry, IndexedEntry, InputRow, PathInfo};
use vstd::prelude::*;
use vstd::string::{is_ascii, is_ascii_spec_bytes, StrSliceExecFns, StringExecFns};
use vstd::utf8::encode_utf8;

verus! {

/// The order of paths: byte by byte, the smaller byte first, and a path before
/// each longer path that begins with it.
pub open spec fn lex_le(a: Seq<u8>, b: Seq<u8>) -> bool
    decreases a.len(),
{
    if a.len() == 0 {
        true
    } else if b.len() == 0 {
        false
    } else if a[0] != b[0] {
        a[0] < b[0]
    } else {
        lex_le(a.drop_first(), b.drop_first())
    }
}

/// Whether the paths of the entries never go down from one entry to a later
/// one.
pub open spec fn ascending(entries: Seq<Entry>) -> bool {
    forall|i: int, j: int|
        0 <= i < j < entries.len() ==> lex_le(
            (#[trigger] entries[i]).path,
            (#[trigger] entries[j]).path,
        )
}

/// The entries with one more among them: `entry` stands behind the last entry
/// whose path is not greater than its own.
pub open spec fn place(entries: Seq<Entry>, entry: Entry) -> Seq<Entry>
    decreases entries.len(),
{
    if entries.len() > 0 && !lex_le(entries.last().path, entry.path) {
        place(entries.drop_last(), entry).push(entries.last())
    } else {
        entries.push(entry)
    }
}

/// The entries in the order of their paths. Entries with one path stay in the
/// order in which they came.
pub open spec fn sort_by_path(entries: Seq<Entry>) -> Seq<Entry>
    decreases entries.len(),
{
    if entries.len() == 0 {
        Seq::empty()
    } else {
        place(sort_by_path(entries.drop_last()), entries.last())
    }
}

/// The entries of all groups in one sequence, group after group.
pub open spec fn merged(groups: Seq<Seq<Entry>>) -> Seq<Entry>
    decreases groups.len(),
{
    if groups.len() == 0 {
        Seq::empty()
    } else {
        merged(groups.drop_last()) + groups.last()
    }
}

/// The entries with their numbers: 1 for the first, 2 for the second, and so
/// on.
pub open spec fn number_rows(entries: Seq<Entry>) -> Seq<IndexedEntry> {
    Seq::new(
        entries.len(),
        |i: int| IndexedEntry { index: (i + 1) as nat, path: entries[i].path, is_dir: entries[i].is_dir },
    )
}

/// The listing of the groups: all their entries, in the order of their paths,
/// numbered from 1.
pub open spec fn listing(groups: Seq<Seq<Entry>>) -> Seq<IndexedEntry> {
    number_rows(sort_by_path(merged(groups)))
}

/// Two paths that begin alike are in the order of what follows.
pub proof fn lemma_lex_le_skip(a: Seq<u8>, b: Seq<u8>, k: int)
    requires
        0 <= k <= a.len(),
        k <= b.len(),
        forall|i: int| 0 <= i < k ==> a[i] == b[i],
    ensures
        lex_le(a, b) == lex_le(a.skip(k), b.skip(k)),
    decreases k,
{
    if k == 0 {
        assert(a.skip(0) =~= a);
        assert(b.skip(0) =~= b);
    } else {
        let a1 = a.drop_first();
        let b1 = b.drop_first();
        assert(a[0] == b[0]);
        assert forall|i: int| 0 <= i < k - 1 implies a1[i] == b1[i] by {
            assert(a1[i] == a[i + 1]);
            assert(b1[i] == b[i + 1]);
        }
        lemma_lex_le_skip(a1, b1, k - 1);
        assert(a1.skip(k - 1) =~= a.skip(k));
        assert(b1.skip(k - 1) =~= b.skip(k));
    }
}

/// Of two paths one is not greater than the other.
pub proof fn lemma_lex_le_total(a: Seq<u8>, b: Seq<u8>)
    ensures
        lex_le(a, b) || lex_le(b, a),
    decreases a.len(),
{
    if a.len() > 0 && b.len() > 0 && a[0] == b[0] {
        lemma_lex_le_total(a.drop_first(), b.drop_first());
    }
}

/// The order of paths carries over: from `a` to `b` and from `b` to `c` is
/// from `a` to `c`.
pub proof fn lemma_lex_le_transitive(a: Seq<u8>, b: Seq<u8>, c: Seq<u8>)
    requires
        lex_le(a, b),
        lex_le(b, c),
    ensures
        lex_le(a, c),
    decreases a.len(),
{
    if a.len() > 0 && b.len() > 0 && c.len() > 0 && a[0] == b[0] && b[0] == c[0] {
        lemma_lex_le_transitive(a.drop_first(), b.drop_first(), c.drop_first());
    }
}

/// Where `place` puts an entry: at the position in front of which no path is
/// greater than its own, and from which on every path is.
pub proof fn lemma_place_is_insert(entries: Seq<Entry>, entry: Entry, at: int)
    requires
        0 <= at <= entries.len(),
        forall|i: int| 0 <= i < at ==> lex_le((#[trigger] entries[i]).path, entry.path),
        forall|i: int|
            at <= i < entries.len() ==> !lex_le((#[trigger] entries[i]).path, entry.path),
    ensures
        place(entries, entry) == entries.insert(at, entry),
    decreases entries.len(),
{
    if entries.len() > 0 && !lex_le(entries.last().path, entry.path) {
        let shorter = entries.drop_last();
        if at == entries.len() {
            assert(lex_le(entries[at - 1].path, entry.path));
        }
        lemma_place_is_insert(shorter, entry, at);
        assert(shorter.insert(at, entry).push(entries.last()) =~= entries.insert(at, entry));
    } else {
        if at < entries.len() {
            assert(!lex_le(entries[entries.len() - 1].path, entry.path));
        }
        assert(entries.push(entry) =~= entries.insert(at, entry));
    }
}

/// An entry that `place` puts among ordered entries leaves them ordered, and
/// is one entry more.
pub proof fn lemma_place(entries: Seq<Entry>, entry: Entry)
    requires
        ascending(entries),
    ensures
        ascending(place(entries, entry)),
        place(entries, entry).len() == entries.len() + 1,
        place(entries, entry).to_multiset() == entries.to_multiset().insert(entry),
    decreases entries.len(),
{
    broadcast use vstd::seq_lib::group_to_multiset_ensures;

    if entries.len() > 0 && !lex_le(entries.last().path, entry.path) {
        let shorter = entries.drop_last();
        let last = entries.last();
        assert forall|i: int, j: int| 0 <= i < j < shorter.len() implies lex_le(
            (#[trigger] shorter[i]).path,
            (#[trigger] shorter[j]).path,
        ) by {
            assert(shorter[i] == entries[i]);
            assert(shorter[j] == entries[j]);
        }
        lemma_place(shorter, entry);
        let placed = place(shorter, entry);
        let longer = placed.push(last);
        assert(entries =~= shorter.push(last));
        assert(place(entries, entry).to_multiset() =~= entries.to_multiset().insert(entry));
        lemma_lex_le_total(last.path, entry.path);
        assert forall|i: int, j: int| 0 <= i < j < longer.len() implies lex_le(
            (#[trigger] longer[i]).path,
            (#[trigger] longer[j]).path,
        ) by {
            if j < placed.len() {
                assert(longer[i] == placed[i]);
                assert(longer[j] == placed[j]);
            } else {
                // Each entry of `placed` is `entry` or one of `shorter`.
                assert(longer[i] == placed[i]);
                assert(placed.to_multiset().count(placed[i]) > 0);
                if placed[i] != entry {
                    assert(shorter.to_multiset().count(placed[i]) > 0);
                    let k = choose|k: int| 0 <= k < shorter.len() && shorter[k] == placed[i];
                    assert(shorter[k] == entries[k]);
                    assert(lex_le(entries[k].path, entries[entries.len() - 1].path));
                }
            }
        }
    } else {
        let longer = entries.push(entry);
        assert forall|i: int, j: int| 0 <= i < j < longer.len() implies lex_le(
            (#[trigger] longer[i]).path,
            (#[trigger] longer[j]).path,
        ) by {
            if j < entries.len() {
                assert(longer[i] == entries[i]);
                assert(longer[j] == entries[j]);
            } else {
                assert(longer[i] == entries[i]);
                if i < entries.len() - 1 {
                    assert(lex_le(entries[i].path, entries[entries.len() - 1].path));
                    lemma_lex_le_transitive(entries[i].path, entries.last().path, entry.path);
                }
            }
        }
    }
}

/// The paths of sorted entries are in order, and the entries are those that
/// were there before: each as often as before.
pub proof fn lemma_sort_by_path(entries: Seq<Entry>)
    ensures
        ascending(sort_by_path(entries)),
        sort_by_path(entries).len() == entries.len(),
        sort_by_path(entries).to_multiset() == entries.to_multiset(),
    decreases entries.len(),
{
    broadcast use vstd::seq_lib::group_to_multiset_ensures;

    if entries.len() == 0 {
        assert(entries =~= Seq::empty());
    } else {
        let shorter = entries.drop_last();
        let last = entries.last();
        lemma_sort_by_path(shorter);
        lemma_place(sort_by_path(shorter), last);
        assert(entries =~= shorter.push(last));
    }
}

/// Whether path `a` is not greater than path `b`.
pub fn path_le(a: &[u8], b: &[u8]) -> (r: bool)
    ensures
        r == lex_le(a@, b@),
{
    let mut i: usize = 0;
    while i < a.len() && i < b.len()
        invariant
            i <= a@.len(),
            i <= b@.len(),
            forall|j: int| 0 <= j < i ==> a@[j] == b@[j],
        decreases a@.len() - i,
    {
        if a[i] != b[i] {
            proof {
                lemma_lex_le_skip(a@, b@, i as int);
            }
            return a[i] < b[i];
        }
        i += 1;
    }
    proof {
        lemma_lex_le_skip(a@, b@, i as int);
    }
    i == a.len()
}

/// The place of a path among ordered entries: the number of entries whose
/// path is not greater.
fn place_of(entries: &Vec<&PathInfo>, path: &[u8]) -> (at: usize)
    requires
        ascending(entries.deep_view()),
    ensures
        at <= entries.len(),
        forall|i: int|
            0 <= i < at ==> lex_le((#[trigger] entries.deep_view()[i]).path, path@),
        forall|i: int|
            at <= i < entries.len() ==> !lex_le((#[trigger] entries.deep_view()[i]).path, path@),
{
    let ghost sorted = entries.deep_view();
    let mut low: usize = 0;
    let mut high: usize = entries.len();
    while low < high
        invariant
            low <= high <= entries.len(),
            sorted == entries.deep_view(),
            ascending(sorted),
            forall|i: int| 0 <= i < low ==> lex_le((#[trigger] sorted[i]).path, path@),
            forall|i: int| high <= i < sorted.len() ==> !lex_le((#[trigger] sorted[i]).path, path@),
        decreases high - low,
    {
        let middle = low + (high - low) / 2;
        let ghost pivot = sorted[middle as int];
        assert(pivot.path == entries@[middle as int].name@);
        if path_le(entries[middle].name.as_slice(), path) {
            proof {
                assert forall|i: int| 0 <= i < middle + 1 implies lex_le(
                    (#[trigger] sorted[i]).path,
                    path@,
                ) by {
                    if i < middle {
                        lemma_lex_le_transitive(sorted[i].path, pivot.path, path@);
                    }
                }
            }
            low = middle + 1;
        } else {
            proof {
                assert forall|i: int| middle <= i < sorted.len() implies !lex_le(
                    (#[trigger] sorted[i]).path,
                    path@,
                ) by {
                    if middle < i && lex_le(sorted[i].path, path@) {
                        lemma_lex_le_transitive(pivot.path, sorted[i].path, path@);
                    }
                }
            }
            high = middle;
        }
    }
    low
}

/// Makes the listing: puts the entries of all directories together, orders
/// them by path and numbers them from 1.
///
/// `groups` holds the entries of one directory after those of another. Where
/// two entries have one path, the one that came first stays first.
pub fn list_files(groups: &[Vec<PathInfo>]) -> (rows: Vec<InputRow>)
    ensures
        rows.deep_view() == listing(groups.deep_view()),
        numbered(rows.deep_view()),
        ascending(rows.deep_view().map_values(|row: IndexedEntry| row.entry())),
        rows.deep_view().map_values(|row: IndexedEntry| row.entry()).to_multiset() == merged(
            groups.deep_view(),
        ).to_multiset(),
{
    let ghost all = groups.deep_view();
    let mut sorted: Vec<&PathInfo> = Vec::new();
    let ghost mut seen = Seq::<Entry>::empty();
    let mut g: usize = 0;
    proof {
        assert(all.take(0) =~= Seq::<Seq<Entry>>::empty());
        assert(sorted.deep_view() =~= Seq::<Entry>::empty());
    }
    while g < groups.len()
        invariant
            g <= groups@.len(),
            all == groups.deep_view(),
            seen == merged(all.take(g as int)),
            sorted.deep_view() == sort_by_path(seen),
        decreases groups@.len() - g,
    {
        let group = &groups[g];
        let ghost before = seen;
        let ghost entries = group.deep_view();
        assert(entries == all[g as int]);
        let mut j: usize = 0;
        proof {
            assert(before + entries.take(0) =~= before);
        }
        while j < group.len()
            invariant
                j <= group@.len(),
                entries == group.deep_view(),
                seen == before + entries.take(j as int),
                sorted.deep_view() == sort_by_path(seen),
            decreases group@.len() - j,
        {
            let entry = &group[j];
            let ghost old_sorted = sorted.deep_view();
            proof {
                lemma_sort_by_path(seen);
            }
            let at = place_of(&sorted, entry.name.as_slice());
            sorted.insert(at, entry);
            proof {
                let longer = before + entries.take(j + 1);
                assert(entry@ == entries[j as int]);
                assert(longer.drop_last() =~= seen);
                assert(longer.last() == entry@);
                lemma_place_is_insert(old_sorted, entry@, at as int);
                assert(sorted.deep_view() =~= old_sorted.insert(at as int, entry@));
                seen = longer;
            }
            j += 1;
        }
        proof {
            assert(entries.take(j as int) =~= entries);
            assert(all.take(g + 1).drop_last() =~= all.take(g as int));
            assert(all.take(g + 1).last() == entries);
        }
        g += 1;
    }
    proof {
        assert(all.take(g as int) =~= all);
        lemma_sort_by_path(seen);
    }
    let mut rows: Vec<InputRow> = Vec::with_capacity(sorted.len());
    let mut i: usize = 0;
    proof {
        assert(rows.deep_view() =~= number_rows(sort_by_path(seen)).take(0));
    }
    while i < sorted.len()
        invariant
            i <= sorted@.len(),
            sorted.deep_view() == sort_by_path(seen),
            rows.deep_view() == number_rows(sort_by_path(seen)).take(i as int),
        decreases sorted@.len() - i,
    {
        let entry = sorted[i];
        let ghost before = rows.deep_view();
        let row = InputRow { index: i + 1, name: copy_bytes(entry.name.as_slice()), is_dir: entry.is_dir };
        proof {
            assert(sorted.deep_view()[i as int] == entry@);
            assert(row@ == number_rows(sort_by_path(seen))[i as int]);
        }
        rows.push(row);
        proof {
            assert(rows.deep_view() =~= before.push(number_rows(sort_by_path(seen))[i as int]));
            assert(rows.deep_view() =~= number_rows(sort_by_path(seen)).take(i + 1));
        }
        i += 1;
    }
    proof {
        let numbers = number_rows(sort_by_path(seen));
        assert(numbers.take(i as int) =~= numbers);
        assert(numbers.map_values(|row: IndexedEntry| row.entry()) =~= sort_by_path(seen));
    }
    rows
}

/// The words for a directory that could not be listed. `quoted` shows its
/// path.
pub open spec fn list_failure_text(quoted: Seq<char>) -> Seq<char> {
    "Couldn't list files in "@ + quoted
}

/// Says that a directory could not be listed. `quoted` shows its path.
pub fn list_failure_message(quoted: &str) -> (r: String)
    ensures
        r@ == list_failure_text(quoted@),
{
    let mut r = String::from_str("Couldn't list files in ");
    r.append(quoted);
    r
}

/// Says that the directory at `path` could not be listed.
pub fn list_failure(path: &[u8]) -> (r: String)
    ensures
        r@ == list_failure_text(path_debug(path@)),
{
    let quoted = quote_path(path);
    list_failure_message(quoted.as_str())
}

/// The path of the directory that is listed where none is named.
pub const DEFAULT_DIR: &'static str = ".";

/// The directories to list: those that were named, each as the bytes of its
/// name, or the current directory where none was named.
pub fn get_path_args(paths: Vec<String>) -> (r: Vec<Vec<u8>>)
    ensures
        paths.len() == 0 ==> r.len() == 1 && r[0]@ == seq![46u8],
        paths.len() > 0 ==> r.len() == paths.len() && forall|i: int|
            0 <= i < paths.len() ==> (#[trigger] r[i])@ == encode_utf8(paths[i]@),
{
    let mut r: Vec<Vec<u8>> = Vec::new();
    if paths.len() == 0 {
        let here = DEFAULT_DIR.as_bytes_vec();
        proof {
            reveal_strlit(".");
            assert(is_ascii(DEFAULT_DIR)) by {
                assert(DEFAULT_DIR@ =~= seq!['.']);
            }
            is_ascii_spec_bytes(DEFAULT_DIR);
            assert(here@ =~= seq![46u8]);
        }
        r.push(here);
        return r;
    }
    let mut i: usize = 0;
    while i < paths.len()
        invariant
            i <= paths.len(),
            r.len() == i,
            forall|k: int| 0 <= k < i ==> (#[trigger] r[k])@ == encode_utf8(paths[k]@),
        decreases paths.len() - i,
    {
        r.push(paths[i].as_str().as_bytes_vec());
        i += 1;
    }
    r
}

} // verus!
