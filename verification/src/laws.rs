//! What holds of the listing, the edited text and the verdicts together.

use crate::apply::{lemma_next_change, next_change};
use crate::decode::{decode, lemma_fault_stays, parse_lines, parse_row};
use crate::edit::plan;
use crate::encode::{encode, row_text, WIDTH};
use crate::error::Fault;
use crate::number::{
    digits, is_digit, lemma_digits_are_digits, lemma_number_of_digits, pad_left, small_number,
};
use crate::reconcile::{first_unknown, known, last_path, lemma_first_unknown_is, reconcile, verdict};
use crate::rows::{numbered, EditedRow, IndexedEntry, Verdict};
use crate::text::{
    first_index, lemma_first_index, lemma_first_index_is, lemma_split_joined, lemma_split_skipped,
    lemma_split_whole, lemma_trim_end_upto, lemma_trim_nothing, lemma_trim_start_from, split,
    split_once, trim, NEWLINE, SPACE,
};
use vstd::prelude::*;

verus! {

/// Whether the row of an entry can be read back as it was written: the number
/// is one that a row can hold, and the path as it is shown is not empty,
/// holds no newline, and neither begins nor ends with a space.
pub open spec fn listable(entry: IndexedEntry) -> bool {
    let shown = entry.shown_path();
    &&& entry.index <= usize::MAX
    &&& shown.len() > 0
    &&& shown[0] != SPACE
    &&& shown.last() != SPACE
    &&& forall|i: int| 0 <= i < shown.len() ==> shown[i] != NEWLINE
}

/// Whether each of the entries is listable.
pub open spec fn all_listable(entries: Seq<IndexedEntry>) -> bool {
    forall|i: int| 0 <= i < entries.len() ==> listable(#[trigger] entries[i])
}

/// The row that stands for an entry in a listing that nobody has changed.
pub open spec fn shown_row(entry: IndexedEntry) -> EditedRow {
    EditedRow { index: entry.index, path: entry.shown_path() }
}

/// The rows of a listing that nobody has changed.
pub open spec fn shown_rows(entries: Seq<IndexedEntry>) -> Seq<EditedRow> {
    Seq::new(entries.len(), |i: int| shown_row(entries[i]))
}

/// The text of a row without the spaces in front of it.
pub open spec fn content(entry: IndexedEntry) -> Seq<u8> {
    digits(entry.index) + seq![SPACE] + entry.shown_path()
}

/// The text of a row is spaces and then its content; it holds no newline, and
/// without the spaces around it, it is its content.
proof fn lemma_row_text(entry: IndexedEntry)
    requires
        listable(entry),
    ensures
        content(entry).len() > 0,
        content(entry)[0] != SPACE,
        content(entry).last() != SPACE,
        trim(content(entry)) == content(entry),
        trim(row_text(entry)) == content(entry),
        forall|i: int| 0 <= i < row_text(entry).len() ==> row_text(entry)[i] != NEWLINE,
        0 <= row_text(entry).len() - content(entry).len() < row_text(entry).len(),
        row_text(entry).skip(row_text(entry).len() - content(entry).len()) == content(entry),
        forall|i: int|
            0 <= i < row_text(entry).len() - content(entry).len() ==> row_text(entry)[i] == SPACE,
{
    let number = digits(entry.index);
    let shown = entry.shown_path();
    let inner = content(entry);
    let row = row_text(entry);
    lemma_digits_are_digits(entry.index);
    assert(is_digit(number[0]));
    assert(inner[0] == number[0]);
    assert(inner.last() == shown.last());
    lemma_trim_nothing(inner);
    let k = row.len() - inner.len();
    let padded = pad_left(number, WIDTH as nat);
    assert(row =~= padded + seq![SPACE] + shown);
    if number.len() < WIDTH {
        let spaces = Seq::new((WIDTH - number.len()) as nat, |i: int| SPACE);
        assert(padded == spaces + number);
        assert(row =~= spaces + inner);
        assert(k == spaces.len());
        assert(row.skip(k) =~= inner);
        assert forall|i: int| 0 <= i < k implies row[i] == SPACE by {
            assert(row[i] == spaces[i]);
        }
    } else {
        assert(row =~= inner);
        assert(row.skip(0) =~= inner);
    }
    assert(row[k] == inner[0]);
    lemma_trim_start_from(row, k);
    assert forall|i: int| 0 <= i < row.len() implies row[i] != NEWLINE by {
        if i < k {
        } else {
            assert(row[i] == inner[i - k]);
            let j = i - k;
            if j < number.len() {
                assert(inner[j] == number[j]);
                assert(is_digit(number[j]));
            } else if j == number.len() {
            } else {
                assert(inner[j] == shown[j - number.len() - 1]);
            }
        }
    }
}

/// The content of a row reads as the row of its entry.
proof fn lemma_parse_content(entry: IndexedEntry, row: nat)
    requires
        listable(entry),
    ensures
        parse_row(content(entry), row) == Ok::<EditedRow, Fault>(shown_row(entry)),
{
    let number = digits(entry.index);
    let shown = entry.shown_path();
    let inner = content(entry);
    lemma_digits_are_digits(entry.index);
    assert forall|j: int| 0 <= j < number.len() implies inner[j] != SPACE by {
        assert(inner[j] == number[j]);
        assert(is_digit(number[j]));
    }
    assert(inner[number.len() as int] == SPACE);
    lemma_first_index_is(inner, SPACE, number.len() as int);
    assert(inner.take(number.len() as int) =~= number);
    assert(inner.skip(number.len() as int + 1) =~= shown);
    lemma_number_of_digits(entry.index);
    lemma_trim_nothing(shown);
}

/// The lines of a listing are the texts of its rows.
proof fn lemma_encode_lines(entries: Seq<IndexedEntry>)
    requires
        all_listable(entries),
        entries.len() > 0,
    ensures
        split(encode(entries), NEWLINE) == Seq::new(entries.len(), |i: int| row_text(entries[i])),
        encode(entries).len() > 0,
        encode(entries).last() != SPACE,
    decreases entries.len(),
{
    let last = entries.last();
    lemma_row_text(last);
    let row = row_text(last);
    assert(row.last() == last.shown_path().last()) by {
        assert(row =~= pad_left(digits(last.index), WIDTH as nat) + seq![SPACE] + last.shown_path());
    }
    lemma_split_whole(row, NEWLINE);
    if entries.len() == 1 {
        assert(split(encode(entries), NEWLINE) =~= Seq::new(
            entries.len(),
            |i: int| row_text(entries[i]),
        ));
    } else {
        let shorter = entries.drop_last();
        assert forall|i: int| 0 <= i < shorter.len() implies listable(#[trigger] shorter[i]) by {
            assert(shorter[i] == entries[i]);
        }
        lemma_encode_lines(shorter);
        lemma_split_joined(encode(shorter), row, NEWLINE);
        assert(split(encode(entries), NEWLINE) =~= Seq::new(
            entries.len(),
            |i: int| row_text(entries[i]),
        ));
        assert(encode(entries).last() == row.last());
    }
}

/// Lines that are, without the spaces around them, the contents of the rows
/// of a listing read as the rows of that listing.
proof fn lemma_parse_contents(entries: Seq<IndexedEntry>, lines: Seq<Seq<u8>>)
    requires
        all_listable(entries),
        lines.len() == entries.len(),
        forall|i: int| 0 <= i < lines.len() ==> trim(#[trigger] lines[i]) == content(entries[i]),
    ensures
        parse_lines(lines) == Ok::<Seq<EditedRow>, Fault>(shown_rows(entries)),
    decreases lines.len(),
{
    if lines.len() == 0 {
        assert(shown_rows(entries) =~= Seq::<EditedRow>::empty());
    } else {
        let shorter = entries.drop_last();
        let fewer = lines.drop_last();
        assert forall|i: int| 0 <= i < shorter.len() implies listable(#[trigger] shorter[i]) by {
            assert(shorter[i] == entries[i]);
        }
        assert forall|i: int| 0 <= i < fewer.len() implies trim(#[trigger] fewer[i]) == content(
            shorter[i],
        ) by {
            assert(fewer[i] == lines[i]);
            assert(shorter[i] == entries[i]);
        }
        lemma_parse_contents(shorter, fewer);
        let last = entries.last();
        assert(trim(lines.last()) == content(last));
        lemma_row_text(last);
        lemma_parse_content(last, shorter.len());
        assert(shown_rows(shorter).push(shown_row(last)) =~= shown_rows(entries));
    }
}

/// A listing that is written out and read back unchanged gives, for each
/// entry, a row with the number of the entry and with the path as it was
/// shown, byte for byte: whatever bytes a path holds, none is lost, changed
/// or replaced.
pub proof fn lemma_read_back(entries: Seq<IndexedEntry>)
    requires
        all_listable(entries),
    ensures
        decode(encode(entries)) == Ok::<Seq<EditedRow>, Fault>(shown_rows(entries)),
{
    let text = encode(entries);
    if entries.len() == 0 {
        lemma_trim_nothing(text);
        lemma_split_whole(text, NEWLINE);
        let lines = split(text, NEWLINE);
        assert(lines.drop_last() =~= Seq::<Seq<u8>>::empty());
        assert(parse_lines(lines.drop_last()) == Ok::<Seq<EditedRow>, Fault>(Seq::empty()));
        assert(shown_rows(entries) =~= Seq::<EditedRow>::empty());
    } else {
        let first = entries[0];
        let rows = Seq::new(entries.len(), |i: int| row_text(entries[i]));
        lemma_encode_lines(entries);
        lemma_row_text(first);
        let k = row_text(first).len() - content(first).len();
        let i = first_index(text, NEWLINE);
        lemma_first_index(text, NEWLINE);
        assert(rows[0] == row_text(first));
        assert(split(text, NEWLINE)[0] == text.take(i));
        assert(text.take(i) == row_text(first));
        assert(i == row_text(first).len());
        assert forall|j: int| 0 <= j < k implies text[j] == SPACE by {
            assert(text[j] == text.take(i)[j]);
        }
        assert(text[k] != SPACE) by {
            assert(text[k] == text.take(i)[k]);
            assert(row_text(first)[k] == row_text(first).skip(k)[0]);
        }
        lemma_trim_start_from(text, k);
        let cut = text.skip(k);
        assert(cut.last() == text.last());
        lemma_trim_end_upto(cut, cut.len() as int);
        assert(cut.take(cut.len() as int) =~= cut);
        assert(trim(text) == cut);
        lemma_split_skipped(text, NEWLINE, k);
        let lines = split(cut, NEWLINE);
        assert(lines == rows.update(0, content(first)));
        assert forall|j: int| 0 <= j < lines.len() implies trim(#[trigger] lines[j]) == content(
            entries[j],
        ) by {
            lemma_row_text(entries[j]);
        }
        lemma_parse_contents(entries, lines);
    }
}

/// A line that holds something, but no space, makes the text a fault,
/// whatever comes behind it: where the lines in front of it read as `rows`,
/// the fault names the place of the line among the rows.
pub proof fn lemma_missing_index_refused(text: Seq<u8>, k: int, rows: Seq<EditedRow>)
    requires
        0 <= k < split(trim(text), NEWLINE).len(),
        parse_lines(split(trim(text), NEWLINE).take(k)) == Ok::<Seq<EditedRow>, Fault>(rows),
        trim(split(trim(text), NEWLINE)[k]).len() > 0,
        split_once(trim(split(trim(text), NEWLINE)[k]), SPACE).is_none(),
    ensures
        decode(text) == Err::<Seq<EditedRow>, Fault>((Fault::MissingIndex { row: rows.len() })),
{
    let lines = split(trim(text), NEWLINE);
    let upto = lines.take(k + 1);
    assert(upto.drop_last() =~= lines.take(k));
    assert(upto.last() == lines[k]);
    assert(parse_lines(upto).is_err());
    lemma_fault_stays(upto, lines.skip(k + 1));
    assert(upto + lines.skip(k + 1) =~= lines);
}

/// A line whose number cannot be read makes the text a fault, whatever comes
/// behind it: where the lines in front of it read as `rows`, the fault names
/// what stands in place of the number, and the place of the line among the
/// rows.
pub proof fn lemma_invalid_index_refused(text: Seq<u8>, k: int, rows: Seq<EditedRow>)
    requires
        0 <= k < split(trim(text), NEWLINE).len(),
        parse_lines(split(trim(text), NEWLINE).take(k)) == Ok::<Seq<EditedRow>, Fault>(rows),
        split_once(trim(split(trim(text), NEWLINE)[k]), SPACE) matches Some((number, _))
            && small_number(number).is_none(),
    ensures
        split_once(trim(split(trim(text), NEWLINE)[k]), SPACE) matches Some((number, _))
            && decode(text) == Err::<Seq<EditedRow>, Fault>(
            (Fault::InvalidIndex { text: number, row: rows.len() }),
        ),
{
    let lines = split(trim(text), NEWLINE);
    let upto = lines.take(k + 1);
    assert(upto.drop_last() =~= lines.take(k));
    assert(upto.last() == lines[k]);
    let line = trim(lines[k]);
    lemma_first_index(line, SPACE);
    assert(line.len() > 0);
    assert(parse_lines(upto).is_err());
    lemma_fault_stays(upto, lines.skip(k + 1));
    assert(upto + lines.skip(k + 1) =~= lines);
}

/// The verdicts that keep every entry.
pub open spec fn all_kept(entries: Seq<IndexedEntry>) -> Seq<Verdict> {
    Seq::new(entries.len(), |i: int| Verdict::Keep(entries[i]))
}

/// Whether every row has the number of an entry.
pub open spec fn all_known(entries: Seq<IndexedEntry>, rows: Seq<EditedRow>) -> bool {
    forall|j: int| 0 <= j < rows.len() ==> known(entries, (#[trigger] rows[j]).index)
}

/// Whether the row at `k` is the only row with its number.
pub open spec fn only_row(rows: Seq<EditedRow>, k: int) -> bool {
    forall|j: int| 0 <= j < rows.len() && j != k ==> (#[trigger] rows[j]).index != rows[k].index
}

/// The rows with another path in the row at `k`, and nothing else changed.
pub open spec fn with_path(rows: Seq<EditedRow>, k: int, path: Seq<u8>) -> Seq<EditedRow> {
    rows.update(k, EditedRow { index: rows[k].index, path })
}

/// Rows are taken if and only if each of them has the number of an entry, and
/// then there is one verdict for each entry, the verdict that the rows give
/// of it.
pub proof fn lemma_reconcile_known(entries: Seq<IndexedEntry>, rows: Seq<EditedRow>)
    ensures
        all_known(entries, rows) <==> reconcile(entries, rows).is_ok(),
        all_known(entries, rows) ==> reconcile(entries, rows) == Ok::<Seq<Verdict>, Fault>(
            Seq::new(entries.len(), |i: int| verdict(entries[i], rows)),
        ),
{
    crate::reconcile::lemma_first_unknown(entries, rows);
    if all_known(entries, rows) {
        lemma_first_unknown_is(entries, rows, rows.len() as int);
    }
}

/// Rows that are taken give one verdict for each entry, and the verdict at
/// the place of an entry is about that entry.
pub proof fn lemma_one_verdict_each(entries: Seq<IndexedEntry>, rows: Seq<EditedRow>)
    requires
        all_known(entries, rows),
    ensures
        reconcile(entries, rows) matches Ok(verdicts) && verdicts.len() == entries.len()
            && forall|i: int|
            0 <= i < entries.len() ==> (#[trigger] verdicts[i]).entry() == entries[i],
{
    lemma_reconcile_known(entries, rows);
}

/// A row with a number that no entry has makes the rows a fault: nothing is
/// to be done with any entry, and the fault names a number that no entry has,
/// with the place of the first row that has it.
pub proof fn lemma_unknown_index_refused(entries: Seq<IndexedEntry>, rows: Seq<EditedRow>, k: int)
    requires
        0 <= k < rows.len(),
        !known(entries, rows[k].index),
    ensures
        0 <= first_unknown(entries, rows) <= k,
        !known(entries, rows[first_unknown(entries, rows)].index),
        reconcile(entries, rows) == Err::<Seq<Verdict>, Fault>(
            (Fault::UnknownIndex {
                index: rows[first_unknown(entries, rows)].index,
                row: first_unknown(entries, rows) as nat,
            }),
        ),
{
    crate::reconcile::lemma_first_unknown(entries, rows);
    let first = first_unknown(entries, rows);
    if first > k {
        assert(known(entries, rows[k].index));
    }
}

/// Where no row has a number, the rows say nothing of it.
pub proof fn lemma_last_path_none(rows: Seq<EditedRow>, index: nat)
    requires
        forall|j: int| 0 <= j < rows.len() ==> (#[trigger] rows[j]).index != index,
    ensures
        last_path(rows, index).is_none(),
    decreases rows.len(),
{
    if rows.len() > 0 {
        let fewer = rows.drop_last();
        assert forall|j: int| 0 <= j < fewer.len() implies (#[trigger] fewer[j]).index != index by {
            assert(fewer[j] == rows[j]);
        }
        assert(rows.last() == rows[rows.len() - 1]);
        lemma_last_path_none(fewer, index);
    }
}

/// Where one row alone has a number, its path is what the rows say of it.
pub proof fn lemma_last_path_only(rows: Seq<EditedRow>, k: int)
    requires
        0 <= k < rows.len(),
        only_row(rows, k),
    ensures
        last_path(rows, rows[k].index) == Some(rows[k].path),
    decreases rows.len(),
{
    if k < rows.len() - 1 {
        let fewer = rows.drop_last();
        assert(rows.last() == rows[rows.len() - 1]);
        assert(fewer[k] == rows[k]);
        assert forall|j: int| 0 <= j < fewer.len() && j != k implies (#[trigger] fewer[j]).index
            != fewer[k].index by {
            assert(fewer[j] == rows[j]);
        }
        lemma_last_path_only(fewer, k);
    }
}

/// What the rows say of a number does not change where a row with another
/// number goes.
pub proof fn lemma_last_path_removed(rows: Seq<EditedRow>, k: int, index: nat)
    requires
        0 <= k < rows.len(),
        rows[k].index != index,
    ensures
        last_path(rows.remove(k), index) == last_path(rows, index),
    decreases rows.len(),
{
    let left = rows.remove(k);
    if k == rows.len() - 1 {
        assert(left =~= rows.drop_last());
    } else {
        assert(left.last() == rows.last());
        assert(left.drop_last() =~= rows.drop_last().remove(k));
        if rows.last().index != index {
            assert(rows.drop_last()[k] == rows[k]);
            lemma_last_path_removed(rows.drop_last(), k, index);
        }
    }
}

/// What the rows say of a number does not change where a row with another
/// number gets another path.
pub proof fn lemma_last_path_updated(rows: Seq<EditedRow>, k: int, path: Seq<u8>, index: nat)
    requires
        0 <= k < rows.len(),
        rows[k].index != index,
    ensures
        last_path(with_path(rows, k, path), index) == last_path(rows, index),
    decreases rows.len(),
{
    let row = EditedRow { index: rows[k].index, path };
    let changed = rows.update(k, row);
    if k == rows.len() - 1 {
        assert(changed.drop_last() =~= rows.drop_last());
    } else {
        assert(changed.last() == rows.last());
        assert(changed.drop_last() =~= rows.drop_last().update(k, row));
        if rows.last().index != index {
            assert(rows.drop_last()[k] == rows[k]);
            lemma_last_path_updated(rows.drop_last(), k, path, index);
        }
    }
}

/// Rows that nobody has changed keep every entry, so that nothing is to be
/// done to the file system.
pub proof fn lemma_unchanged_rows_keep_all(entries: Seq<IndexedEntry>)
    requires
        numbered(entries),
    ensures
        reconcile(entries, shown_rows(entries)) == Ok::<Seq<Verdict>, Fault>(all_kept(entries)),
{
    let rows = shown_rows(entries);
    assert forall|j: int| 0 <= j < rows.len() implies known(entries, (#[trigger] rows[j]).index) by {
        assert(entries[j].index == rows[j].index);
    }
    lemma_reconcile_known(entries, rows);
    assert forall|i: int| 0 <= i < entries.len() implies verdict(entries[i], rows)
        == Verdict::Keep(entries[i]) by {
        assert forall|j: int| 0 <= j < rows.len() && j != i implies (#[trigger] rows[j]).index
            != rows[i].index by {
            assert(entries[j].index == j + 1);
            assert(entries[i].index == i + 1);
        }
        lemma_last_path_only(rows, i);
    }
    assert(Seq::new(entries.len(), |i: int| verdict(entries[i], rows)) =~= all_kept(entries));
}

/// A listing that is written out, read back unchanged and compared with
/// itself keeps every entry, so that nothing is to be done to the file
/// system.
pub proof fn lemma_round_trip(entries: Seq<IndexedEntry>)
    requires
        numbered(entries),
        all_listable(entries),
    ensures
        plan(entries, encode(entries)) == Ok::<Seq<Verdict>, Fault>(all_kept(entries)),
        next_change(all_kept(entries), 0) == entries.len(),
{
    lemma_next_change(all_kept(entries), 0);
    if next_change(all_kept(entries), 0) < entries.len() {
        assert(all_kept(entries)[next_change(all_kept(entries), 0)] is Keep);
    }
    lemma_read_back(entries);
    lemma_unchanged_rows_keep_all(entries);
}

/// To take a row away, and nothing else, deletes the entry with the number
/// of that row and changes no other verdict. The row must have been the only
/// one with its number.
pub proof fn lemma_removed_row_deletes(
    entries: Seq<IndexedEntry>,
    rows: Seq<EditedRow>,
    k: int,
    i: int,
)
    requires
        numbered(entries),
        all_known(entries, rows),
        0 <= k < rows.len(),
        only_row(rows, k),
        0 <= i < entries.len(),
        entries[i].index == rows[k].index,
    ensures
        reconcile(entries, rows) matches Ok(before) && reconcile(entries, rows.remove(k))
            == Ok::<Seq<Verdict>, Fault>(before.update(i, Verdict::Delete(entries[i]))),
{
    let left = rows.remove(k);
    assert forall|j: int| 0 <= j < left.len() implies known(entries, (#[trigger] left[j]).index) by {
        if j < k {
            assert(left[j] == rows[j]);
        } else {
            assert(left[j] == rows[j + 1]);
        }
    }
    lemma_reconcile_known(entries, rows);
    lemma_reconcile_known(entries, left);
    let before = Seq::new(entries.len(), |e: int| verdict(entries[e], rows));
    let after = Seq::new(entries.len(), |e: int| verdict(entries[e], left));
    assert forall|e: int| 0 <= e < entries.len() implies after[e] == before.update(
        i,
        Verdict::Delete(entries[i]),
    )[e] by {
        if e == i {
            assert forall|j: int| 0 <= j < left.len() implies (#[trigger] left[j]).index
                != entries[i].index by {
                if j < k {
                    assert(left[j] == rows[j]);
                } else {
                    assert(left[j] == rows[j + 1]);
                }
            }
            lemma_last_path_none(left, entries[i].index);
        } else {
            assert(entries[e].index == e + 1);
            assert(entries[i].index == i + 1);
            lemma_last_path_removed(rows, k, entries[e].index);
        }
    }
    assert(after =~= before.update(i, Verdict::Delete(entries[i])));
}

/// To change the path of a row, and nothing else, renames the entry with the
/// number of that row to the new path and changes no other verdict. The row
/// must be the only one with its number, and the new path must not be the
/// path that the listing showed.
pub proof fn lemma_edited_path_renames(
    entries: Seq<IndexedEntry>,
    rows: Seq<EditedRow>,
    k: int,
    i: int,
    path: Seq<u8>,
)
    requires
        numbered(entries),
        all_known(entries, rows),
        0 <= k < rows.len(),
        only_row(rows, k),
        0 <= i < entries.len(),
        entries[i].index == rows[k].index,
        path != entries[i].shown_path(),
    ensures
        reconcile(entries, rows) matches Ok(before) && reconcile(
            entries,
            with_path(rows, k, path),
        ) == Ok::<Seq<Verdict>, Fault>(before.update(i, Verdict::Rename(entries[i], path))),
{
    let row = EditedRow { index: rows[k].index, path };
    let changed = rows.update(k, row);
    assert forall|j: int| 0 <= j < changed.len() implies known(
        entries,
        (#[trigger] changed[j]).index,
    ) by {
        assert(changed[j].index == rows[j].index);
    }
    lemma_reconcile_known(entries, rows);
    lemma_reconcile_known(entries, changed);
    let before = Seq::new(entries.len(), |e: int| verdict(entries[e], rows));
    let after = Seq::new(entries.len(), |e: int| verdict(entries[e], changed));
    assert forall|e: int| 0 <= e < entries.len() implies after[e] == before.update(
        i,
        Verdict::Rename(entries[i], path),
    )[e] by {
        if e == i {
            assert forall|j: int| 0 <= j < changed.len() && j != k implies (
            #[trigger] changed[j]).index != changed[k].index by {
                assert(changed[j] == rows[j]);
            }
            lemma_last_path_only(changed, k);
        } else {
            assert(entries[e].index == e + 1);
            assert(entries[i].index == i + 1);
            lemma_last_path_updated(rows, k, path, entries[e].index);
        }
    }
    assert(after =~= before.update(i, Verdict::Rename(entries[i], path)));
}

} // verus!
