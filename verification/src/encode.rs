//! Writing the listing as text for the editor.

use crate::number::{decimal, digits, pad_left};
use crate::rows::{IndexedEntry, InputRow, SLASH};
use crate::text::{NEWLINE, SPACE};
use vstd::prelude::*;

verus! {

/// The width to which the number of a row is filled up with spaces.
pub const WIDTH: usize = 5;

/// The text of one row: the number, with spaces in front of it where it has
/// fewer than five digits, then one space, then the path as it is shown. No
/// byte of the path is changed or escaped.
pub open spec fn row_text(entry: IndexedEntry) -> Seq<u8> {
    pad_left(digits(entry.index), WIDTH as nat) + seq![SPACE] + entry.shown_path()
}

/// The text of the listing: one row for each entry, in order, with a newline
/// between two rows and none at the end.
pub open spec fn encode(entries: Seq<IndexedEntry>) -> Seq<u8>
    decreases entries.len(),
{
    if entries.len() == 0 {
        Seq::empty()
    } else if entries.len() == 1 {
        row_text(entries[0])
    } else {
        encode(entries.drop_last()) + seq![NEWLINE] + row_text(entries.last())
    }
}

/// Appends the bytes of `s` to `out`.
pub fn push_bytes(out: &mut Vec<u8>, s: &[u8])
    ensures
        final(out)@ == old(out)@ + s@,
{
    let mut i: usize = 0;
    proof {
        assert(out@ =~= old(out)@ + s@.take(0));
    }
    while i < s.len()
        invariant
            i <= s@.len(),
            out@ == old(out)@ + s@.take(i as int),
        decreases s@.len() - i,
    {
        out.push(s[i]);
        proof {
            assert(out@ =~= old(out)@ + s@.take(i + 1));
        }
        i += 1;
    }
    proof {
        assert(s@.take(i as int) =~= s@);
    }
}

/// Appends the text of one row to `out`.
pub fn push_row(row: &InputRow, out: &mut Vec<u8>)
    ensures
        final(out)@ == old(out)@ + row_text(row@),
{
    let number = decimal(row.index);
    let mut width: usize = number.len();
    proof {
        assert(out@ =~= old(out)@ + Seq::new(0, |i: int| SPACE));
    }
    while width < WIDTH
        invariant
            number@.len() <= width,
            width <= WIDTH || width == number@.len(),
            out@ == old(out)@ + Seq::new((width - number@.len()) as nat, |i: int| SPACE),
        decreases WIDTH - width,
    {
        out.push(SPACE);
        proof {
            assert(out@ =~= old(out)@ + Seq::new((width + 1 - number@.len()) as nat, |i: int| SPACE));
        }
        width += 1;
    }
    let ghost padded = out@;
    proof {
        assert(padded + number@ =~= old(out)@ + pad_left(number@, WIDTH as nat));
    }
    push_bytes(out, number.as_slice());
    out.push(SPACE);
    push_bytes(out, row.name.as_slice());
    if row.is_dir {
        out.push(SLASH);
    }
    proof {
        assert(out@ =~= old(out)@ + row_text(row@));
    }
}

/// Writes the listing as text for the editor: one row for each entry.
pub fn get_input(files: &[InputRow]) -> (text: Vec<u8>)
    ensures
        text@ == encode(files.deep_view()),
{
    let ghost entries = files.deep_view();
    let mut text: Vec<u8> = Vec::new();
    let mut i: usize = 0;
    proof {
        assert(entries.take(0) =~= Seq::<IndexedEntry>::empty());
    }
    while i < files.len()
        invariant
            i <= files@.len(),
            entries == files.deep_view(),
            text@ == encode(entries.take(i as int)),
        decreases files@.len() - i,
    {
        if i > 0 {
            text.push(NEWLINE);
        }
        push_row(&files[i], &mut text);
        proof {
            let longer = entries.take(i + 1);
            assert(longer.drop_last() =~= entries.take(i as int));
            assert(longer.last() == files@[i as int]@);
            if i == 0 {
                assert(text@ =~= row_text(longer[0]));
            } else {
                assert(text@ =~= encode(longer.drop_last()) + seq![NEWLINE] + row_text(longer.last()));
            }
        }
        i += 1;
    }
    proof {
        assert(entries.take(i as int) =~= entries);
    }
    text
}

} // verus!
