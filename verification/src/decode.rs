//! Reading the rows back from the edited text.

use crate::error::{EditError, Fault};
use crate::number::{parse_number, small_number};
use crate::rows::{copy_bytes, EditedRow, OutputRow};
use crate::text::{find_byte, split, split_at_first, split_once, trim, trim_spaces, NEWLINE, SPACE};
use vstd::prelude::*;
use vstd::slice::slice_subrange;

verus! {

/// What one row says. The row stands without spaces around it and is not
/// empty, and `row` rows stand before it.
///
/// The row is parted at its first space. In front of it stands the number,
/// behind it the path, which loses the spaces around it and nothing else: a
/// `/` at its end stays.
pub open spec fn parse_row(line: Seq<u8>, row: nat) -> Result<EditedRow, Fault> {
    match split_once(line, SPACE) {
        None => Err(Fault::MissingIndex { row }),
        Some((number, path)) => match small_number(number) {
            None => Err(Fault::InvalidIndex { text: number, row }),
            Some(index) => Ok(EditedRow { index, path: trim(path) }),
        },
    }
}

/// What the lines say, from the first line to the last. A line that is empty
/// once the spaces around it are gone says nothing and is not counted. The
/// first line that cannot be read is the fault, and then no row is read.
pub open spec fn parse_lines(lines: Seq<Seq<u8>>) -> Result<Seq<EditedRow>, Fault>
    decreases lines.len(),
{
    if lines.len() == 0 {
        Ok(Seq::empty())
    } else {
        match parse_lines(lines.drop_last()) {
            Err(fault) => Err(fault),
            Ok(rows) => {
                let line = trim(lines.last());
                if line.len() == 0 {
                    Ok(rows)
                } else {
                    match parse_row(line, rows.len()) {
                        Err(fault) => Err(fault),
                        Ok(row) => Ok(rows.push(row)),
                    }
                }
            },
        }
    }
}

/// What the edited text says: the text loses the spaces around it, is parted
/// into lines at each newline, and the lines are read in order.
pub open spec fn decode(text: Seq<u8>) -> Result<Seq<EditedRow>, Fault> {
    parse_lines(split(trim(text), NEWLINE))
}

/// Once a line cannot be read, the lines after it do not matter.
pub proof fn lemma_fault_stays(lines: Seq<Seq<u8>>, more: Seq<Seq<u8>>)
    requires
        parse_lines(lines).is_err(),
    ensures
        parse_lines(lines + more) == parse_lines(lines),
    decreases more.len(),
{
    if more.len() == 0 {
        assert(lines + more =~= lines);
    } else {
        lemma_fault_stays(lines, more.drop_last());
        assert((lines + more).drop_last() =~= lines + more.drop_last());
    }
}

/// Reads one row, which stands without spaces around it and is not empty.
/// `row` is the number of rows in front of it.
pub fn parse_one(line: &[u8], row: usize) -> (r: Result<OutputRow, EditError>)
    ensures
        match r {
            Ok(found) => parse_row(line@, row as nat) == Ok::<EditedRow, Fault>(found@),
            Err(e) => parse_row(line@, row as nat) == Err::<EditedRow, Fault>(e@),
        },
{
    match split_at_first(line, SPACE) {
        None => Err(EditError::MissingIndex { row }),
        Some((number, path)) => match parse_number(number) {
            None => Err(EditError::InvalidIndex { text: copy_bytes(number), row }),
            Some(index) => Ok(OutputRow { index, name: copy_bytes(trim_spaces(path)) }),
        },
    }
}

/// Reads the rows back from the edited text.
///
/// Blank lines are passed over. Every other line holds a number, a space and
/// a path. The rows come out in the order of the text. The first line that
/// cannot be read is reported with its place among the lines that are not
/// blank, counted from 0.
pub fn parse_files(input: &[u8]) -> (r: Result<Vec<OutputRow>, EditError>)
    ensures
        match r {
            Ok(rows) => decode(input@) == Ok::<Seq<EditedRow>, Fault>(rows.deep_view()),
            Err(e) => decode(input@) == Err::<Seq<EditedRow>, Fault>(e@),
        },
{
    let text = trim_spaces(input);
    let mut rows: Vec<OutputRow> = Vec::new();
    let mut rest = text;
    let mut more = true;
    let ghost mut done = Seq::<Seq<u8>>::empty();
    let ghost lines = split(text@, NEWLINE);
    proof {
        assert(done + split(rest@, NEWLINE) =~= lines);
        assert(rows.deep_view() =~= Seq::<EditedRow>::empty());
    }
    while more
        invariant
            lines == split(trim(input@), NEWLINE),
            more ==> lines == done + split(rest@, NEWLINE),
            !more ==> lines == done,
            parse_lines(done) == Ok::<Seq<EditedRow>, Fault>(rows.deep_view()),
        decreases
            (if more {
                rest@.len() + 1
            } else {
                0
            }),
    {
        let at = find_byte(rest, NEWLINE);
        let ends = at == rest.len();
        let line = if ends {
            rest
        } else {
            slice_subrange(rest, 0, at)
        };
        let ghost after = if ends {
            Seq::<Seq<u8>>::empty()
        } else {
            split(rest@.skip(at + 1), NEWLINE)
        };
        let ghost longer = done.push(line@);
        let ghost tail = rest@.skip(at + 1);
        proof {
            crate::text::lemma_first_index(rest@, NEWLINE);
            if !ends {
                assert(line@ =~= rest@.take(at as int));
            }
            assert(split(rest@, NEWLINE) =~= seq![line@] + after);
            assert(lines =~= longer + after);
            assert(longer.drop_last() =~= done);
        }
        let content = trim_spaces(line);
        if content.len() > 0 {
            match parse_one(content, rows.len()) {
                Err(e) => {
                    proof {
                        lemma_fault_stays(longer, after);
                    }
                    return Err(e);
                },
                Ok(row) => {
                    let ghost before = rows.deep_view();
                    let ghost found = row@;
                    rows.push(row);
                    proof {
                        assert(rows.deep_view() =~= before.push(found));
                    }
                },
            }
        }
        proof {
            done = longer;
        }
        if ends {
            more = false;
        } else {
            rest = slice_subrange(rest, at + 1, rest.len());
            proof {
                assert(rest@ =~= tail);
            }
        }
    }
    Ok(rows)
}

} // verus!
