//! Reading rows back, and comparing them with the listing.

use rsdir::decode::{parse_files, parse_one};
use rsdir::encode::get_input;
use rsdir::error::EditError;
use rsdir::reconcile::{shows, update_files};
use rsdir::rows::{InputRow, Operation, OutputRow};

fn row(index: usize, name: &[u8]) -> OutputRow {
    OutputRow { index, name: name.to_vec() }
}

fn file(index: usize, name: &[u8]) -> InputRow {
    InputRow { index, name: name.to_vec(), is_dir: false }
}

fn dir(index: usize, name: &[u8]) -> InputRow {
    InputRow { index, name: name.to_vec(), is_dir: true }
}

#[test]
fn rows_come_back_in_the_order_of_the_text() {
    assert_eq!(
        parse_files(b"    2 ./dir/\n    1 ./baz"),
        Ok(vec![row(2, b"./dir/"), row(1, b"./baz")])
    );
}

#[test]
fn blank_lines_are_passed_over() {
    assert_eq!(parse_files(b""), Ok(vec![]));
    assert_eq!(parse_files(b"   "), Ok(vec![]));
    assert_eq!(parse_files(b"\n\n"), Ok(vec![]));
    assert_eq!(parse_files(b" \n   \n1 a\n\n  \n2 b\n"), Ok(vec![row(1, b"a"), row(2, b"b")]));
}

#[test]
fn spaces_around_a_row_and_around_its_path_do_not_count() {
    assert_eq!(parse_files(b"  1    a b   \n"), Ok(vec![row(1, b"a b")]));
    assert_eq!(parse_files(b"1 \t"), Ok(vec![row(1, b"\t")]));
}

#[test]
fn a_row_is_parted_at_its_first_space_only() {
    assert_eq!(parse_files(b"1 2 3"), Ok(vec![row(1, b"2 3")]));
    assert_eq!(parse_one(b"12 a  b", 0), Ok(row(12, b"a  b")));
}

#[test]
fn a_slash_at_the_end_of_a_path_is_kept() {
    assert_eq!(parse_files(b"1 a/\n2 b//"), Ok(vec![row(1, b"a/"), row(2, b"b//")]));
}

#[test]
fn a_path_may_hold_any_bytes() {
    let mut text = b"3 ".to_vec();
    text.extend_from_slice(&[0xff, 0x00, 0xc3, 0x28, 0x80]);
    assert_eq!(parse_files(&text), Ok(vec![row(3, &[0xff, 0x00, 0xc3, 0x28, 0x80])]));
}

#[test]
fn numbers_may_have_a_plus_and_leading_zeros() {
    assert_eq!(parse_files(b"+7 a\n007 b\n+0 c"), Ok(vec![row(7, b"a"), row(7, b"b"), row(0, b"c")]));
    let largest = format!("{} a", usize::MAX);
    assert_eq!(parse_files(largest.as_bytes()), Ok(vec![row(usize::MAX, b"a")]));
}

#[test]
fn a_row_without_a_space_has_no_number() {
    assert_eq!(parse_files(b"1"), Err(EditError::MissingIndex { row: 0 }));
    assert_eq!(parse_files(b"1 a\n\n./b\n2 c"), Err(EditError::MissingIndex { row: 1 }));
    assert_eq!(
        parse_files(b"1 \n").unwrap_err().message(),
        "Couldn't find index at row 0"
    );
    assert_eq!(
        EditError::MissingIndex { row: 1234567 }.message(),
        "Couldn't find index at row 1234567"
    );
}

#[test]
fn what_is_no_number_is_refused_with_its_text_and_place() {
    let refused = |text: &[u8], number: &[u8], row: usize| {
        assert_eq!(
            parse_files(text),
            Err(EditError::InvalidIndex { text: number.to_vec(), row })
        );
    };
    refused(b"x a", b"x", 0);
    refused(b"1 a\n-1 b", b"-1", 1);
    refused(b"1 a\n2 b\n 1.5 c", b"1.5", 2);
    refused(b"+ a", b"+", 0);
    refused(b"++1 a", b"++1", 0);
    refused(b"1+ a", b"1+", 0);
    refused(b"0x10 a", b"0x10", 0);
    refused(b"1_000 a", b"1_000", 0);
    refused(b"\t1 a", b"\t1", 0);
    refused(b"./baz 1", b"./baz", 0);
    let too_large = format!("{}0", usize::MAX);
    refused(format!("{too_large} a").as_bytes(), too_large.as_bytes(), 0);
    refused(b"340282366920938463463374607431768211456 a", b"340282366920938463463374607431768211456", 0);
}

#[test]
fn the_first_row_that_cannot_be_read_is_reported() {
    assert_eq!(
        parse_files(b"1 a\nx b\ny"),
        Err(EditError::InvalidIndex { text: b"x".to_vec(), row: 1 })
    );
    assert_eq!(parse_files(b"1 a\ny\nx b"), Err(EditError::MissingIndex { row: 1 }));
}

#[test]
fn text_that_is_no_number_is_quoted_in_the_message() {
    assert_eq!(
        EditError::InvalidIndex { text: b"x".to_vec(), row: 0 }.message(),
        "Invalid index \"x\" at row 0"
    );
    assert_eq!(
        EditError::InvalidIndex { text: b"a\"b\\".to_vec(), row: 10 }.message(),
        "Invalid index \"a\\\"b\\\\\" at row 10"
    );
    assert_eq!(
        EditError::InvalidIndex { text: vec![b'1', 0xff, b'2'], row: 3 }.message(),
        "Invalid index \"1\u{fffd}2\" at row 3"
    );
    assert_eq!(
        EditError::UnknownIndex { index: 18, row: 205 }.message(),
        "Unknown index 18 at row 205"
    );
}

#[test]
fn the_shown_path_of_a_directory_ends_with_a_slash() {
    assert!(shows(&file(1, b"a"), b"a"));
    assert!(!shows(&file(1, b"a"), b"a/"));
    assert!(!shows(&file(1, b"a"), b"b"));
    assert!(!shows(&file(1, b"a"), b""));
    assert!(shows(&file(1, b""), b""));
    assert!(shows(&dir(1, b"a"), b"a/"));
    assert!(!shows(&dir(1, b"a"), b"a"));
    assert!(!shows(&dir(1, b"a"), b"a//"));
    assert!(!shows(&dir(1, b"a"), b"b/"));
    assert!(!shows(&dir(1, b"a"), b"ax"));
    assert!(shows(&dir(1, b""), b"/"));
    assert!(!shows(&dir(1, b""), b""));
}

#[test]
fn each_entry_gets_one_operation() {
    let input = [file(1, b"a"), dir(2, b"b"), file(3, b"c"), dir(4, b"d")];
    let output = [row(4, b"d/"), row(2, b"./b/"), row(1, b"a")];
    assert_eq!(
        update_files(&input, &output),
        Ok(vec![
            Operation::Keep(file(1, b"a")),
            Operation::Rename(dir(2, b"b"), b"./b/".to_vec()),
            Operation::Delete(file(3, b"c")),
            Operation::Keep(dir(4, b"d")),
        ])
    );
}

#[test]
fn a_removed_row_deletes_its_entry_and_changes_nothing_else() {
    let input = [file(1, b"a"), dir(2, b"b"), file(3, b"c")];
    let before = update_files(&input, &[row(1, b"x"), row(2, b"b/"), row(3, b"c")]).unwrap();
    let after = update_files(&input, &[row(1, b"x"), row(3, b"c")]).unwrap();
    assert_eq!(after[1], Operation::Delete(dir(2, b"b")));
    assert_eq!(after[0], before[0]);
    assert_eq!(after[2], before[2]);
}

#[test]
fn a_changed_path_renames_its_entry_and_changes_nothing_else() {
    let input = [file(1, b"a"), dir(2, b"b"), file(3, b"c")];
    let text = get_input(&input);
    assert_eq!(text, b"    1 a\n    2 b/\n    3 c");
    let rows = parse_files(b"    1 a\n    2 b\n    3 c").unwrap();
    assert_eq!(
        update_files(&input, &rows),
        Ok(vec![
            Operation::Keep(file(1, b"a")),
            Operation::Rename(dir(2, b"b"), b"b".to_vec()),
            Operation::Keep(file(3, b"c")),
        ])
    );
}

#[test]
fn of_rows_with_one_number_the_last_counts() {
    let input = [file(1, b"a")];
    assert_eq!(
        update_files(&input, &[row(1, b"x"), row(1, b"a")]),
        Ok(vec![Operation::Keep(file(1, b"a"))])
    );
    assert_eq!(
        update_files(&input, &[row(1, b"a"), row(1, b"x")]),
        Ok(vec![Operation::Rename(file(1, b"a"), b"x".to_vec())])
    );
}

#[test]
fn a_row_with_an_unknown_number_refuses_all_rows() {
    let input = [file(1, b"a"), file(2, b"b")];
    assert_eq!(
        update_files(&input, &[row(2, b"x"), row(3, b"c"), row(0, b"d")]),
        Err(EditError::UnknownIndex { index: 3, row: 1 })
    );
    assert_eq!(
        update_files(&[], &[row(1, b"a")]),
        Err(EditError::UnknownIndex { index: 1, row: 0 })
    );
    assert_eq!(update_files(&[], &[]), Ok(vec![]));
    assert_eq!(
        update_files(&input, &[]),
        Ok(vec![Operation::Delete(file(1, b"a")), Operation::Delete(file(2, b"b"))])
    );
}

#[test]
fn numbers_of_entries_need_not_be_in_a_row() {
    let input = [file(10, b"a"), file(5, b"b"), file(10, b"c")];
    assert_eq!(
        update_files(&input, &[row(10, b"c")]),
        Ok(vec![
            Operation::Rename(file(10, b"a"), b"c".to_vec()),
            Operation::Delete(file(5, b"b")),
            Operation::Keep(file(10, b"c")),
        ])
    );
}

#[test]
fn an_unchanged_listing_keeps_every_entry() {
    let input = [
        file(1, b"./a b"),
        dir(2, b"./dir"),
        file(3, &[b'.', b'/', 0xff, 0x80]),
        dir(4, b"./x/"),
        file(123456, b"z"),
    ];
    let rows = parse_files(&get_input(&input)).unwrap();
    assert_eq!(
        rows,
        vec![
            row(1, b"./a b"),
            row(2, b"./dir/"),
            row(3, &[b'.', b'/', 0xff, 0x80]),
            row(4, b"./x//"),
            row(123456, b"z"),
        ]
    );
    let ops = update_files(&input, &rows).unwrap();
    assert_eq!(ops.len(), input.len());
    for (op, entry) in ops.iter().zip(&input) {
        assert_eq!(*op, Operation::Keep(entry.clone()));
        assert_eq!(op.action(), None);
        assert_eq!(op.confirmation(), None);
        assert_eq!(op.failure(), None);
    }
}
