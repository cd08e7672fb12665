//! The listing: how entries are ordered, numbered and written out.

use rsdir::encode::get_input;
use rsdir::listing::{get_path_args, list_files, path_le};
use rsdir::rows::{InputRow, PathInfo};

fn file(name: &[u8]) -> PathInfo {
    PathInfo { name: name.to_vec(), is_dir: false }
}

fn dir(name: &[u8]) -> PathInfo {
    PathInfo { name: name.to_vec(), is_dir: true }
}

#[test]
fn no_directory_named_means_the_current_one() {
    assert_eq!(get_path_args(vec![]), vec![b".".to_vec()]);
}

#[test]
fn named_directories_are_taken_as_they_are() {
    let paths = vec!["a".to_string(), "".to_string(), "b/\u{e9}".to_string()];
    assert_eq!(
        get_path_args(paths),
        vec![b"a".to_vec(), b"".to_vec(), vec![b'b', b'/', 0xc3, 0xa9]]
    );
}

#[test]
fn paths_are_ordered_byte_by_byte() {
    assert!(path_le(b"", b""));
    assert!(path_le(b"", b"a"));
    assert!(!path_le(b"a", b""));
    assert!(path_le(b"a", b"a"));
    assert!(path_le(b"a", b"ab"));
    assert!(!path_le(b"ab", b"a"));
    assert!(path_le(b"ab", b"b"));
    assert!(!path_le(b"b", b"ab"));
    assert!(path_le(b"Z", b"a"));
    assert!(path_le(b"a-b", b"a/b"));
    assert!(path_le(&[0x7f], &[0x80]));
    assert!(!path_le(&[0xff], &[0x00, 0xff]));
}

#[test]
fn entries_of_all_directories_are_numbered_in_one_order() {
    let groups = [
        vec![file(b"x/pop"), file(b"x/foo")],
        vec![],
        vec![dir(b"a/dir"), file(b"y/bop"), file(b"a/baz")],
    ];
    assert_eq!(
        list_files(&groups),
        vec![
            InputRow { index: 1, name: b"a/baz".to_vec(), is_dir: false },
            InputRow { index: 2, name: b"a/dir".to_vec(), is_dir: true },
            InputRow { index: 3, name: b"x/foo".to_vec(), is_dir: false },
            InputRow { index: 4, name: b"x/pop".to_vec(), is_dir: false },
            InputRow { index: 5, name: b"y/bop".to_vec(), is_dir: false },
        ]
    );
}

#[test]
fn entries_with_one_path_stay_in_their_order() {
    let groups = [vec![dir(b"same"), file(b"b")], vec![file(b"same"), file(b"a")]];
    assert_eq!(
        list_files(&groups),
        vec![
            InputRow { index: 1, name: b"a".to_vec(), is_dir: false },
            InputRow { index: 2, name: b"b".to_vec(), is_dir: false },
            InputRow { index: 3, name: b"same".to_vec(), is_dir: true },
            InputRow { index: 4, name: b"same".to_vec(), is_dir: false },
        ]
    );
}

#[test]
fn many_entries_come_out_sorted() {
    let mut group = Vec::new();
    let mut seed: u32 = 12345;
    for _ in 0..500 {
        seed = seed.wrapping_mul(1103515245).wrapping_add(12345);
        group.push(file(&seed.to_be_bytes()[..1 + (seed % 4) as usize]));
    }
    let rows = list_files(&[group.clone()]);
    let mut names: Vec<Vec<u8>> = group.into_iter().map(|entry| entry.name).collect();
    names.sort();
    assert_eq!(rows.len(), 500);
    for (i, row) in rows.iter().enumerate() {
        assert_eq!(row.index, i + 1);
        assert_eq!(row.name, names[i]);
    }
}

#[test]
fn nothing_to_list_gives_an_empty_text() {
    assert_eq!(list_files(&[]), vec![]);
    assert_eq!(list_files(&[vec![], vec![]]), vec![]);
    assert_eq!(get_input(&[]), b"");
}

#[test]
fn numbers_are_filled_up_to_five_places() {
    let row = |index| InputRow { index, name: b"x".to_vec(), is_dir: false };
    assert_eq!(get_input(&[row(0)]), b"    0 x");
    assert_eq!(get_input(&[row(7)]), b"    7 x");
    assert_eq!(get_input(&[row(42)]), b"   42 x");
    assert_eq!(get_input(&[row(9999)]), b" 9999 x");
    assert_eq!(get_input(&[row(10000)]), b"10000 x");
    assert_eq!(get_input(&[row(99999)]), b"99999 x");
    assert_eq!(get_input(&[row(100000)]), b"100000 x");
    assert_eq!(
        get_input(&[row(usize::MAX)]),
        format!("{} x", usize::MAX).into_bytes()
    );
}

#[test]
fn rows_are_joined_by_newlines_and_paths_are_not_escaped() {
    let rows = [
        InputRow { index: 1, name: vec![0xff, b' ', b'\\', b'"'], is_dir: false },
        InputRow { index: 2, name: b"".to_vec(), is_dir: true },
        InputRow { index: 3, name: b"d/".to_vec(), is_dir: true },
    ];
    let mut text = b"    1 ".to_vec();
    text.extend_from_slice(&[0xff, b' ', b'\\', b'"']);
    text.extend_from_slice(b"\n    2 /\n    3 d//");
    assert_eq!(get_input(&rows), text);
}
