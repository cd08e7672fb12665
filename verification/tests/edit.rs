//! Whole edits, from the entries found to what is done and said. The editor
//! is played by a function from the text it is given to the text it leaves,
//! the file system by a function that says which change fails.

use rsdir::apply::{Action, Applier};
use rsdir::edit::plan_edit;
use rsdir::editor::{check_editor, launch_failure, EditorError};
use rsdir::encode::get_input;
use rsdir::error::EditError;
use rsdir::listing::{list_failure, list_files};
use rsdir::rows::PathInfo;

/// What an edit has done and said.
struct Run {
    /// The text that the editor was given.
    shown: Vec<u8>,
    /// The changes that were begun, in order, the failed one included.
    begun: Vec<Action>,
    /// The lines that confirm the changes made.
    stdout: Vec<String>,
    /// The error that ended the edit.
    stderr: Option<String>,
}

/// The entries of a directory with these names. A name that ends with a slash
/// is that of a directory.
fn entries_in(dir: &str, names: &[&str]) -> Vec<PathInfo> {
    names
        .iter()
        .map(|name| match name.strip_suffix('/') {
            Some(name) => PathInfo { name: format!("{dir}/{name}").into_bytes(), is_dir: true },
            None => PathInfo { name: format!("{dir}/{name}").into_bytes(), is_dir: false },
        })
        .collect()
}

/// The text with the first `from` in it replaced by `to`.
fn substitute(text: &[u8], from: &str, to: &str) -> Vec<u8> {
    let from = from.as_bytes();
    let at = text.windows(from.len()).position(|part| part == from).unwrap();
    let mut edited = text[..at].to_vec();
    edited.extend_from_slice(to.as_bytes());
    edited.extend_from_slice(&text[at + from.len()..]);
    edited
}

/// The text without its first line that holds `pattern`.
fn delete_line(text: &[u8], pattern: &str) -> Vec<u8> {
    let pattern = pattern.as_bytes();
    let mut lines: Vec<&[u8]> = text.split(|b| *b == b'\n').collect();
    let at = lines
        .iter()
        .position(|line| line.windows(pattern.len()).any(|part| part == pattern))
        .unwrap();
    lines.remove(at);
    lines.join(&b'\n')
}

/// Runs an edit on the entries of some directories.
fn run(
    groups: &[Vec<PathInfo>],
    editor: impl Fn(&[u8]) -> Vec<u8>,
    fails: impl Fn(&Action) -> bool,
) -> Run {
    let rows = list_files(groups);
    let shown = get_input(&rows);
    let edited = editor(&shown);
    let mut run = Run { shown, begun: Vec::new(), stdout: Vec::new(), stderr: None };
    let ops = match plan_edit(&rows, &edited) {
        Ok(ops) => ops,
        Err(error) => {
            run.stderr = Some(error.message());
            return run;
        }
    };
    let mut applier = Applier::new(ops);
    while let Some(action) = applier.action() {
        let failed = fails(&action);
        run.begun.push(action);
        if failed {
            run.stderr = applier.failed();
            return run;
        }
        run.stdout.push(applier.succeeded().unwrap());
    }
    run
}

#[test]
fn does_nothing() {
    // `foo/bar` lies in `foo` and is not listed.
    let groups = [entries_in(".", &["foo/", "baz"])];
    let run = run(&groups, |text| text.to_vec(), |_| false);
    assert_eq!(run.shown, b"    1 ./baz\n    2 ./foo/");
    assert_eq!(run.begun, vec![]);
    assert_eq!(run.stdout, Vec::<String>::new());
    assert_eq!(run.stderr, None);
}

#[test]
fn moves_dir() {
    let groups = [entries_in(".", &["foo/"])];
    let run = run(&groups, |text| substitute(text, "foo", "bar"), |_| false);
    assert_eq!(run.begun, vec![Action::Move(b"./foo".to_vec(), b"./bar/".to_vec())]);
    assert_eq!(run.stdout, vec!["Moved directory \"./foo\" to \"./bar/\""]);
    assert_eq!(run.stderr, None);
}

#[test]
fn move_file_error() {
    let groups = [entries_in(".", &["baz"])];
    let run = run(&groups, |text| substitute(text, "./baz", "/non-existent"), |_| true);
    assert_eq!(run.begun, vec![Action::Move(b"./baz".to_vec(), b"/non-existent".to_vec())]);
    assert_eq!(run.stdout, Vec::<String>::new());
    assert_eq!(
        run.stderr,
        Some("Error moving file \"./baz\" to \"/non-existent\"".to_string())
    );
}

#[test]
fn move_dir_error() {
    let groups = [entries_in(".", &["baz/"])];
    let run = run(&groups, |text| substitute(text, "./baz", "/non-existent"), |_| true);
    assert_eq!(run.begun, vec![Action::Move(b"./baz".to_vec(), b"/non-existent/".to_vec())]);
    assert_eq!(run.stdout, Vec::<String>::new());
    assert_eq!(
        run.stderr,
        Some("Error moving directory \"./baz\" to \"/non-existent/\"".to_string())
    );
}

#[test]
fn moves_file() {
    let groups = [entries_in(".", &["baz"])];
    let run = run(&groups, |text| substitute(text, "baz", "boop"), |_| false);
    assert_eq!(run.begun, vec![Action::Move(b"./baz".to_vec(), b"./boop".to_vec())]);
    assert_eq!(run.stdout, vec!["Moved file \"./baz\" to \"./boop\""]);
    assert_eq!(run.stderr, None);
}

#[test]
fn non_relative_path() {
    let groups = [entries_in(".", &["baz"])];
    let run = run(&groups, |text| substitute(text, "./baz", "boop"), |_| false);
    assert_eq!(run.begun, vec![Action::Move(b"./baz".to_vec(), b"boop".to_vec())]);
    assert_eq!(run.stdout, vec!["Moved file \"./baz\" to \"boop\""]);
    assert_eq!(run.stderr, None);
}

#[test]
fn tmp_file_content() {
    let groups = [entries_in(".", &["baz", "xox", "lol", "dir/"])];
    let run = run(&groups, |text| text.to_vec(), |_| false);
    assert_eq!(
        String::from_utf8(run.shown).unwrap(),
        "    1 ./baz
    2 ./dir/
    3 ./lol
    4 ./xox"
    );
    assert_eq!(run.begun, vec![]);
    assert_eq!(run.stderr, None);
}

#[test]
fn deletes_dir() {
    let groups = [entries_in(".", &["foo/"])];
    let run = run(&groups, |text| delete_line(text, "1"), |_| false);
    assert_eq!(run.begun, vec![Action::RemoveTree(b"./foo".to_vec())]);
    assert_eq!(run.stdout, vec!["Removed directory \"./foo\""]);
    assert_eq!(run.stderr, None);
}

#[test]
fn deletes_file() {
    let groups = [entries_in(".", &["baz"])];
    let run = run(&groups, |text| delete_line(text, "1"), |_| false);
    assert_eq!(run.begun, vec![Action::RemoveFile(b"./baz".to_vec())]);
    assert_eq!(run.stdout, vec!["Removed file \"./baz\""]);
    assert_eq!(run.stderr, None);
}

#[test]
fn delete_dir_error() {
    let groups = [entries_in(".", &["bin/", "dev/", "etc/"])];
    let run = run(&groups, |text| delete_line(text, "/dev"), |_| true);
    assert_eq!(run.begun, vec![Action::RemoveTree(b"./dev".to_vec())]);
    assert_eq!(run.stdout, Vec::<String>::new());
    assert_eq!(run.stderr, Some("Error deleting directory \"./dev\"".to_string()));
}

#[test]
fn delete_file_error() {
    let groups = [entries_in(".", &["full", "null", "zero"])];
    let run = run(&groups, |text| delete_line(text, "/null"), |_| true);
    assert_eq!(run.begun, vec![Action::RemoveFile(b"./null".to_vec())]);
    assert_eq!(run.stdout, Vec::<String>::new());
    assert_eq!(run.stderr, Some("Error deleting file \"./null\"".to_string()));
}

#[test]
fn multiple_args() {
    let groups =
        [entries_in("/tmp/one", &["baz", "bop"]), entries_in("/tmp/two", &["foo", "pop"])];
    let run = run(&groups, |text| delete_line(&delete_line(text, "/baz"), "/foo"), |_| false);
    assert_eq!(
        run.shown,
        b"    1 /tmp/one/baz\n    2 /tmp/one/bop\n    3 /tmp/two/foo\n    4 /tmp/two/pop"
    );
    assert_eq!(
        run.begun,
        vec![
            Action::RemoveFile(b"/tmp/one/baz".to_vec()),
            Action::RemoveFile(b"/tmp/two/foo".to_vec()),
        ]
    );
    assert_eq!(run.stderr, None);
}

#[test]
fn unknown_index() {
    let groups = [entries_in(".", &["baz"])];
    let run = run(&groups, |text| substitute(text, "1", "2"), |_| false);
    assert_eq!(run.begun, vec![]);
    assert_eq!(run.stdout, Vec::<String>::new());
    assert_eq!(run.stderr, Some("Unknown index 2 at row 0".to_string()));
}

#[test]
fn invalid_index() {
    let groups = [entries_in(".", &["baz"])];
    let run = run(&groups, |text| substitute(text, "1", "x"), |_| false);
    assert_eq!(run.begun, vec![]);
    assert_eq!(run.stdout, Vec::<String>::new());
    assert_eq!(run.stderr, Some("Invalid index \"x\" at row 0".to_string()));
}

#[test]
fn editor_failure() {
    let editor = "/work/tests/ed.sh";
    let error = check_editor(false, Some(1)).unwrap_err();
    assert_eq!(error, EditorError::ExitCode(1));
    assert!(error
        .message(editor)
        .starts_with(&format!("Editor {editor:?} returned error code ")));
    assert_eq!(error.message(editor), "Editor \"/work/tests/ed.sh\" returned error code 1");
}

#[test]
fn editor_killed() {
    let editor = "/work/tests/./kill.sh";
    let error = check_editor(false, None).unwrap_err();
    assert_eq!(error, EditorError::NoExitCode);
    assert_eq!(error.message(editor), format!("Editor {editor:?} returned an error"));
}

#[test]
fn missing_editor() {
    assert_eq!(launch_failure("/non-existent"), "Failed to open editor \"/non-existent\"");
}

#[test]
fn missing_path() {
    assert_eq!(list_failure(b"/non-existent"), "Couldn't list files in \"/non-existent\"");
}

#[test]
fn non_verbose() {
    // Whether the lines are printed is for the caller to decide: the change
    // is the same.
    let groups = [entries_in(".", &["baz"])];
    let run = run(&groups, |text| substitute(text, "baz", "boop"), |_| false);
    assert_eq!(run.begun, vec![Action::Move(b"./baz".to_vec(), b"./boop".to_vec())]);
    assert_eq!(run.stderr, None);
}

#[test]
fn byte_path_linux() {
    let file_path_bytes = vec![
        97, 0o017, 0o254, 0o001, 0o103, 0o326, 0o144, 0o203, 0o261, 0o154, 0o065, 0o053, 0o167,
    ];
    // Ensure that the test path is invalid UTF-8
    String::from_utf8(file_path_bytes.clone()).unwrap_err();
    let mut name = b"./".to_vec();
    name.extend_from_slice(&file_path_bytes);
    let groups = [vec![PathInfo { name: name.clone(), is_dir: true }]];
    let run = run(&groups, |_| b"1 ./baz".to_vec(), |_| false);
    let mut shown = b"    1 ".to_vec();
    shown.extend_from_slice(&name);
    shown.push(b'/');
    assert_eq!(run.shown, shown);
    assert_eq!(run.begun, vec![Action::Move(name, b"./baz".to_vec())]);
    assert_eq!(
        run.stdout,
        vec!["Moved directory \"./a\\u{f}\\xAC\\u{1}C\\xD6d\\x83\\xB1l5+w\" to \"./baz\""]
    );
    assert_eq!(run.stderr, None);
}

#[test]
fn byte_path_survives_an_unchanged_listing() {
    let name = vec![b'.', b'/', 0xff, 0xfe, b' ', 0x80, 0x00, b'x'];
    let groups = [vec![
        PathInfo { name: name.clone(), is_dir: false },
        PathInfo { name: name.clone(), is_dir: true },
    ]];
    let run = run(&groups, |text| text.to_vec(), |_| false);
    assert_eq!(run.begun, vec![]);
    assert_eq!(run.stderr, None);
    let run = run_with_new_name(&groups, &name);
    assert_eq!(run.begun, vec![Action::Move(name.clone(), [&name[..], b"y"].concat())]);
}

/// Runs an edit that puts a `y` behind the first row.
fn run_with_new_name(groups: &[Vec<PathInfo>], name: &[u8]) -> Run {
    run(
        groups,
        |text| {
            let first = 6 + name.len();
            [&text[..first], b"y", &text[first..]].concat()
        },
        |_| false,
    )
}

#[test]
fn a_failure_ends_the_edit_and_undoes_nothing() {
    let groups = [entries_in(".", &["a", "b", "c", "d", "e"])];
    // Rows 1, 3 and 5 go; row 2 is renamed; row 4 stays.
    let editor = |_: &[u8]| b"    2 ./z\n    4 ./d".to_vec();
    let third = |action: &Action| *action == Action::RemoveFile(b"./c".to_vec());
    let run = run(&groups, editor, third);
    assert_eq!(
        run.begun,
        vec![
            Action::RemoveFile(b"./a".to_vec()),
            Action::Move(b"./b".to_vec(), b"./z".to_vec()),
            Action::RemoveFile(b"./c".to_vec()),
        ]
    );
    assert_eq!(run.stdout, vec!["Removed file \"./a\"", "Moved file \"./b\" to \"./z\""]);
    assert_eq!(run.stderr, Some("Error deleting file \"./c\"".to_string()));
}

#[test]
fn changes_are_made_in_the_order_of_the_listing() {
    let groups = [entries_in(".", &["a", "b", "c"])];
    // The rows come back in another order.
    let editor = |_: &[u8]| b"3 ./z\n1 ./x\n2 ./y".to_vec();
    let run = run(&groups, editor, |_| false);
    assert_eq!(
        run.begun,
        vec![
            Action::Move(b"./a".to_vec(), b"./x".to_vec()),
            Action::Move(b"./b".to_vec(), b"./y".to_vec()),
            Action::Move(b"./c".to_vec(), b"./z".to_vec()),
        ]
    );
}

#[test]
fn unreadable_text_is_refused_before_the_rows_are_compared() {
    let groups = [entries_in(".", &["baz"])];
    // The first row has an unknown number, the second none at all.
    let run = run(&groups, |_| b"7 ./baz\nx ./baz".to_vec(), |_| false);
    assert_eq!(run.stderr, Some("Invalid index \"x\" at row 1".to_string()));
    let rows = list_files(&groups);
    assert_eq!(
        plan_edit(&rows, b"7 ./baz\n./baz"),
        Err(EditError::MissingIndex { row: 1 })
    );
    assert_eq!(
        plan_edit(&rows, b"7 ./baz\n1 ./baz"),
        Err(EditError::UnknownIndex { index: 7, row: 0 })
    );
}

#[test]
fn editor_that_succeeds_is_no_error() {
    assert_eq!(check_editor(true, Some(0)), Ok(()));
    assert_eq!(check_editor(true, None), Ok(()));
    assert_eq!(
        EditorError::ExitCode(-2147483648).message("vi"),
        "Editor \"vi\" returned error code -2147483648"
    );
    assert_eq!(
        EditorError::ExitCode(255).message("my \"ed\""),
        "Editor \"my \\\"ed\\\"\" returned error code 255"
    );
}
