use hunkpatch::change::{Change, Disposition, Hunk, PatchError, Tag};
use hunkpatch::edit::{apply_check, check_patch, edit_hunk, patch_text};

fn parsed(tag: Tag, start: usize, text: &str) -> Change {
    Change { old_index: Some(start), new_index: None, text: text.to_string(), tag }
}

fn mismatch(line: usize, expected: &str, actual: &str) -> PatchError {
    PatchError::PatchMismatch {
        line,
        expected: expected.to_string(),
        actual: actual.to_string(),
    }
}

#[test]
fn an_edited_hunk_that_agrees_is_read_back_undecided() {
    let hunk = check_patch("a\nb\nc\n", 1, " b\n-c\n+C\n").unwrap();
    assert_eq!(
        hunk,
        Hunk {
            changes: vec![
                parsed(Tag::Equal, 1, "b\n"),
                parsed(Tag::Delete, 1, "c\n"),
                parsed(Tag::Insert, 1, "C\n"),
            ],
            disposition: Disposition::Undecided,
        }
    );
    assert_eq!(hunk.anchor(), Some(1));
}

#[test]
fn header_lines_are_passed_over() {
    let with_header = check_patch("a\nb\n", 0, "@@ Some(0),Some(0)\n a\n+x\n b\n");
    let without = check_patch("a\nb\n", 0, " a\n+x\n b\n");
    assert!(with_header.is_ok());
    assert_eq!(with_header, without);
    assert_eq!(check_patch("a\n", 0, "@@\n@@ again\n").unwrap().changes, vec![]);
}

#[test]
fn a_last_line_without_line_feed_gets_one() {
    let hunk = check_patch("a\n", 0, " a\n+b").unwrap();
    assert_eq!(hunk.changes[1], parsed(Tag::Insert, 0, "b\n"));
}

#[test]
fn a_line_without_marker_is_a_format_error() {
    assert_eq!(check_patch("a\n", 0, "a\n"), Err(PatchError::InvalidDiffFormat));
    assert_eq!(check_patch("a\n", 0, " a\n*b\n"), Err(PatchError::InvalidDiffFormat));
    assert_eq!(check_patch("a\n", 0, "@ a\n"), Err(PatchError::InvalidDiffFormat));
}

#[test]
fn an_empty_line_is_a_format_error() {
    assert_eq!(check_patch("a\nb\n", 0, " a\n\n b\n"), Err(PatchError::InvalidDiffFormat));
}

#[test]
fn a_format_error_comes_before_a_mismatch() {
    assert_eq!(check_patch("a\n", 0, " x\n?\n"), Err(PatchError::InvalidDiffFormat));
}

#[test]
fn the_first_context_line_that_differs_is_reported() {
    assert_eq!(check_patch("a\nb\nc\n", 0, " a\n x\n y\n"), Err(mismatch(2, "b", "x")));
    assert_eq!(check_patch("a\nb\nc\n", 1, " a\n"), Err(mismatch(2, "b", "a")));
}

#[test]
fn a_context_line_past_the_end_is_a_mismatch() {
    assert_eq!(check_patch("a\n", 0, " a\n b\n"), Err(mismatch(2, "", "b")));
    assert_eq!(check_patch("", 0, " \n"), Err(mismatch(1, "", "")));
    assert_eq!(check_patch("a\n", 7, " a\n"), Err(mismatch(8, "", "a")));
}

#[test]
fn the_line_number_stops_at_the_largest() {
    assert_eq!(check_patch("a\n", usize::MAX, " a\n"), Err(mismatch(usize::MAX, "", "a")));
    assert_eq!(
        check_patch("a\n", usize::MAX - 1, "-a\n-b\n-c\n a\n"),
        Err(mismatch(usize::MAX, "", "a"))
    );
}

#[test]
fn inserted_lines_do_not_move_the_walk() {
    assert!(check_patch("a\nb\n", 0, "+x\n+y\n a\n+z\n b\n").is_ok());
}

#[test]
fn deleted_lines_move_the_walk_and_are_not_compared() {
    assert!(check_patch("a\nb\nc\n", 0, "-zzz\n b\n").is_ok());
    assert_eq!(check_patch("a\nb\nc\n", 0, "-a\n a\n"), Err(mismatch(2, "b", "a")));
}

#[test]
fn apply_check_strips_one_line_terminator() {
    let crlf = vec![parsed(Tag::Equal, 0, "a\r\n")];
    assert_eq!(apply_check("a\n", 0, &crlf), Ok(()));
    let bare = vec![parsed(Tag::Equal, 0, "a")];
    assert_eq!(apply_check("a\n", 0, &bare), Ok(()));
    let spaces = vec![parsed(Tag::Equal, 0, "a  \n")];
    assert_eq!(apply_check("a  \n", 0, &spaces), Ok(()));
    assert_eq!(apply_check("a\n", 0, &spaces), Err(mismatch(1, "a", "a  ")));
    let two = vec![parsed(Tag::Equal, 0, "a\n\n")];
    assert_eq!(apply_check("a\n", 0, &two), Err(mismatch(1, "a", "a\n")));
}

#[test]
fn apply_check_walks_from_the_given_line() {
    let patch = vec![
        parsed(Tag::Equal, 0, "b\n"),
        parsed(Tag::Insert, 0, "x\n"),
        parsed(Tag::Delete, 0, "c\n"),
        parsed(Tag::Equal, 0, "d\n"),
    ];
    assert_eq!(apply_check("a\nb\nc\nd\n", 1, &patch), Ok(()));
    assert_eq!(apply_check("a\nb\nc\nd\n", 0, &patch), Err(mismatch(1, "a", "b")));
    assert_eq!(apply_check("a\nb\nc\nd\n", 1, &[]), Ok(()));
}

#[test]
fn a_hunk_is_written_with_one_marker_for_each_change() {
    let hunk = Hunk {
        changes: vec![
            parsed(Tag::Equal, 3, "b\n"),
            parsed(Tag::Delete, 3, "c\n"),
            parsed(Tag::Insert, 3, "C\n"),
        ],
        disposition: Disposition::Accept,
    };
    assert_eq!(patch_text(&hunk), " b\n-c\n+C\n");
    assert_eq!(patch_text(&Hunk { changes: vec![], disposition: Disposition::Reject }), "");
}

#[test]
fn a_written_hunk_reads_back() {
    let hunk = check_patch("a\nb\nc\n", 1, " b\n-c\n+C\n+D\n").unwrap();
    let again = check_patch("a\nb\nc\n", 1, &patch_text(&hunk)).unwrap();
    assert_eq!(again, hunk);
}

#[test]
fn an_edit_is_checked_at_the_anchor_of_the_hunk() {
    let hunk = Hunk {
        changes: vec![
            Change { old_index: None, new_index: Some(2), text: "X\n".into(), tag: Tag::Insert },
            Change { old_index: Some(2), new_index: Some(3), text: "c\n".into(), tag: Tag::Equal },
        ],
        disposition: Disposition::Accept,
    };
    let edited = edit_hunk("a\nb\nc\n", &hunk, "+Y\n c\n").unwrap();
    assert_eq!(
        edited,
        Hunk {
            changes: vec![parsed(Tag::Insert, 2, "Y\n"), parsed(Tag::Equal, 2, "c\n")],
            disposition: Disposition::Undecided,
        }
    );
    assert_eq!(edit_hunk("a\nb\nc\n", &hunk, " b\n"), Err(mismatch(3, "c", "b")));
    assert_eq!(edit_hunk("a\nb\nc\n", &hunk, "c\n"), Err(PatchError::InvalidDiffFormat));
}

#[test]
fn an_edit_of_a_hunk_without_anchor_is_checked_at_the_first_line() {
    let hunk = Hunk {
        changes: vec![Change {
            old_index: None,
            new_index: Some(0),
            text: "X\n".into(),
            tag: Tag::Insert,
        }],
        disposition: Disposition::Undecided,
    };
    assert!(edit_hunk("a\nb\n", &hunk, "+X\n a\n").is_ok());
    assert_eq!(edit_hunk("a\nb\n", &hunk, " b\n"), Err(mismatch(1, "a", "b")));
}
