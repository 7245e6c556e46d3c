use hunkpatch::change::{Change, Disposition, Hunk, PatchError, Tag};
use hunkpatch::diff::validate_changes;
use hunkpatch::group::{build_hunks, group_changes, trim, DEFAULT_CONTEXT};

fn eq(old: usize, new: usize, text: &str) -> Change {
    let text = format!("{text}\n");
    Change { old_index: Some(old), new_index: Some(new), text, tag: Tag::Equal }
}

fn del(old: usize, text: &str) -> Change {
    Change { old_index: Some(old), new_index: None, text: format!("{text}\n"), tag: Tag::Delete }
}

fn ins(new: usize, text: &str) -> Change {
    Change { old_index: None, new_index: Some(new), text: format!("{text}\n"), tag: Tag::Insert }
}

fn undecided(changes: Vec<Change>) -> Hunk {
    Hunk { changes, disposition: Disposition::Undecided }
}

/// Eq Eq Del Eq Eq Eq Ins Eq: edits at positions 2 and 6, three unchanged
/// lines between them.
fn two_regions() -> Vec<Change> {
    vec![
        eq(0, 0, "a"),
        eq(1, 1, "b"),
        del(2, "c"),
        eq(3, 2, "d"),
        eq(4, 3, "e"),
        eq(5, 4, "f"),
        ins(5, "X"),
        eq(6, 6, "g"),
    ]
}

#[test]
fn default_context_is_six() {
    assert_eq!(DEFAULT_CONTEXT, 6);
}

#[test]
fn edits_far_apart_give_two_hunks() {
    let hunks = group_changes(two_regions(), 1).unwrap();
    assert_eq!(
        hunks,
        vec![
            undecided(vec![eq(1, 1, "b"), del(2, "c"), eq(3, 2, "d")]),
            undecided(vec![eq(5, 4, "f"), ins(5, "X"), eq(6, 6, "g")]),
        ]
    );
}

#[test]
fn a_gap_as_long_as_the_context_parts_two_hunks() {
    let hunks = group_changes(two_regions(), 3).unwrap();
    assert_eq!(
        hunks,
        vec![
            undecided(vec![
                eq(0, 0, "a"),
                eq(1, 1, "b"),
                del(2, "c"),
                eq(3, 2, "d"),
                eq(4, 3, "e"),
                eq(5, 4, "f"),
            ]),
            undecided(vec![ins(5, "X"), eq(6, 6, "g")]),
        ]
    );
}

#[test]
fn a_gap_shorter_than_the_context_merges_the_edits() {
    let hunks = group_changes(two_regions(), 4).unwrap();
    assert_eq!(hunks, vec![undecided(two_regions())]);
}

#[test]
fn without_context_a_hunk_is_its_edits_alone() {
    let stream = vec![eq(0, 0, "a"), del(1, "b"), ins(1, "B"), eq(2, 2, "c"), del(3, "d")];
    let hunks = group_changes(stream, 0).unwrap();
    assert_eq!(
        hunks,
        vec![undecided(vec![del(1, "b"), ins(1, "B")]), undecided(vec![del(3, "d")])]
    );
}

#[test]
fn a_stream_without_edits_has_no_hunks() {
    assert_eq!(group_changes(vec![eq(0, 0, "a"), eq(1, 1, "b")], 2), Ok(vec![]));
    assert_eq!(group_changes(vec![], 2), Ok(vec![]));
}

#[test]
fn an_equal_change_without_old_index_is_refused() {
    let mut stream = two_regions();
    stream[4].old_index = None;
    assert_eq!(group_changes(stream, 2), Err(PatchError::InvalidChange));
}

#[test]
fn a_delete_without_old_index_is_not_refused() {
    let mut stream = vec![eq(0, 0, "a"), del(1, "b")];
    stream[1].old_index = None;
    let hunks = group_changes(stream.clone(), 1).unwrap();
    assert_eq!(hunks, vec![undecided(stream)]);
}

#[test]
fn trim_keeps_context_on_both_sides() {
    let window = vec![
        eq(0, 0, "a"),
        eq(1, 1, "b"),
        eq(2, 2, "c"),
        del(3, "d"),
        eq(4, 3, "e"),
        eq(5, 4, "f"),
        eq(6, 5, "g"),
    ];
    let kept = trim(window.clone(), 2).unwrap();
    assert_eq!(kept, undecided(window[1..6].to_vec()));
    let one = trim(window.clone(), 0).unwrap();
    assert_eq!(one, undecided(vec![del(3, "d")]));
}

#[test]
fn trim_is_clamped_to_the_window() {
    let window = vec![eq(0, 0, "a"), del(1, "b"), ins(1, "B"), eq(2, 2, "c")];
    assert_eq!(trim(window.clone(), 10), Some(undecided(window.clone())));
    assert_eq!(trim(window.clone(), usize::MAX), Some(undecided(window)));
}

#[test]
fn trim_discards_a_window_without_edits() {
    assert_eq!(trim(vec![eq(0, 0, "a"), eq(1, 1, "b")], 3), None);
    assert_eq!(trim(vec![], 3), None);
}

#[test]
fn equal_texts_have_no_hunks() {
    let text = "one\ntwo\nthree\n";
    assert_eq!(build_hunks(text, text, DEFAULT_CONTEXT), Ok(vec![]));
    assert_eq!(build_hunks("", "", DEFAULT_CONTEXT), Ok(vec![]));
    assert_eq!(build_hunks("no newline", "no newline", 0), Ok(vec![]));
}

#[test]
fn nearby_edits_share_a_hunk() {
    let original = "1\n2\n3\n4\n5\n6\n7\n8\n9\n10\n";
    let candidate = "1\n2\nX\n4\n5\nY\n7\n8\n9\n10\n";
    let hunks = build_hunks(original, candidate, 3).unwrap();
    assert_eq!(hunks.len(), 1);
    let texts: Vec<&str> = hunks[0].changes.iter().map(|c| c.text.as_str()).collect();
    assert_eq!(
        texts,
        vec!["1\n", "2\n", "3\n", "X\n", "4\n", "5\n", "6\n", "Y\n", "7\n", "8\n", "9\n"]
    );
    let apart = build_hunks(original, candidate, 2).unwrap();
    assert_eq!(apart.len(), 2);
    assert_eq!(apart[0].changes.len(), 6);
    assert_eq!(apart[0].changes[0], eq(0, 0, "1"));
    assert_eq!(apart[1].changes.len(), 4);
    assert_eq!(apart[1].changes[0], del(5, "6"));
    assert_eq!(apart[1].changes[3], eq(7, 7, "8"));
}

#[test]
fn the_diff_carries_positions_in_both_texts() {
    let hunks = build_hunks("a\nb\n", "a\nc\nb\n", 1).unwrap();
    assert_eq!(hunks, vec![undecided(vec![eq(0, 0, "a"), ins(1, "c"), eq(1, 2, "b")])]);
}

#[test]
fn no_hunk_holds_more_unchanged_lines_in_a_row_than_the_context() {
    let original = "a\nb\nc\nd\ne\nf\ng\nh\ni\nj\nk\nl\nm\nn\no\np\nq\nr\n";
    let candidate = "a\nB\nc\nd\ne\nf\nG\nh\ni\nj\nk\nl\nm\nn\no\nP\nq\nr\nS\n";
    for context in 0..8 {
        let hunks = build_hunks(original, candidate, context).unwrap();
        assert!(!hunks.is_empty());
        for hunk in &hunks {
            assert!(hunk.changes.iter().any(|c| c.tag != Tag::Equal));
            let mut run = 0;
            for change in &hunk.changes {
                if change.tag == Tag::Equal {
                    run += 1;
                    assert!(run <= context);
                } else {
                    run = 0;
                }
            }
        }
    }
}

#[test]
fn a_stream_is_valid_unless_an_equal_change_lacks_its_old_index() {
    assert_eq!(validate_changes(&two_regions()), Ok(()));
    assert_eq!(validate_changes(&[]), Ok(()));
    let mut stream = two_regions();
    stream[7].old_index = None;
    assert_eq!(validate_changes(&stream), Err(PatchError::InvalidChange));
    let mut lenient = two_regions();
    lenient[2].old_index = None;
    lenient[6].new_index = None;
    lenient[0].new_index = None;
    assert_eq!(validate_changes(&lenient), Ok(()));
}

#[test]
fn texts_of_ordinary_length_are_compared() {
    let original = "a\nb\nc\n";
    let candidate = "a\nB\nc\n";
    let built = hunkpatch::group::try_build_hunks(original, candidate, 1);
    assert_eq!(built, Some(build_hunks(original, candidate, 1)));
    assert_eq!(built.unwrap().unwrap().len(), 1);
    assert_eq!(hunkpatch::group::try_build_hunks("", "", 0), Some(Ok(vec![])));
}

#[test]
fn long_texts_are_compared_line_by_line() {
    let mut original = String::new();
    let mut candidate = String::new();
    for n in 0..400 {
        original.push_str(&format!("line {n}\n"));
        if n == 7 {
            candidate.push_str("seven\n");
        } else if n != 390 {
            candidate.push_str(&format!("line {n}\n"));
        }
    }
    let hunks = build_hunks(&original, &candidate, 2).unwrap();
    assert_eq!(hunks.len(), 2);
    assert_eq!(hunks[0].changes.len(), 6);
    assert_eq!(hunks[0].changes[2], del(7, "line 7"));
    assert_eq!(hunks[0].changes[3], ins(7, "seven"));
    assert_eq!(hunks[1].changes.len(), 5);
    assert_eq!(hunks[1].changes[2], del(390, "line 390"));
    assert_eq!(hunks[1].changes[4], eq(392, 391, "line 392"));
}
