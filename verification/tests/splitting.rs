use hunkpatch::apply::apply;
use hunkpatch::change::{Change, Disposition, Hunk, Tag};
use hunkpatch::group::build_hunks;
use hunkpatch::split::split_hunk;

fn same(old: usize, text: &str) -> Change {
    Change { old_index: Some(old), new_index: None, text: format!("{text}\n"), tag: Tag::Equal }
}

fn gone(old: usize, text: &str) -> Change {
    Change { old_index: Some(old), new_index: None, text: format!("{text}\n"), tag: Tag::Delete }
}

fn added(text: &str) -> Change {
    Change { old_index: None, new_index: None, text: format!("{text}\n"), tag: Tag::Insert }
}

fn hunk_of(changes: Vec<Change>, disposition: Disposition) -> Hunk {
    Hunk { changes, disposition }
}

fn two_region_hunk() -> Hunk {
    hunk_of(
        vec![
            same(0, "a"),
            gone(1, "b"),
            same(2, "c"),
            same(3, "d"),
            added("X"),
            same(4, "e"),
            same(5, "f"),
        ],
        Disposition::Accept,
    )
}

#[test]
fn a_hunk_splits_after_the_first_unchanged_line_behind_each_region() {
    let pieces = split_hunk(&two_region_hunk());
    assert_eq!(
        pieces,
        vec![
            hunk_of(vec![same(0, "a"), gone(1, "b"), same(2, "c")], Disposition::Undecided),
            hunk_of(vec![same(3, "d"), added("X"), same(4, "e")], Disposition::Undecided),
        ]
    );
}

#[test]
fn a_hunk_with_one_region_gives_one_piece() {
    let hunk = hunk_of(
        vec![same(0, "a"), gone(1, "b"), same(2, "c"), same(3, "d")],
        Disposition::Undecided,
    );
    let pieces = split_hunk(&hunk);
    assert_eq!(
        pieces,
        vec![hunk_of(vec![same(0, "a"), gone(1, "b"), same(2, "c")], Disposition::Undecided)]
    );
}

#[test]
fn a_hunk_without_edits_gives_no_piece() {
    let hunk = hunk_of(vec![same(0, "a"), same(1, "b")], Disposition::Undecided);
    assert_eq!(split_hunk(&hunk), vec![]);
    assert_eq!(split_hunk(&hunk_of(vec![], Disposition::Undecided)), vec![]);
}

#[test]
fn edits_at_the_end_are_a_piece() {
    let hunk = hunk_of(
        vec![gone(0, "a"), added("A"), same(1, "b"), added("c")],
        Disposition::Reject,
    );
    assert_eq!(
        split_hunk(&hunk),
        vec![
            hunk_of(vec![gone(0, "a"), added("A"), same(1, "b")], Disposition::Undecided),
            hunk_of(vec![added("c")], Disposition::Undecided),
        ]
    );
}

#[test]
fn accepting_the_pieces_gives_what_accepting_the_hunk_gives() {
    let original = "a\nb\nc\nd\ne\nf\n";
    let whole = apply(original, vec![two_region_hunk()]);
    assert_eq!(whole, "a\nc\nd\nX\ne\nf\n");
    let mut pieces = split_hunk(&two_region_hunk());
    assert_eq!(pieces.len(), 2);
    for piece in pieces.iter_mut() {
        piece.accept();
    }
    assert_eq!(apply(original, pieces), whole);
}

#[test]
fn accepting_the_pieces_of_a_built_hunk_gives_the_candidate() {
    let original = "1\n2\n3\n4\n5\n6\n7\n8\n9\n";
    let candidate = "1\nTWO\n3\n4\n6\n7\nnew\n8\n9\n";
    let hunks = build_hunks(original, candidate, 6).unwrap();
    assert_eq!(hunks.len(), 1);
    let mut pieces = split_hunk(&hunks[0]);
    assert_eq!(pieces.len(), 3);
    for piece in pieces.iter_mut() {
        piece.accept();
    }
    assert_eq!(apply(original, pieces), candidate);
}

#[test]
fn accepting_one_piece_applies_that_region_alone() {
    let original = "1\n2\n3\n4\n5\n6\n7\n8\n9\n";
    let candidate = "1\nTWO\n3\n4\n6\n7\nnew\n8\n9\n";
    let hunks = build_hunks(original, candidate, 6).unwrap();
    let mut pieces = split_hunk(&hunks[0]);
    pieces[1].accept();
    pieces[0].reject();
    assert_eq!(apply(original, pieces), "1\n2\n3\n4\n6\n7\n8\n9\n");
}
