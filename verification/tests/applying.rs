use hunkpatch::apply::apply;
use hunkpatch::change::{Change, Disposition, Hunk, Tag};
use hunkpatch::group::build_hunks;

fn accept_all(hunks: &mut Vec<Hunk>) {
    for hunk in hunks.iter_mut() {
        hunk.accept();
    }
}

fn round_trip(original: &str, candidate: &str, context: usize) -> String {
    let mut hunks = build_hunks(original, candidate, context).unwrap();
    accept_all(&mut hunks);
    apply(original, hunks)
}

#[test]
fn no_hunks_give_the_original() {
    let original = "one\ntwo\n\nfour\n";
    assert_eq!(apply(original, vec![]), original);
    assert_eq!(apply("", vec![]), "");
    assert_eq!(apply("\n", vec![]), "\n");
}

#[test]
fn every_copied_line_ends_in_a_line_feed() {
    assert_eq!(apply("a\nb", vec![]), "a\nb\n");
    assert_eq!(apply("a\r\nb\r\n", vec![]), "a\nb\n");
    assert_eq!(apply("a\rb\r", vec![]), "a\rb\r\n");
}

#[test]
fn accepting_every_hunk_gives_the_candidate() {
    let original = "1\n2\n3\n4\n5\n6\n7\n8\n9\n10\n11\n12\n13\n14\n15\n16\n";
    let candidate = "0\n1\n2\nthree\n4\n5\n6\n7\n8\n9\n10\n11\n12\n14\n15\n16\n17\n";
    for context in 1..9 {
        assert_eq!(round_trip(original, candidate, context), candidate);
    }
}

#[test]
fn accepting_every_hunk_works_from_and_to_the_empty_text() {
    assert_eq!(round_trip("", "a\nb\n", 6), "a\nb\n");
    assert_eq!(round_trip("a\nb\n", "", 6), "");
    assert_eq!(round_trip("a\nb\n", "x\ny\n", 1), "x\ny\n");
}

#[test]
fn a_candidate_without_final_line_feed_is_reproduced() {
    assert_eq!(round_trip("a\nb\n", "a\nb", 3), "a\nb");
    assert_eq!(round_trip("a\nb\n", "a\nc\r\nb\n", 3), "a\nc\r\nb\n");
}

#[test]
fn rejecting_every_hunk_gives_the_original() {
    let original = "1\n2\n3\n4\n5\n6\n7\n8\n9\n10\n";
    let candidate = "1\nX\n3\n4\n5\n6\n7\n8\nY\n10\nZ\n";
    let mut hunks = build_hunks(original, candidate, 1).unwrap();
    assert_eq!(hunks.len(), 3);
    for hunk in hunks.iter_mut() {
        hunk.reject();
    }
    assert_eq!(apply(original, hunks), original);
}

#[test]
fn undecided_hunks_change_nothing() {
    let original = "1\n2\n3\n";
    let hunks = build_hunks(original, "1\nX\n3\n", 1).unwrap();
    assert_eq!(hunks[0].disposition, Disposition::Undecided);
    assert_eq!(apply(original, hunks), original);
}

#[test]
fn only_accepted_hunks_are_applied() {
    let original = "1\n2\n3\n4\n5\n6\n7\n8\n9\n10\n";
    let candidate = "1\nX\n3\n4\n5\n6\n7\n8\nY\n10\n";
    let hunks = build_hunks(original, candidate, 1).unwrap();
    assert_eq!(hunks.len(), 2);

    let mut first = hunks.clone();
    first[0].accept();
    first[1].reject();
    assert_eq!(apply(original, first), "1\nX\n3\n4\n5\n6\n7\n8\n9\n10\n");

    let mut second = hunks.clone();
    second[1].accept();
    assert_eq!(apply(original, second), "1\n2\n3\n4\n5\n6\n7\n8\nY\n10\n");
}

#[test]
fn a_hunk_that_starts_with_an_insert_applies_at_its_anchor() {
    let hunk = Hunk {
        changes: vec![
            Change { old_index: None, new_index: Some(1), text: "X\n".into(), tag: Tag::Insert },
            Change { old_index: Some(1), new_index: Some(2), text: "b\n".into(), tag: Tag::Equal },
        ],
        disposition: Disposition::Accept,
    };
    assert_eq!(hunk.anchor(), Some(1));
    assert_eq!(hunk.starting_indexes(), (None, Some(1)));
    assert_eq!(apply("a\nb\nc\n", vec![hunk]), "a\nX\nb\nc\n");
}

#[test]
fn a_hunk_without_anchor_applies_where_the_patch_stands() {
    let insert = Hunk {
        changes: vec![Change {
            old_index: None,
            new_index: None,
            text: "X\n".into(),
            tag: Tag::Insert,
        }],
        disposition: Disposition::Accept,
    };
    assert_eq!(insert.anchor(), None);
    assert_eq!(apply("a\nb\n", vec![insert]), "X\na\nb\n");
}

#[test]
fn an_anchor_past_the_end_copies_what_there_is() {
    let hunk = Hunk {
        changes: vec![
            Change { old_index: None, new_index: None, text: "x\n".into(), tag: Tag::Insert },
            Change { old_index: Some(10), new_index: None, text: "zz\n".into(), tag: Tag::Equal },
        ],
        disposition: Disposition::Accept,
    };
    assert_eq!(apply("a\n", vec![hunk]), "a\nx\nzz\n");
}

#[test]
fn an_equal_change_writes_its_own_text() {
    let hunk = Hunk {
        changes: vec![
            Change { old_index: Some(0), new_index: None, text: "A\n".into(), tag: Tag::Equal },
            Change { old_index: Some(1), new_index: None, text: "b\n".into(), tag: Tag::Delete },
        ],
        disposition: Disposition::Accept,
    };
    assert_eq!(apply("a\nb\nc\n", vec![hunk]), "A\nc\n");
}

#[test]
fn without_context_an_insert_alone_is_not_placed() {
    // A hunk of inserts alone names no original line, so it applies where
    // the patch stands: here before the first line.
    assert_eq!(round_trip("a\nb\n", "a\nX\nb\n", 0), "X\na\nb\n");
    assert_eq!(round_trip("a\nb\n", "a\nX\nb\n", 1), "a\nX\nb\n");
}

#[test]
fn an_original_without_final_line_feed_gets_one() {
    assert_eq!(round_trip("a\nb", "a\nb", 3), "a\nb\n");
}
