use hunkpatch::apply::apply;
use hunkpatch::change::Disposition;
use hunkpatch::edit::check_patch;
use hunkpatch::group::build_hunks;
use hunkpatch::session::{command_of_answer, parse_command, Action, Command, Review};

const ORIGINAL: &str = "1\n2\n3\n4\n5\n6\n7\n8\n9\n10\n";
const CANDIDATE: &str = "1\nX\n3\n4\n5\n6\n7\n8\nY\n10\n";

fn review(context: usize) -> Review {
    Review::new(build_hunks(ORIGINAL, CANDIDATE, context).unwrap())
}

#[test]
fn answers_stand_for_commands() {
    assert_eq!(command_of_answer("y"), Command::Accept);
    assert_eq!(command_of_answer(""), Command::Accept);
    assert_eq!(command_of_answer("n"), Command::Reject);
    assert_eq!(command_of_answer("e"), Command::Edit);
    assert_eq!(command_of_answer("s"), Command::Split);
    assert_eq!(command_of_answer("q"), Command::Quit);
    assert_eq!(command_of_answer("x"), Command::Unknown);
    assert_eq!(command_of_answer("yes"), Command::Unknown);
    assert_eq!(command_of_answer("Y"), Command::Unknown);
    assert_eq!(command_of_answer(" y"), Command::Unknown);
}

#[test]
fn white_space_around_an_answer_does_not_count() {
    assert_eq!(parse_command("y\n"), Command::Accept);
    assert_eq!(parse_command("\n"), Command::Accept);
    assert_eq!(parse_command(""), Command::Accept);
    assert_eq!(parse_command("  n \r\n"), Command::Reject);
    assert_eq!(parse_command("\te\n"), Command::Edit);
    assert_eq!(parse_command("s\n"), Command::Split);
    assert_eq!(parse_command(" q"), Command::Quit);
    assert_eq!(parse_command("y n\n"), Command::Unknown);
}

#[test]
fn a_review_without_hunks_is_finished() {
    let mut empty = Review::new(vec![]);
    assert_eq!(empty.next_action(), Action::Finish);
    assert!(empty.current().is_none());
    assert_eq!(empty.decide(Command::Accept), Action::Finish);
    assert_eq!(empty.into_hunks(), vec![]);
}

#[test]
fn accept_and_reject_mark_the_hunk_and_move_on() {
    let mut session = review(1);
    assert_eq!(session.hunks.len(), 2);
    assert_eq!(session.next_action(), Action::Prompt);
    assert_eq!(session.current(), Some(&session.hunks[0]));
    assert_eq!(session.decide(Command::Reject), Action::Prompt);
    assert_eq!(session.position, 1);
    assert_eq!(session.decide(Command::Accept), Action::Finish);
    assert_eq!(session.position, 2);
    assert!(session.current().is_none());
    assert_eq!(session.hunks[0].disposition, Disposition::Reject);
    assert_eq!(session.hunks[1].disposition, Disposition::Accept);
    assert_eq!(session.decide(Command::Accept), Action::Finish);
    assert_eq!(session.position, 2);
    assert_eq!(apply(ORIGINAL, session.into_hunks()), "1\n2\n3\n4\n5\n6\n7\n8\nY\n10\n");
}

#[test]
fn unknown_and_edit_leave_the_review_as_it_is() {
    let mut session = review(1);
    let before = session.hunks.clone();
    assert_eq!(session.decide(Command::Unknown), Action::UnknownCommand);
    assert_eq!(session.decide(Command::Edit), Action::Edit);
    assert_eq!(session.position, 0);
    assert!(!session.quit);
    assert_eq!(session.hunks, before);
}

#[test]
fn quit_leaves_the_rest_undecided() {
    let mut session = review(1);
    assert_eq!(session.decide(Command::Accept), Action::Prompt);
    assert_eq!(session.decide(Command::Quit), Action::Finish);
    assert!(session.quit);
    assert!(session.current().is_none());
    assert_eq!(session.next_action(), Action::Finish);
    assert_eq!(session.decide(Command::Accept), Action::Finish);
    assert_eq!(session.hunks[1].disposition, Disposition::Undecided);
    assert_eq!(apply(ORIGINAL, session.into_hunks()), "1\nX\n3\n4\n5\n6\n7\n8\n9\n10\n");
}

#[test]
fn a_hunk_with_one_region_cannot_be_split() {
    let mut session = review(1);
    let before = session.hunks.clone();
    assert_eq!(session.decide(Command::Split), Action::CannotSplit);
    assert_eq!(session.hunks, before);
    assert_eq!(session.position, 0);
}

#[test]
fn split_puts_the_pieces_in_the_place_of_the_hunk() {
    assert_eq!(review(6).hunks.len(), 2);
    let mut session = review(7);
    assert_eq!(session.hunks.len(), 1);
    assert_eq!(session.decide(Command::Split), Action::Prompt);
    assert_eq!(session.hunks.len(), 2);
    assert_eq!(session.position, 0);
    assert_eq!(session.hunks[0].changes.len(), 4);
    assert_eq!(session.hunks[0].changes[3].text, "3\n");
    assert_eq!(session.hunks[1].changes[0].text, "4\n");
    assert_eq!(session.hunks[1].changes.len(), 8);
    assert_eq!(session.decide(Command::Reject), Action::Prompt);
    assert_eq!(session.decide(Command::Accept), Action::Finish);
    assert_eq!(apply(ORIGINAL, session.into_hunks()), "1\n2\n3\n4\n5\n6\n7\n8\nY\n10\n");
}

#[test]
fn an_edited_hunk_takes_the_place_of_the_current_one() {
    let mut session = review(1);
    assert_eq!(session.decide(Command::Accept), Action::Prompt);
    assert_eq!(session.decide(Command::Edit), Action::Edit);
    let anchor = session.current().unwrap().anchor().unwrap();
    assert_eq!(anchor, 7);
    let edited = check_patch(ORIGINAL, anchor, " 8\n-9\n+nine\n 10\n+11\n").unwrap();
    session.replace_current(edited);
    assert_eq!(session.position, 1);
    assert_eq!(session.hunks.len(), 2);
    assert_eq!(session.next_action(), Action::Prompt);
    assert_eq!(session.hunks[1].disposition, Disposition::Undecided);
    assert_eq!(session.decide(Command::Accept), Action::Finish);
    assert_eq!(apply(ORIGINAL, session.into_hunks()), "1\nX\n3\n4\n5\n6\n7\n8\nnine\n10\n11\n");
}

#[test]
fn replacing_without_a_current_hunk_changes_nothing() {
    let mut session = review(1);
    assert_eq!(session.decide(Command::Quit), Action::Finish);
    let before = session.hunks.clone();
    let edited = check_patch(ORIGINAL, 0, " 1\n").unwrap();
    session.replace_current(edited);
    assert_eq!(session.hunks, before);
}
