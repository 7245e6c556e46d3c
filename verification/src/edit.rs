//! Reading a hand-edited hunk back and checking it against the original.

use crate::apply::held;
use crate::change::{
    anchor_of, change_views, Change, ChangeView, Disposition, Hunk, HunkView, PatchError,
    PatchErrorView, Tag,
};
use crate::text::{lines_of, push_line, split_lines, strip_terminator, string_views, terminated};
use vstd::prelude::*;

verus! {

/// A line that starts with `@@`: a header, which is not part of the hunk.
pub open spec fn is_header(line: Seq<char>) -> bool {
    line.len() >= 2 && line[0] == '@' && line[1] == '@'
}

/// The tag that a leading marker stands for.
pub open spec fn marker_tag(marker: char) -> Option<Tag> {
    if marker == ' ' {
        Some(Tag::Equal)
    } else if marker == '+' {
        Some(Tag::Insert)
    } else if marker == '-' {
        Some(Tag::Delete)
    } else {
        None
    }
}

/// The change that one line of an edited hunk stands for: its marker gives
/// the tag, the rest of the line and a line feed the text. Every change is
/// given the hunk's anchor as its old index, and no new index. A line that
/// is empty or starts with another character stands for none.
pub open spec fn parsed_line(line: Seq<char>, start: usize) -> Option<ChangeView> {
    if line.len() == 0 {
        None
    } else {
        match marker_tag(line[0]) {
            Some(tag) => Some(
                ChangeView {
                    old_index: Some(start),
                    new_index: None,
                    text: terminated(line.subrange(1, line.len() as int)),
                    tag,
                },
            ),
            None => None,
        }
    }
}

/// The changes that the lines of an edited hunk stand for, headers left
/// out; `None` if a line stands for no change.
pub open spec fn parsed_lines(lines: Seq<Seq<char>>, start: usize) -> Option<Seq<ChangeView>>
    decreases lines.len(),
{
    if lines.len() == 0 {
        Some(Seq::empty())
    } else {
        match parsed_lines(lines.drop_last(), start) {
            None => None,
            Some(before) => if is_header(lines.last()) {
                Some(before)
            } else {
                match parsed_line(lines.last(), start) {
                    None => None,
                    Some(change) => Some(before.push(change)),
                }
            },
        }
    }
}

/// The marker that a tag is written with.
pub open spec fn marker_of(tag: Tag) -> char {
    match tag {
        Tag::Equal => ' ',
        Tag::Insert => '+',
        Tag::Delete => '-',
    }
}

/// The changes as text to edit: each change's marker and then its text, one
/// after another.
pub open spec fn rendered(changes: Seq<ChangeView>) -> Seq<char>
    decreases changes.len(),
{
    if changes.len() == 0 {
        Seq::empty()
    } else {
        rendered(changes.drop_last()).push(marker_of(changes.last().tag)) + changes.last().text
    }
}

/// The 1-based number of the original line at `cursor`, as far as the
/// machine can count.
pub open spec fn line_number(cursor: int) -> usize {
    if cursor < usize::MAX {
        (cursor + 1) as usize
    } else {
        usize::MAX
    }
}

/// The original line at `cursor`, empty where the original has ended.
pub open spec fn line_at(lines: Seq<Seq<char>>, cursor: int) -> Seq<char> {
    if 0 <= cursor < lines.len() {
        lines[cursor]
    } else {
        Seq::empty()
    }
}

/// The first `Equal` change of `patch` that differs from the original line
/// that it stands at, as a `PatchMismatch`; `None` if every one agrees. The
/// walk starts at line `cursor`; `Equal` and `Delete` move on by one line,
/// `Insert` does not. An `Equal` change agrees if the original has a line
/// there that is the change's text without its terminator.
pub open spec fn first_mismatch(
    lines: Seq<Seq<char>>,
    cursor: int,
    patch: Seq<ChangeView>,
) -> Option<PatchErrorView>
    decreases patch.len(),
{
    if patch.len() == 0 {
        None
    } else {
        let change = patch[0];
        let rest = patch.drop_first();
        match change.tag {
            Tag::Equal => if 0 <= cursor < lines.len() && lines[cursor] == strip_terminator(
                change.text,
            ) {
                first_mismatch(lines, cursor + 1, rest)
            } else {
                Some(
                    PatchErrorView::PatchMismatch {
                        line: line_number(cursor),
                        expected: line_at(lines, cursor),
                        actual: strip_terminator(change.text),
                    },
                )
            },
            Tag::Insert => first_mismatch(lines, cursor, rest),
            Tag::Delete => first_mismatch(lines, cursor + 1, rest),
        }
    }
}

/// What reading an edited hunk gives: `InvalidDiffFormat` if a line stands
/// for no change, else the first mismatch with the original, else the hunk,
/// undecided.
pub open spec fn checked_patch(
    original: Seq<Seq<char>>,
    start: usize,
    edited: Seq<Seq<char>>,
) -> Result<HunkView, PatchErrorView> {
    match parsed_lines(edited, start) {
        None => Err(PatchErrorView::InvalidDiffFormat),
        Some(changes) => match first_mismatch(original, start as int, changes) {
            Some(mismatch) => Err(mismatch),
            None => Ok(HunkView { changes, disposition: Disposition::Undecided }),
        },
    }
}

/// A line that makes the parse fail makes it fail for every longer text.
pub proof fn lemma_parse_failure_stays(lines: Seq<Seq<char>>, start: usize, k: int)
    requires
        0 <= k <= lines.len(),
        parsed_lines(lines.take(k), start) is None,
    ensures
        parsed_lines(lines, start) is None,
    decreases lines.len() - k,
{
    if k < lines.len() {
        assert(lines.take(k + 1).drop_last() =~= lines.take(k));
        lemma_parse_failure_stays(lines, start, k + 1);
    } else {
        assert(lines.take(k) =~= lines);
    }
}

/// `text` without its trailing line terminator.
fn without_terminator(text: &str) -> (res: &str)
    ensures
        res@ == strip_terminator(text@),
{
    let n = text.unicode_len();
    if n > 0 && text.get_char(n - 1) == '\n' {
        proof {
            assert(text@.drop_last() =~= text@.subrange(0, n - 1));
        }
        if n > 1 && text.get_char(n - 2) == '\r' {
            proof {
                assert(text@.drop_last().last() == text@[n - 2]);
                assert(text@.drop_last().drop_last() =~= text@.subrange(0, n - 2));
            }
            text.substring_char(0, n - 2)
        } else {
            proof {
                if n > 1 {
                    assert(text@.drop_last().last() == text@[n - 2]);
                }
            }
            text.substring_char(0, n - 1)
        }
    } else {
        text
    }
}

/// Checks the `Equal` changes of `patch` against `original`, walking its
/// lines from `old_index` on, and reports the first that does not agree.
pub fn apply_check(original: &str, old_index: usize, patch: &[Change]) -> (res: Result<
    (),
    PatchError,
>)
    ensures
        match first_mismatch(lines_of(original@), old_index as int, change_views(patch@)) {
            None => res is Ok,
            Some(mismatch) => res matches Err(e) && e@ == mismatch,
        },
{
    let original_lines = split_lines(original);
    let ghost lines = lines_of(original@);
    let ghost changes = change_views(patch@);
    let ghost mut cursor: int = old_index as int;
    let mut index: usize = old_index;
    let mut i: usize = 0;
    proof {
        assert(changes.skip(0) =~= changes);
    }
    while i < patch.len()
        invariant
            0 <= i <= patch@.len(),
            lines == string_views(original_lines@),
            lines == lines_of(original@),
            changes == change_views(patch@),
            0 <= cursor,
            index == held(cursor),
            first_mismatch(lines, cursor, changes.skip(i as int)) == first_mismatch(
                lines,
                old_index as int,
                changes,
            ),
        decreases patch@.len() - i,
    {
        let diff = &patch[i];
        proof {
            assert(changes.skip(i as int)[0] == diff@);
            assert(changes.skip(i as int).drop_first() =~= changes.skip(i + 1));
        }
        match diff.tag {
            Tag::Equal => {
                let actual = without_terminator(diff.text.as_str()).to_owned();
                let known = original_lines.len();
                proof {
                    if index < known {
                        assert(cursor == index);
                        assert(lines[cursor] == original_lines@[index as int]@);
                    }
                }
                if index < original_lines.len() && original_lines[index] == actual {
                    index += 1;
                    proof {
                        cursor = cursor + 1;
                    }
                } else {
                    let line = if index < usize::MAX {
                        index + 1
                    } else {
                        usize::MAX
                    };
                    let expected = if index < original_lines.len() {
                        original_lines[index].clone()
                    } else {
                        String::new()
                    };
                    return Err(PatchError::PatchMismatch { line, expected, actual });
                }
            },
            Tag::Insert => {},
            Tag::Delete => {
                if index < usize::MAX {
                    index += 1;
                }
                proof {
                    cursor = cursor + 1;
                }
            },
        }
        i += 1;
    }
    Ok(())
}

/// The changes of `hunk` as text for the operator to edit, in the form that
/// [`check_patch`] reads: a space, `+` or `-`, and the change's text.
pub fn patch_text(hunk: &Hunk) -> (res: String)
    ensures
        res@ == rendered(hunk@.changes),
{
    let ghost changes = hunk@.changes;
    let mut out = String::new();
    let mut i: usize = 0;
    proof {
        reveal_strlit(" ");
        reveal_strlit("+");
        reveal_strlit("-");
        assert(changes.take(0) =~= Seq::<ChangeView>::empty());
        assert(out@ =~= rendered(changes.take(0)));
    }
    while i < hunk.changes.len()
        invariant
            0 <= i <= hunk.changes@.len(),
            changes == change_views(hunk.changes@),
            " "@ == seq![' '],
            "+"@ == seq!['+'],
            "-"@ == seq!['-'],
            out@ == rendered(changes.take(i as int)),
        decreases hunk.changes@.len() - i,
    {
        let change = &hunk.changes[i];
        let ghost before = out@;
        match change.tag {
            Tag::Equal => out.append(" "),
            Tag::Insert => out.append("+"),
            Tag::Delete => out.append("-"),
        }
        out.append(change.text.as_str());
        proof {
            assert(changes.take(i + 1).drop_last() =~= changes.take(i as int));
            assert(changes.take(i + 1).last() == change@);
            assert(out@ =~= before.push(marker_of(change@.tag)) + change@.text);
        }
        i += 1;
    }
    proof {
        assert(changes.take(i as int) =~= changes);
    }
    out
}

/// Whether `res` is the result that `expected` describes.
pub open spec fn is_checked(
    res: Result<Hunk, PatchError>,
    expected: Result<HunkView, PatchErrorView>,
) -> bool {
    match expected {
        Ok(hunk) => res matches Ok(h) && h@ == hunk,
        Err(error) => res matches Err(e) && e@ == error,
    }
}

/// Reads an edited hunk: each line of `new_patch` is a marker (space for
/// unchanged, `+` for inserted, `-` for deleted) and the line's text; lines
/// that start with `@@` are passed over. The changes are then checked
/// against `original` from line `start` on.
pub fn check_patch(original: &str, start: usize, new_patch: &str) -> (res: Result<
    Hunk,
    PatchError,
>)
    ensures
        is_checked(res, checked_patch(lines_of(original@), start, lines_of(new_patch@))),
{
    let edited = split_lines(new_patch);
    let ghost lines = lines_of(new_patch@);
    let mut diffs: Vec<Change> = Vec::new();
    let mut i: usize = 0;
    proof {
        assert(lines.take(0) =~= Seq::<Seq<char>>::empty());
    }
    while i < edited.len()
        invariant
            0 <= i <= edited@.len(),
            lines == string_views(edited@),
            lines == lines_of(new_patch@),
            parsed_lines(lines.take(i as int), start) == Some(change_views(diffs@)),
        decreases edited@.len() - i,
    {
        let line = edited[i].as_str();
        let n = line.unicode_len();
        proof {
            assert(lines.take(i + 1).drop_last() =~= lines.take(i as int));
            assert(lines.take(i + 1).last() == line@);
        }
        if n >= 2 && line.get_char(0) == '@' && line.get_char(1) == '@' {
        } else {
            if n == 0 {
                proof {
                    assert(parsed_line(line@, start) is None);
                    assert(parsed_lines(lines.take(i + 1), start) is None);
                    lemma_parse_failure_stays(lines, start, i + 1);
                }
                return Err(PatchError::InvalidDiffFormat);
            }
            let marker = line.get_char(0);
            let tag = if marker == ' ' {
                Tag::Equal
            } else if marker == '+' {
                Tag::Insert
            } else if marker == '-' {
                Tag::Delete
            } else {
                proof {
                    assert(parsed_line(line@, start) is None);
                    assert(parsed_lines(lines.take(i + 1), start) is None);
                    lemma_parse_failure_stays(lines, start, i + 1);
                }
                return Err(PatchError::InvalidDiffFormat);
            };
            let mut text = String::new();
            push_line(&mut text, line.substring_char(1, n));
            let ghost before = change_views(diffs@);
            let change = Change { old_index: Some(start), new_index: None, text, tag };
            proof {
                assert(text@ =~= terminated(line@.subrange(1, n as int)));
                assert(parsed_line(line@, start) == Some(change@));
            }
            diffs.push(change);
            proof {
                assert(change_views(diffs@) =~= before.push(change@));
            }
        }
        i += 1;
    }
    proof {
        assert(lines.take(i as int) =~= lines);
    }
    match apply_check(original, start, diffs.as_slice()) {
        Ok(()) => Ok(Hunk { changes: diffs, disposition: Disposition::Undecided }),
        Err(e) => Err(e),
    }
}

/// The line at which an edit of a hunk is checked: the hunk's anchor, or
/// the first line for a hunk without one.
pub open spec fn edit_start(changes: Seq<ChangeView>) -> usize {
    match anchor_of(changes) {
        Some(anchor) => anchor,
        None => 0,
    }
}

/// Reads what the operator made of `hunk` and checks it against `original`
/// at the line where `hunk` is anchored. On an error `hunk` stands as it
/// was, and `edited` can be offered for another edit.
pub fn edit_hunk(original: &str, hunk: &Hunk, edited: &str) -> (res: Result<Hunk, PatchError>)
    ensures
        is_checked(
            res,
            checked_patch(lines_of(original@), edit_start(hunk@.changes), lines_of(edited@)),
        ),
{
    let start = match hunk.anchor() {
        Some(anchor) => anchor,
        None => 0,
    };
    check_patch(original, start, edited)
}

} // verus!
