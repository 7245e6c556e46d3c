//! The line-level difference between two texts, as a stream of changes.

use crate::change::{change_views, Change, ChangeView, PatchError, Tag};
use vstd::prelude::*;

verus! {

/// Position of the first line feed or carriage return in `s`, or the length
/// of `s` if it has neither.
pub open spec fn first_break(s: Seq<char>) -> int
    decreases s.len(),
{
    if s.len() == 0 {
        0
    } else if s[0] == '\n' || s[0] == '\r' {
        0
    } else {
        1 + first_break(s.drop_first())
    }
}

/// The pieces that a text is compared by: its lines with their terminators.
/// A piece ends after a line feed, after a carriage return and a line feed,
/// or after a carriage return alone; what follows the last terminator is a
/// last piece. The pieces, one after another, are the text.
pub open spec fn tokens_of(s: Seq<char>) -> Seq<Seq<char>>
    decreases s.len(),
{
    if s.len() == 0 {
        Seq::empty()
    } else {
        let n = first_break(s);
        if n < 0 || n >= s.len() {
            seq![s]
        } else {
            let end = if s[n] == '\r' && n + 1 < s.len() && s[n + 1] == '\n' {
                n + 2
            } else {
                n + 1
            };
            seq![s.subrange(0, end)] + tokens_of(s.subrange(end, s.len() as int))
        }
    }
}

/// How many of the first `k` changes of `c` consume a line of the original.
pub open spec fn consumed(c: Seq<ChangeView>, k: int) -> int
    decreases k,
{
    if k <= 0 || k > c.len() {
        0
    } else if c[k - 1].consumes() {
        consumed(c, k - 1) + 1
    } else {
        consumed(c, k - 1)
    }
}

/// How many of the first `k` changes of `c` give a line to the candidate.
pub open spec fn emitted(c: Seq<ChangeView>, k: int) -> int
    decreases k,
{
    if k <= 0 || k > c.len() {
        0
    } else if c[k - 1].emits() {
        emitted(c, k - 1) + 1
    } else {
        emitted(c, k - 1)
    }
}

/// The change at `k` stands for the piece of `old` and of `new` that the
/// changes before it have led to, and carries those positions.
pub open spec fn script_entry(
    c: Seq<ChangeView>,
    old: Seq<Seq<char>>,
    new: Seq<Seq<char>>,
    k: int,
) -> bool {
    let i = consumed(c, k);
    let j = emitted(c, k);
    match c[k].tag {
        Tag::Equal => {
            &&& i < old.len() && c[k].text == old[i] && c[k].old_index == Some(i as usize)
            &&& j < new.len() && c[k].text == new[j] && c[k].new_index == Some(j as usize)
        },
        Tag::Delete => {
            &&& i < old.len() && c[k].text == old[i] && c[k].old_index == Some(i as usize)
            &&& c[k].new_index is None
        },
        Tag::Insert => {
            &&& c[k].old_index is None
            &&& j < new.len() && c[k].text == new[j] && c[k].new_index == Some(j as usize)
        },
    }
}

/// `c` turns `old` into `new`: its `Equal` and `Delete` changes are the
/// pieces of `old` in order, its `Equal` and `Insert` changes those of `new`.
pub open spec fn is_edit_script(
    c: Seq<ChangeView>,
    old: Seq<Seq<char>>,
    new: Seq<Seq<char>>,
) -> bool {
    &&& old.len() <= usize::MAX && new.len() <= usize::MAX
    &&& consumed(c, c.len() as int) == old.len()
    &&& emitted(c, c.len() as int) == new.len()
    &&& forall|k: int| 0 <= k < c.len() ==> #[trigger] script_entry(c, old, new, k)
}

/// Every change of `c` is tagged `Equal`.
pub open spec fn all_equal(c: Seq<ChangeView>) -> bool {
    forall|k: int| 0 <= k < c.len() ==> (#[trigger] c[k]).tag == Tag::Equal
}

/// Every change of `c` is well formed.
pub open spec fn all_well_formed(c: Seq<ChangeView>) -> bool {
    forall|k: int| 0 <= k < c.len() ==> (#[trigger] c[k]).well_formed()
}

/// Checks a change stream before it is used: it is refused with
/// `InvalidChange` if, and only if, one of its `Equal` changes names no
/// original line.
pub fn validate_changes(changes: &[Change]) -> (res: Result<(), PatchError>)
    ensures
        all_well_formed(change_views(changes@)) ==> res is Ok,
        !all_well_formed(change_views(changes@)) ==> res matches Err(PatchError::InvalidChange),
{
    let ghost c = change_views(changes@);
    let mut i: usize = 0;
    while i < changes.len()
        invariant
            0 <= i <= changes@.len(),
            c == change_views(changes@),
            forall|k: int| 0 <= k < i ==> (#[trigger] c[k]).well_formed(),
        decreases changes@.len() - i,
    {
        let change = &changes[i];
        if change.old_index.is_none() && change.tag == Tag::Equal {
            proof {
                assert(!c[i as int].well_formed());
            }
            return Err(PatchError::InvalidChange);
        }
        i += 1;
    }
    Ok(())
}

/// Two texts that can be compared: together they hold no more characters,
/// and so no more lines, than the diff can number.
pub open spec fn diffable(old: Seq<char>, new: Seq<char>) -> bool {
    old.len() + new.len() <= u32::MAX
}

/// The changes that the line diff of `old` and `new` consists of.
pub uninterp spec fn line_changes(old: Seq<char>, new: Seq<char>) -> Seq<ChangeView>;

/// The line diff of two texts: `similar::TextDiff::from_lines`, read out with
/// `iter_all_changes`. Not proved here. The contract names the result, which
/// the two texts alone decide (Myers' algorithm, no deadline), and claims of
/// it what the crate's source shows: the texts are cut into lines with their
/// terminators, the changes form an edit script between the two line lists
/// with the positions that each change carries, and equal texts give `Equal`
/// changes only. Texts of more than a hundred lines have their distinct
/// lines numbered in 32 bits there, so texts that together hold more
/// characters than that are left out.
#[verifier::external_body]
pub(crate) fn diff_lines(old: &str, new: &str) -> (res: Vec<Change>)
    requires
        diffable(old@, new@),
    ensures
        change_views(res@) == line_changes(old@, new@),
        is_edit_script(change_views(res@), tokens_of(old@), tokens_of(new@)),
        old@ == new@ ==> all_equal(change_views(res@)),
{
    let diff = similar::TextDiff::from_lines(old, new);
    let mut res = Vec::new();
    for change in diff.iter_all_changes() {
        res.push(Change {
            old_index: change.old_index(),
            new_index: change.new_index(),
            text: change.value().into(),
            tag: match change.tag() {
                similar::ChangeTag::Equal => Tag::Equal,
                similar::ChangeTag::Insert => Tag::Insert,
                similar::ChangeTag::Delete => Tag::Delete,
            },
        });
    }
    res
}

} // verus!
