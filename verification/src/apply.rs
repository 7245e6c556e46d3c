//! Rebuilding a text from the original and the accepted hunks.

use crate::change::{
    anchor_of, change_views, hunk_views, ChangeView, Disposition, Hunk, HunkView, Tag,
};
use crate::group::lower;
use crate::text::{
    copied_lines, lemma_copied_lines_split, lines_of, push_line, split_lines, string_views,
    terminated,
};
use vstd::prelude::*;

verus! {

/// How far the patch has come: the text written so far, and the original
/// line that is next to be read.
pub struct Progress {
    pub out: Seq<char>,
    pub cursor: int,
}

/// One change applied: `Equal` and `Insert` write their text, `Equal` and
/// `Delete` pass over one original line.
pub open spec fn emit_change(st: Progress, change: ChangeView) -> Progress {
    match change.tag {
        Tag::Equal => Progress { out: st.out + change.text, cursor: st.cursor + 1 },
        Tag::Insert => Progress { out: st.out + change.text, cursor: st.cursor },
        Tag::Delete => Progress { out: st.out, cursor: st.cursor + 1 },
    }
}

/// The changes of a hunk applied in order.
pub open spec fn emit_changes(st: Progress, changes: Seq<ChangeView>) -> Progress
    decreases changes.len(),
{
    if changes.len() == 0 {
        st
    } else {
        emit_changes(emit_change(st, changes[0]), changes.drop_first())
    }
}

/// The original lines before `anchor` that are not read yet are copied, and
/// the cursor moves to `anchor`. Nothing happens without an anchor, or when
/// the cursor is at or past it.
pub open spec fn catch_up(lines: Seq<Seq<char>>, st: Progress, anchor: Option<usize>) -> Progress {
    match anchor {
        Some(a) if st.cursor < a => Progress {
            out: st.out + copied_lines(lines, st.cursor, lower(a as int, lines.len() as int)),
            cursor: a as int,
        },
        _ => st,
    }
}

/// One hunk applied: an accepted hunk catches up to its anchor and applies
/// its changes, any other hunk does nothing.
pub open spec fn run_hunk(lines: Seq<Seq<char>>, st: Progress, hunk: HunkView) -> Progress {
    if hunk.disposition == Disposition::Accept {
        emit_changes(catch_up(lines, st, anchor_of(hunk.changes)), hunk.changes)
    } else {
        st
    }
}

/// The hunks applied in order.
pub open spec fn run_hunks(lines: Seq<Seq<char>>, st: Progress, hunks: Seq<HunkView>) -> Progress
    decreases hunks.len(),
{
    if hunks.len() == 0 {
        st
    } else {
        run_hunks(lines, run_hunk(lines, st, hunks[0]), hunks.drop_first())
    }
}

/// The patched text: the hunks applied from the first original line on, and
/// then the original lines that are left, each with a line feed.
pub open spec fn patched(lines: Seq<Seq<char>>, hunks: Seq<HunkView>) -> Seq<char> {
    let st = run_hunks(lines, Progress { out: Seq::empty(), cursor: 0 }, hunks);
    st.out + copied_lines(lines, st.cursor, lines.len() as int)
}

/// The cursor as the machine holds it: exact up to the largest index.
pub open spec fn held(cursor: int) -> int {
    if cursor <= usize::MAX {
        cursor
    } else {
        usize::MAX as int
    }
}

/// Copies `lines[from..to]` to `out`, each with a line feed.
fn copy_lines(out: &mut String, lines: &Vec<String>, from: usize, to: usize)
    requires
        from <= to <= lines@.len(),
    ensures
        final(out)@ == old(out)@ + copied_lines(string_views(lines@), from as int, to as int),
{
    let ghost all = string_views(lines@);
    let mut i: usize = from;
    proof {
        assert(out@ =~= old(out)@ + copied_lines(all, from as int, i as int));
    }
    while i < to
        invariant
            from <= i <= to <= lines@.len(),
            all == string_views(lines@),
            out@ == old(out)@ + copied_lines(all, from as int, i as int),
        decreases to - i,
    {
        push_line(out, lines[i].as_str());
        proof {
            lemma_copied_lines_split(all, from as int, i as int, i + 1);
            assert(copied_lines(all, i + 1, i + 1) =~= Seq::<char>::empty());
            assert(copied_lines(all, i as int, i + 1) =~= terminated(all[i as int]));
            assert(out@ =~= old(out)@ + copied_lines(all, from as int, i + 1));
        }
        i += 1;
    }
}

/// Applies the accepted hunks to `original`: what lies before, between and
/// after them is copied from the original line by line, each line with a
/// line feed; hunks that are not accepted change nothing.
pub fn apply(original: &str, hunks: Vec<Hunk>) -> (res: String)
    ensures
        res@ == patched(lines_of(original@), hunk_views(hunks@)),
{
    let lines = split_lines(original);
    let ghost all = lines_of(original@);
    let ghost views = hunk_views(hunks@);
    let ghost start = Progress { out: Seq::empty(), cursor: 0 };
    let ghost mut st = start;
    let mut ret = String::new();
    let mut index: usize = 0;
    let mut h: usize = 0;
    proof {
        assert(views.skip(0) =~= views);
    }
    while h < hunks.len()
        invariant
            0 <= h <= hunks@.len(),
            all == string_views(lines@),
            views == hunk_views(hunks@),
            ret@ == st.out,
            0 <= st.cursor,
            index == held(st.cursor),
            run_hunks(all, st, views.skip(h as int)) == run_hunks(all, start, views),
        decreases hunks@.len() - h,
    {
        let hunk = &hunks[h];
        proof {
            assert(views.skip(h as int)[0] == hunk@);
            assert(views.skip(h as int).drop_first() =~= views.skip(h + 1));
        }
        if hunk.disposition == Disposition::Accept {
            let ghost changes = hunk@.changes;
            match hunk.anchor() {
                Some(a) => {
                    if index < a {
                        let to = if a < lines.len() {
                            a
                        } else {
                            lines.len()
                        };
                        if index < to {
                            copy_lines(&mut ret, &lines, index, to);
                        }
                        proof {
                            st = catch_up(all, st, Some(a));
                        }
                        index = a;
                    }
                },
                None => {},
            }
            let ghost caught = st;
            let mut j: usize = 0;
            proof {
                assert(changes.skip(0) =~= changes);
            }
            while j < hunk.changes.len()
                invariant
                    0 <= j <= hunk.changes@.len(),
                    changes == change_views(hunk.changes@),
                    ret@ == st.out,
                    0 <= st.cursor,
                    index == held(st.cursor),
                    emit_changes(st, changes.skip(j as int)) == emit_changes(caught, changes),
                decreases hunk.changes@.len() - j,
            {
                let change = &hunk.changes[j];
                proof {
                    assert(changes.skip(j as int)[0] == change@);
                    assert(changes.skip(j as int).drop_first() =~= changes.skip(j + 1));
                    st = emit_change(st, change@);
                }
                match change.tag {
                    Tag::Equal => {
                        ret.append(change.text.as_str());
                        if index < usize::MAX {
                            index += 1;
                        }
                    },
                    Tag::Insert => {
                        ret.append(change.text.as_str());
                    },
                    Tag::Delete => {
                        if index < usize::MAX {
                            index += 1;
                        }
                    },
                }
                j += 1;
            }
        }
        h += 1;
    }
    if index < lines.len() {
        let end = lines.len();
        copy_lines(&mut ret, &lines, index, end);
    }
    ret
}

} // verus!
