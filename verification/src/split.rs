//! Splitting a hunk into one hunk for each of its runs of edits.

use crate::change::{
    change_views, hunk_views, Change, ChangeView, Disposition, Hunk, HunkView, Tag,
};
use vstd::prelude::*;

verus! {

/// The change at `k` closes a piece: it is `Equal` and follows an edit.
pub open spec fn closes(c: Seq<ChangeView>, k: int) -> bool {
    0 < k < c.len() && c[k].tag == Tag::Equal && c[k - 1].tag != Tag::Equal
}

/// Position of the first change at or after `from` that closes a piece, or
/// the length of `c` if there is none.
pub open spec fn next_close(c: Seq<ChangeView>, from: int) -> int
    decreases c.len() - from,
{
    if from < 0 || from >= c.len() {
        c.len() as int
    } else if closes(c, from) {
        from
    } else {
        next_close(c, from + 1)
    }
}

/// The pieces of `c` from position `from` on, where a piece starts. A piece
/// ends with the first `Equal` change that follows an edit. What is left at
/// the end is a piece if it ends in an edit, and is dropped if it does not.
pub open spec fn pieces_from(c: Seq<ChangeView>, from: int) -> Seq<HunkView>
    decreases c.len() - from,
    via pieces_from_decreases
{
    if from < 0 || from >= c.len() {
        Seq::empty()
    } else {
        let e = next_close(c, from);
        if e < c.len() {
            seq![HunkView { changes: c.subrange(from, e + 1), disposition: Disposition::Undecided }]
                + pieces_from(c, e + 1)
        } else if c.last().tag != Tag::Equal {
            seq![
                HunkView {
                    changes: c.subrange(from, c.len() as int),
                    disposition: Disposition::Undecided,
                },
            ]
        } else {
            Seq::empty()
        }
    }
}

#[via_fn]
proof fn pieces_from_decreases(c: Seq<ChangeView>, from: int) {
    if !(from < 0 || from >= c.len()) {
        lemma_next_close(c, from);
    }
}

/// The pieces that a run of changes splits into.
pub open spec fn pieces(c: Seq<ChangeView>) -> Seq<HunkView> {
    pieces_from(c, 0)
}

pub proof fn lemma_next_close(c: Seq<ChangeView>, from: int)
    requires
        0 <= from <= c.len(),
    ensures
        from <= next_close(c, from) <= c.len(),
        forall|k: int| from <= k < next_close(c, from) ==> !#[trigger] closes(c, k),
        next_close(c, from) < c.len() ==> closes(c, next_close(c, from)),
    decreases c.len() - from,
{
    if from < c.len() && !closes(c, from) {
        lemma_next_close(c, from + 1);
    }
}

/// The first closing change at or after `from` is at `r` if none stands in
/// between and `r` closes a piece or is the end.
pub proof fn lemma_next_close_is(c: Seq<ChangeView>, from: int, r: int)
    requires
        0 <= from <= r <= c.len(),
        forall|k: int| from <= k < r ==> !#[trigger] closes(c, k),
        r < c.len() ==> closes(c, r),
    ensures
        next_close(c, from) == r,
    decreases r - from,
{
    if from < r {
        lemma_next_close_is(c, from + 1, r);
    }
}

/// Splits a hunk into one hunk for each run of edits: each piece starts
/// where the one before it ended, and ends with the first unchanged line
/// after its edits. Unchanged lines that are left at the end belong to no
/// piece. A hunk with one run of edits gives one piece, a hunk without edits
/// none. Every piece is undecided.
pub fn split_hunk(hunk: &Hunk) -> (res: Vec<Hunk>)
    ensures
        hunk_views(res@) == pieces(hunk@.changes),
{
    let n = hunk.changes.len();
    let ghost c = hunk@.changes;
    let mut hunks: Vec<Hunk> = Vec::new();
    let mut in_diff = false;
    let mut current: Vec<Change> = Vec::new();
    let ghost mut from: int = 0;
    let mut i: usize = 0;
    proof {
        assert(hunk_views(hunks@) + pieces_from(c, 0) =~= pieces(c));
    }
    while i < n
        invariant
            0 <= from <= i <= n,
            n == hunk.changes@.len(),
            c == change_views(hunk.changes@),
            change_views(current@) == c.subrange(from, i as int),
            hunk_views(hunks@) + pieces_from(c, from) == pieces(c),
            in_diff <==> (from < i && c[i - 1].tag != Tag::Equal),
            from > 0 ==> c[from - 1].tag == Tag::Equal,
            forall|k: int| from <= k < i ==> !#[trigger] closes(c, k),
        decreases n - i,
    {
        let diff = &hunk.changes[i];
        let ghost piece = change_views(current@);
        current.push(diff.clone());
        proof {
            assert(c[i as int] == hunk.changes@[i as int]@);
            assert(change_views(current@) =~= piece.push(c[i as int]));
            assert(change_views(current@) =~= c.subrange(from, i + 1));
        }
        if diff.tag == Tag::Equal {
            if in_diff {
                proof {
                    lemma_next_close_is(c, from, i as int);
                }
                let ghost before = hunk_views(hunks@);
                let done = Hunk { changes: current, disposition: Disposition::Undecided };
                current = Vec::new();
                hunks.push(done);
                in_diff = false;
                proof {
                    assert(hunk_views(hunks@) =~= before.push(done@));
                    assert(hunk_views(hunks@) + pieces_from(c, i + 1) =~= before + pieces_from(
                        c,
                        from,
                    ));
                    from = i + 1;
                    assert(change_views(current@) =~= c.subrange(from, i + 1));
                }
            }
        } else {
            in_diff = true;
        }
        i += 1;
    }
    if in_diff {
        let ghost before = hunk_views(hunks@);
        let done = Hunk { changes: current, disposition: Disposition::Undecided };
        hunks.push(done);
        proof {
            lemma_next_close_is(c, from, n as int);
            assert(hunk_views(hunks@) =~= before.push(done@));
            assert(hunk_views(hunks@) =~= before + pieces_from(c, from));
        }
    } else {
        proof {
            if from < n {
                lemma_next_close_is(c, from, n as int);
            }
            assert(hunk_views(hunks@) =~= hunk_views(hunks@) + pieces_from(c, from));
        }
    }
    hunks
}

} // verus!
