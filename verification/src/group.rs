//! Grouping a change stream into hunks.

use crate::change::{
    change_views, hunk_views, Change, ChangeView, Disposition, Hunk, HunkView, PatchError, Tag,
};
use crate::diff::{
    all_equal, all_well_formed, diff_lines, diffable, is_edit_script, line_changes, script_entry,
    tokens_of, validate_changes,
};
use vstd::prelude::*;

verus! {

/// The number of unchanged lines that a hunk shows on each side of its
/// edits, unless the caller asks for another.
pub const DEFAULT_CONTEXT: usize = 6;

/// Position of the first change at or after `from` that is not `Equal`, or
/// the length of `c` if there is none.
pub open spec fn next_edit(c: Seq<ChangeView>, from: int) -> int
    decreases c.len() - from,
{
    if from < 0 || from >= c.len() {
        c.len() as int
    } else if c[from].tag != Tag::Equal {
        from
    } else {
        next_edit(c, from + 1)
    }
}

/// Position of the last change of `c` that is not `Equal`, or -1 if there
/// is none.
pub open spec fn last_edit(c: Seq<ChangeView>) -> int
    decreases c.len(),
{
    if c.len() == 0 {
        -1
    } else if c.last().tag != Tag::Equal {
        c.len() - 1
    } else {
        last_edit(c.drop_last())
    }
}

/// Two edits belong to one hunk when fewer than this many unchanged lines
/// lie between them.
pub open spec fn reach(context: int) -> int {
    if context <= 0 {
        1
    } else {
        context
    }
}

/// Position of the last edit of the hunk that the edit at `p` belongs to:
/// the hunk goes on while the next edit is less than `reach(context)`
/// unchanged lines away.
pub open spec fn cluster_end(c: Seq<ChangeView>, p: int, context: int) -> int
    decreases c.len() - p,
{
    let q = next_edit(c, p + 1);
    if 0 <= p < q < c.len() && q - p - 1 < reach(context) {
        cluster_end(c, q, context)
    } else {
        p
    }
}

/// The smaller of two integers.
pub open spec fn lower(a: int, b: int) -> int {
    if a <= b {
        a
    } else {
        b
    }
}

/// The larger of two integers.
pub open spec fn upper(a: int, b: int) -> int {
    if a >= b {
        a
    } else {
        b
    }
}

/// Where the window that starts at `from` ends: `reach(context)` unchanged
/// lines after the last edit of its hunk, or at the end of the stream.
pub open spec fn window_end(c: Seq<ChangeView>, from: int, context: int) -> int {
    lower(cluster_end(c, next_edit(c, from), context) + reach(context) + 1, c.len() as int)
}

/// The changes of the hunk of the window that starts at `from`: from up to
/// `context` unchanged lines before its first edit, not reaching back over
/// `from`, to up to `context` unchanged lines after its last edit.
pub open spec fn window_hunk(c: Seq<ChangeView>, from: int, context: int) -> Seq<ChangeView> {
    let p = next_edit(c, from);
    let q = cluster_end(c, p, context);
    c.subrange(upper(from, p - context), lower(q + context + 1, c.len() as int))
}

/// The hunks of the changes of `c` from position `from` on, where a window
/// starts.
pub open spec fn groups_from(c: Seq<ChangeView>, from: int, context: int) -> Seq<HunkView>
    decreases c.len() - from,
    via groups_from_decreases
{
    if from < 0 || next_edit(c, from) >= c.len() {
        Seq::empty()
    } else {
        seq![
            HunkView {
                changes: window_hunk(c, from, context),
                disposition: Disposition::Undecided,
            },
        ] + groups_from(c, window_end(c, from, context), context)
    }
}

#[via_fn]
proof fn groups_from_decreases(c: Seq<ChangeView>, from: int, context: int) {
    if !(from < 0 || next_edit(c, from) >= c.len()) {
        lemma_next_edit(c, from);
        lemma_cluster_end(c, next_edit(c, from), context);
    }
}

/// The hunks of a change stream.
pub open spec fn grouped(c: Seq<ChangeView>, context: int) -> Seq<HunkView> {
    groups_from(c, 0, context)
}

/// What is left of a window: from up to `context` changes before its first
/// edit to up to `context` changes after its last; nothing if it has no edit.
pub open spec fn trimmed(window: Seq<ChangeView>, context: int) -> Option<Seq<ChangeView>> {
    let first = next_edit(window, 0);
    let last = last_edit(window);
    if first >= window.len() {
        None
    } else {
        Some(
            window.subrange(
                upper(0, first - context),
                lower(last + context + 1, window.len() as int),
            ),
        )
    }
}

pub proof fn lemma_next_edit(c: Seq<ChangeView>, from: int)
    requires
        0 <= from,
    ensures
        from <= next_edit(c, from) || next_edit(c, from) == c.len(),
        next_edit(c, from) <= c.len(),
        forall|k: int| from <= k < next_edit(c, from) ==> (#[trigger] c[k]).tag == Tag::Equal,
        next_edit(c, from) < c.len() ==> c[next_edit(c, from)].tag != Tag::Equal,
    decreases c.len() - from,
{
    if from < c.len() && c[from].tag == Tag::Equal {
        lemma_next_edit(c, from + 1);
    }
}

/// The first edit at or after `from` is at `r` if only `Equal` changes stand
/// in between and `r` is an edit or the end.
pub proof fn lemma_next_edit_is(c: Seq<ChangeView>, from: int, r: int)
    requires
        0 <= from <= r <= c.len(),
        forall|k: int| from <= k < r ==> (#[trigger] c[k]).tag == Tag::Equal,
        r < c.len() ==> c[r].tag != Tag::Equal,
    ensures
        next_edit(c, from) == r,
    decreases r - from,
{
    if from < r {
        lemma_next_edit_is(c, from + 1, r);
    }
}

/// The last edit of `c` is at `r` if `r` is an edit and only `Equal` changes
/// follow it.
pub proof fn lemma_last_edit_is(c: Seq<ChangeView>, r: int)
    requires
        0 <= r < c.len(),
        c[r].tag != Tag::Equal,
        forall|k: int| r < k < c.len() ==> (#[trigger] c[k]).tag == Tag::Equal,
    ensures
        last_edit(c) == r,
    decreases c.len(),
{
    if r < c.len() - 1 {
        let rest = c.drop_last();
        assert(c.last().tag == Tag::Equal);
        assert(rest[r] == c[r]);
        assert forall|k: int| r < k < rest.len() implies (#[trigger] rest[k]).tag
            == Tag::Equal by {
            assert(rest[k] == c[k]);
        }
        lemma_last_edit_is(rest, r);
    }
}

pub proof fn lemma_cluster_end(c: Seq<ChangeView>, p: int, context: int)
    requires
        0 <= p < c.len(),
        c[p].tag != Tag::Equal,
    ensures
        p <= cluster_end(c, p, context) < c.len(),
        c[cluster_end(c, p, context)].tag != Tag::Equal,
    decreases c.len() - p,
{
    let q = next_edit(c, p + 1);
    lemma_next_edit(c, p + 1);
    if p < q < c.len() && q - p - 1 < reach(context) {
        lemma_cluster_end(c, q, context);
    }
}

/// Trimming the window `c[from..to]`, whose first edit is at `p` and whose
/// last is at `q`, keeps `c[max(from, p - context)..min(q + context + 1, to)]`.
pub proof fn lemma_trimmed_window(
    c: Seq<ChangeView>,
    from: int,
    to: int,
    p: int,
    q: int,
    context: int,
)
    requires
        0 <= from <= p <= q < to <= c.len(),
        0 <= context,
        next_edit(c, from) == p,
        c[q].tag != Tag::Equal,
        forall|k: int| q < k < to ==> (#[trigger] c[k]).tag == Tag::Equal,
    ensures
        trimmed(c.subrange(from, to), context) == Some(
            c.subrange(upper(from, p - context), lower(q + context + 1, to)),
        ),
{
    let window = c.subrange(from, to);
    lemma_next_edit(c, from);
    assert forall|k: int| 0 <= k < p - from implies (#[trigger] window[k]).tag == Tag::Equal by {
        assert(window[k] == c[from + k]);
    }
    assert(window[p - from] == c[p]);
    lemma_next_edit_is(window, 0, p - from);
    assert(window[q - from] == c[q]);
    assert forall|k: int| q - from < k < window.len() implies (#[trigger] window[k]).tag
        == Tag::Equal by {
        assert(window[k] == c[from + k]);
    }
    lemma_last_edit_is(window, q - from);
    assert(window.subrange(
        upper(0, (p - from) - context),
        lower((q - from) + context + 1, window.len() as int),
    ) =~= c.subrange(upper(from, p - context), lower(q + context + 1, to)));
}

/// Cuts a window down to its edits and up to `context` changes on each side
/// of them. A window without an edit gives no hunk.
pub fn trim(lines: Vec<Change>, context: usize) -> (res: Option<Hunk>)
    ensures
        match trimmed(change_views(lines@), context as int) {
            Some(kept) => res matches Some(h) && h@.changes == kept && h.disposition
                == Disposition::Undecided,
            None => res is None,
        },
{
    let n = lines.len();
    let ghost c = change_views(lines@);
    let mut first: usize = 0;
    while first < n && lines[first].tag == Tag::Equal
        invariant
            first <= n,
            n == lines@.len(),
            c == change_views(lines@),
            forall|k: int| 0 <= k < first ==> (#[trigger] c[k]).tag == Tag::Equal,
        decreases n - first,
    {
        first += 1;
    }
    proof {
        lemma_next_edit_is(c, 0, first as int);
    }
    if first == n {
        return None;
    }
    let mut last: usize = n - 1;
    while lines[last].tag == Tag::Equal
        invariant
            first <= last < n,
            n == lines@.len(),
            c == change_views(lines@),
            c[first as int].tag != Tag::Equal,
            forall|k: int| last < k < n ==> (#[trigger] c[k]).tag == Tag::Equal,
        decreases last,
    {
        last -= 1;
    }
    proof {
        lemma_last_edit_is(c, last as int);
    }
    let start: usize = if first >= context {
        first - context
    } else {
        0
    };
    let end: usize = if context >= n - last {
        n
    } else {
        last + 1 + context
    };
    let mut kept: Vec<Change> = Vec::new();
    let mut i: usize = start;
    while i < end
        invariant
            start <= i <= end <= n,
            n == lines@.len(),
            c == change_views(lines@),
            change_views(kept@) == c.subrange(start as int, i as int),
        decreases end - i,
    {
        kept.push(lines[i].clone());
        proof {
            assert(change_views(kept@) =~= c.subrange(start as int, i as int).push(c[i as int]));
            assert(c.subrange(start as int, i + 1) =~= c.subrange(start as int, i as int).push(
                c[i as int],
            ));
        }
        i += 1;
    }
    Some(Hunk { changes: kept, disposition: Disposition::Undecided })
}

/// `Ok` with the hunks of `c`, or `InvalidChange` if a change of `c` is
/// tagged `Equal` and names no original line.
pub open spec fn grouped_checked(c: Seq<ChangeView>, context: int) -> Result<
    Seq<HunkView>,
    PatchError,
> {
    if all_well_formed(c) {
        Ok(grouped(c, context))
    } else {
        Err(PatchError::InvalidChange)
    }
}

/// Whether `res` is the result that `expected` describes.
pub open spec fn is_grouping(
    res: Result<Vec<Hunk>, PatchError>,
    expected: Result<Seq<HunkView>, PatchError>,
) -> bool {
    match expected {
        Ok(hunks) => res matches Ok(v) && hunk_views(v@) == hunks,
        Err(_) => res matches Err(PatchError::InvalidChange),
    }
}

/// Groups a change stream into hunks: each is a run of edits that fewer than
/// `context` unchanged lines part (neighbouring edits always stay together),
/// with up to `context` unchanged lines before and after. The stream is
/// refused if an `Equal` change names no original line.
pub fn group_changes(changes: Vec<Change>, context: usize) -> (res: Result<Vec<Hunk>, PatchError>)
    ensures
        is_grouping(res, grouped_checked(change_views(changes@), context as int)),
{
    match validate_changes(changes.as_slice()) {
        Ok(()) => {},
        Err(error) => {
            return Err(error);
        },
    }
    let n = changes.len();
    let ghost c = change_views(changes@);
    let ghost ctx = context as int;
    let mut hunks: Vec<Hunk> = Vec::new();
    let mut current: Vec<Change> = Vec::new();
    let mut in_diff = false;
    let mut trail: usize = 0;
    let ghost mut from: int = 0;
    let ghost mut p: int = 0;
    let ghost mut q: int = 0;
    let mut i: usize = 0;
    proof {
        assert(hunk_views(hunks@) + groups_from(c, 0, ctx) =~= grouped(c, ctx));
    }
    while i < n
        invariant
            0 <= from <= i <= n,
            n == changes@.len(),
            c == change_views(changes@),
            ctx == context as int,
            change_views(current@) == c.subrange(from, i as int),
            hunk_views(hunks@) + groups_from(c, from, ctx) == grouped(c, ctx),
            !in_diff ==> trail == 0 && forall|k: int|
                from <= k < i ==> (#[trigger] c[k]).tag == Tag::Equal,
            in_diff ==> {
                &&& from <= p <= q < i
                &&& next_edit(c, from) == p
                &&& c[q].tag != Tag::Equal
                &&& forall|k: int| q < k < i ==> (#[trigger] c[k]).tag == Tag::Equal
                &&& trail == i - 1 - q
                &&& trail < reach(ctx)
                &&& cluster_end(c, p, ctx) == cluster_end(c, q, ctx)
            },
        decreases n - i,
    {
        let line = &changes[i];
        let ghost window = change_views(current@);
        current.push(line.clone());
        proof {
            assert(c[i as int] == changes@[i as int]@);
            assert(change_views(current@) =~= window.push(c[i as int]));
            assert(change_views(current@) =~= c.subrange(from, i + 1));
        }
        if line.tag == Tag::Equal {
            if in_diff {
                trail += 1;
                if trail >= context {
                    proof {
                        lemma_next_edit(c, q + 1);
                        lemma_next_edit(c, from);
                        lemma_trimmed_window(c, from, i + 1, p, q, ctx);
                        assert(cluster_end(c, q, ctx) == q);
                        assert(window_end(c, from, ctx) == i + 1);
                        assert(window_hunk(c, from, ctx) == c.subrange(
                            upper(from, p - ctx),
                            lower(q + ctx + 1, i + 1),
                        ));
                    }
                    let window = current;
                    current = Vec::new();
                    match trim(window, context) {
                        Some(hunk) => {
                            let ghost before = hunk_views(hunks@);
                            hunks.push(hunk);
                            proof {
                                assert(hunk_views(hunks@) =~= before.push(hunk@));
                                assert(hunk_views(hunks@) + groups_from(c, i + 1, ctx) =~= before
                                    + groups_from(c, from, ctx));
                            }
                        },
                        None => {},
                    }
                    in_diff = false;
                    trail = 0;
                    proof {
                        from = i + 1;
                        assert(change_views(current@) =~= c.subrange(from, i + 1));
                    }
                }
            }
        } else {
            proof {
                if in_diff {
                    lemma_next_edit_is(c, q + 1, i as int);
                } else {
                    lemma_next_edit_is(c, from, i as int);
                    p = i as int;
                }
                q = i as int;
            }
            in_diff = true;
            trail = 0;
        }
        i += 1;
    }
    if in_diff {
        proof {
            lemma_next_edit_is(c, q + 1, n as int);
            lemma_next_edit(c, from);
            lemma_trimmed_window(c, from, n as int, p, q, ctx);
            assert(cluster_end(c, q, ctx) == q);
            assert(window_end(c, from, ctx) == n);
            assert(groups_from(c, n as int, ctx) =~= Seq::<HunkView>::empty());
        }
        match trim(current, context) {
            Some(hunk) => {
                let ghost before = hunk_views(hunks@);
                hunks.push(hunk);
                proof {
                    assert(hunk_views(hunks@) =~= before.push(hunk@));
                    assert(hunk_views(hunks@) =~= before + groups_from(c, from, ctx));
                }
            },
            None => {},
        }
    } else {
        proof {
            lemma_next_edit_is(c, from, n as int);
            assert(hunk_views(hunks@) =~= hunk_views(hunks@) + groups_from(c, from, ctx));
        }
    }
    Ok(hunks)
}

/// A change stream without an edit has no hunks.
pub proof fn law_no_edits_no_hunks(c: Seq<ChangeView>, context: int)
    requires
        all_equal(c),
    ensures
        grouped(c, context).len() == 0,
{
    lemma_next_edit_is(c, 0, c.len() as int);
}

/// Every change of an edit script is well formed.
pub proof fn lemma_script_is_well_formed(
    c: Seq<ChangeView>,
    old: Seq<Seq<char>>,
    new: Seq<Seq<char>>,
)
    requires
        is_edit_script(c, old, new),
    ensures
        all_well_formed(c),
{
    assert forall|k: int| 0 <= k < c.len() implies (#[trigger] c[k]).well_formed() by {
        assert(script_entry(c, old, new, k));
    }
}

/// The hunks of the line diff between `original` and `candidate`: the
/// grouping of its change stream, which is an edit script between the lines
/// of the two texts. Such a stream is never refused, and equal texts have no
/// hunks. The two texts must be short enough to be compared; see
/// [`try_build_hunks`] for texts of any length.
pub fn build_hunks(original: &str, candidate: &str, context: usize) -> (res: Result<
    Vec<Hunk>,
    PatchError,
>)
    requires
        diffable(original@, candidate@),
    ensures
        res matches Ok(hunks) && hunk_views(hunks@) == grouped(
            line_changes(original@, candidate@),
            context as int,
        ),
        res is Ok ==> is_edit_script(
            line_changes(original@, candidate@),
            tokens_of(original@),
            tokens_of(candidate@),
        ),
        original@ == candidate@ ==> (res matches Ok(hunks) && hunks@.len() == 0),
{
    let changes = diff_lines(original, candidate);
    proof {
        let c = change_views(changes@);
        lemma_script_is_well_formed(c, tokens_of(original@), tokens_of(candidate@));
        if original@ == candidate@ {
            law_no_edits_no_hunks(c, context as int);
        }
    }
    group_changes(changes, context)
}

/// The hunks of the line diff between `original` and `candidate`, as
/// [`build_hunks`] gives them, or `None` if the two texts are too long to be
/// compared.
pub fn try_build_hunks(original: &str, candidate: &str, context: usize) -> (res: Option<
    Result<Vec<Hunk>, PatchError>,
>)
    ensures
        res is Some <==> diffable(original@, candidate@),
        res matches Some(built) ==> {
            &&& built matches Ok(hunks) && hunk_views(hunks@) == grouped(
                line_changes(original@, candidate@),
                context as int,
            )
            &&& is_edit_script(
                line_changes(original@, candidate@),
                tokens_of(original@),
                tokens_of(candidate@),
            )
            &&& original@ == candidate@ ==> (built matches Ok(hunks) && hunks@.len() == 0)
        },
{
    let limit: usize = 0xffff_ffff;
    let old_len = original.unicode_len();
    let new_len = candidate.unicode_len();
    if old_len <= limit && new_len <= limit - old_len {
        Some(build_hunks(original, candidate, context))
    } else {
        None
    }
}

} // verus!
