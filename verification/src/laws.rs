//! What holds of grouping, splitting and applying, whatever the input.

use crate::apply::{catch_up, emit_change, emit_changes, patched, run_hunk, run_hunks, Progress};
use crate::change::{
    anchor_of, first_anchored, lemma_first_anchored, ChangeView, Disposition, HunkView, Tag,
};
use crate::diff::{consumed, emitted, first_break, is_edit_script, script_entry, tokens_of};
use crate::edit::{checked_patch, first_mismatch, parsed_lines};
use crate::group::{
    cluster_end, grouped, groups_from, lemma_cluster_end, lemma_next_edit, lower, next_edit, reach,
    upper, window_end, window_hunk,
};
use crate::split::{closes, lemma_next_close, next_close, pieces, pieces_from};
use crate::text::{
    copied_lines, first_newline, lemma_copied_lines_split, lemma_first_newline, lines_of, strip_cr,
    strip_terminator, terminated,
};
use vstd::prelude::*;

verus! {

/// A text that the patch reproduces to the letter: empty or ending in a line
/// feed, and without a carriage return before a line feed.
pub open spec fn is_normal(s: Seq<char>) -> bool {
    &&& s.len() > 0 ==> s.last() == '\n'
    &&& forall|i: int| 0 <= i < s.len() - 1 && #[trigger] s[i] == '\r' ==> s[i + 1] != '\n'
}

/// The lines of a text, each with a line feed, one after another.
pub open spec fn rejoined(s: Seq<char>) -> Seq<char> {
    copied_lines(lines_of(s), 0, lines_of(s).len() as int)
}

/// Copying from a list with one more line in front is copying one place on.
pub proof fn lemma_copied_lines_shift(first: Seq<char>, rest: Seq<Seq<char>>, from: int, to: int)
    requires
        0 <= from,
    ensures
        copied_lines(seq![first] + rest, from + 1, to + 1) == copied_lines(rest, from, to),
    decreases to - from,
{
    let all = seq![first] + rest;
    if !(to > rest.len() || from >= to) {
        lemma_copied_lines_shift(first, rest, from + 1, to);
        assert(all[from + 1] == rest[from]);
    }
}

/// A normal text is its lines, each with a line feed, one after another.
pub proof fn lemma_normal_text_rejoins(s: Seq<char>)
    requires
        is_normal(s),
    ensures
        rejoined(s) == s,
    decreases s.len(),
{
    if s.len() == 0 {
        assert(rejoined(s) =~= s);
    } else {
        let n = first_newline(s);
        lemma_first_newline(s);
        assert(n < s.len()) by {
            if n >= s.len() {
                assert(s[s.len() - 1] != '\n');
            }
        }
        let head = s.subrange(0, n);
        let tail = s.subrange(n + 1, s.len() as int);
        assert(strip_cr(head) == head) by {
            if n > 0 {
                assert(head.last() == s[n - 1]);
            }
        }
        assert(is_normal(tail)) by {
            if tail.len() > 0 {
                assert(tail.last() == s.last());
            }
            assert forall|i: int|
                0 <= i < tail.len() - 1 && #[trigger] tail[i] == '\r' implies tail[i + 1]
                != '\n' by {
                assert(tail[i] == s[n + 1 + i]);
                assert(tail[i + 1] == s[n + 1 + i + 1]);
            }
        }
        lemma_normal_text_rejoins(tail);
        let lines = lines_of(s);
        let rest = lines_of(tail);
        assert(lines == seq![head] + rest);
        lemma_copied_lines_shift(head, rest, 0, rest.len() as int);
        assert(lines[0] == head);
        assert(rejoined(s) == terminated(head) + rejoined(tail));
        assert(terminated(head) + tail =~= s);
    }
}

/// No hunk of `hunks` is accepted.
pub open spec fn none_accepted(hunks: Seq<HunkView>) -> bool {
    forall|k: int| 0 <= k < hunks.len() ==> (#[trigger] hunks[k]).disposition != Disposition::Accept
}

/// Hunks of which none is accepted leave the progress of a patch as it is.
pub proof fn lemma_unaccepted_hunks_do_nothing(
    lines: Seq<Seq<char>>,
    st: Progress,
    hunks: Seq<HunkView>,
)
    requires
        none_accepted(hunks),
    ensures
        run_hunks(lines, st, hunks) == st,
    decreases hunks.len(),
{
    if hunks.len() > 0 {
        assert(hunks[0].disposition != Disposition::Accept);
        let rest = hunks.drop_first();
        assert forall|k: int| 0 <= k < rest.len() implies (#[trigger] rest[k]).disposition
            != Disposition::Accept by {
            assert(rest[k] == hunks[k + 1]);
        }
        lemma_unaccepted_hunks_do_nothing(lines, st, rest);
    }
}

/// Applying hunks of which none is accepted, or no hunks at all, gives the
/// lines of the original, each with a line feed.
pub proof fn law_without_accepted_hunks_the_lines_are_copied(
    original: Seq<char>,
    hunks: Seq<HunkView>,
)
    requires
        none_accepted(hunks),
    ensures
        patched(lines_of(original), hunks) == rejoined(original),
{
    let lines = lines_of(original);
    let start = Progress { out: Seq::empty(), cursor: 0 };
    lemma_unaccepted_hunks_do_nothing(lines, start, hunks);
    assert(start.out + copied_lines(lines, 0, lines.len() as int) =~= rejoined(original));
}

/// Applying hunks of which none is accepted, or no hunks at all, to a
/// normal text gives that text back, to the letter.
pub proof fn law_rejecting_every_hunk_keeps_the_original(original: Seq<char>, hunks: Seq<HunkView>)
    requires
        is_normal(original),
        none_accepted(hunks),
    ensures
        patched(lines_of(original), hunks) == original,
{
    law_without_accepted_hunks_the_lines_are_copied(original, hunks);
    lemma_normal_text_rejoins(original);
}

/// The changes of `c[i..j]` are all `Equal`.
pub open spec fn equal_run(c: Seq<ChangeView>, i: int, j: int) -> bool {
    forall|k: int| i <= k < j ==> (#[trigger] c[k]).tag == Tag::Equal
}

/// Between the edits of one hunk, fewer than `reach(context)` unchanged
/// lines stand in a row.
pub proof fn lemma_cluster_gaps(c: Seq<ChangeView>, p: int, context: int, i: int, j: int)
    requires
        0 <= p < c.len(),
        c[p].tag != Tag::Equal,
        p < i <= j <= cluster_end(c, p, context),
        equal_run(c, i, j),
    ensures
        j - i < reach(context),
    decreases c.len() - p,
{
    if i < j {
        let q = next_edit(c, p + 1);
        lemma_next_edit(c, p + 1);
        assert(p < q < c.len() && q - p - 1 < reach(context));
        lemma_cluster_end(c, q, context);
        if i < q {
            if j > q {
                assert(c[q].tag == Tag::Equal);
            }
        } else {
            assert(c[i].tag == Tag::Equal);
            lemma_cluster_gaps(c, q, context, i, j);
        }
    }
}

/// In the hunk of a window, no more than `context` unchanged lines stand in
/// a row.
pub proof fn lemma_window_runs(c: Seq<ChangeView>, from: int, context: int, i: int, j: int)
    requires
        0 <= from,
        0 <= context,
        next_edit(c, from) < c.len(),
        0 <= i <= j <= window_hunk(c, from, context).len(),
        equal_run(window_hunk(c, from, context), i, j),
    ensures
        j - i <= context,
{
    let p = next_edit(c, from);
    let q = cluster_end(c, p, context);
    lemma_next_edit(c, from);
    lemma_cluster_end(c, p, context);
    let s = upper(from, p - context);
    let e = lower(q + context + 1, c.len() as int);
    let hunk = window_hunk(c, from, context);
    assert(hunk == c.subrange(s, e));
    assert forall|k: int| s + i <= k < s + j implies (#[trigger] c[k]).tag == Tag::Equal by {
        assert(hunk[k - s] == c[k]);
    }
    if i < j {
        if s + j <= p {
        } else if s + i > q {
        } else {
            if s + i <= p {
                assert(c[p].tag == Tag::Equal);
            }
            if s + j > q {
                assert(c[q].tag == Tag::Equal);
            }
            lemma_cluster_gaps(c, p, context, s + i, s + j);
        }
    }
}

/// In the `h`-th hunk of the windows from `from` on, no more than `context`
/// unchanged lines stand in a row.
pub proof fn lemma_group_runs(c: Seq<ChangeView>, from: int, context: int, h: int, i: int, j: int)
    requires
        0 <= from,
        0 <= context,
        0 <= h < groups_from(c, from, context).len(),
        0 <= i <= j <= groups_from(c, from, context)[h].changes.len(),
        equal_run(groups_from(c, from, context)[h].changes, i, j),
    ensures
        j - i <= context,
    decreases h,
{
    if h == 0 {
        lemma_window_runs(c, from, context, i, j);
    } else {
        let next = window_end(c, from, context);
        lemma_next_edit(c, from);
        lemma_cluster_end(c, next_edit(c, from), context);
        assert(groups_from(c, from, context)[h] == groups_from(c, next, context)[h - 1]);
        lemma_group_runs(c, next, context, h - 1, i, j);
    }
}

/// No hunk holds more than `context` unchanged lines in a row: not before
/// its first edit, not after its last, and not between two of its edits.
pub proof fn law_context_bound(c: Seq<ChangeView>, context: int, h: int, i: int, j: int)
    requires
        0 <= context,
        0 <= h < grouped(c, context).len(),
        0 <= i <= j <= grouped(c, context)[h].changes.len(),
        equal_run(grouped(c, context)[h].changes, i, j),
    ensures
        j - i <= context,
{
    lemma_group_runs(c, 0, context, h, i, j);
}

/// A text whose lines the diff and the patch cut alike: empty or ending in
/// a line feed, and without a carriage return.
pub open spec fn is_clean(s: Seq<char>) -> bool {
    &&& s.len() > 0 ==> s.last() == '\n'
    &&& forall|i: int| 0 <= i < s.len() ==> #[trigger] s[i] != '\r'
}

/// The pieces of a list, one after another.
pub open spec fn concat(pieces: Seq<Seq<char>>) -> Seq<char>
    decreases pieces.len(),
{
    if pieces.len() == 0 {
        Seq::empty()
    } else {
        pieces[0] + concat(pieces.drop_first())
    }
}

/// What the changes `c[from..to]` give to the candidate text: the texts of
/// those that are not `Delete`, one after another.
pub open spec fn new_text(c: Seq<ChangeView>, from: int, to: int) -> Seq<char>
    decreases to - from,
{
    if from < 0 || to > c.len() || from >= to {
        Seq::empty()
    } else if c[from].emits() {
        c[from].text + new_text(c, from + 1, to)
    } else {
        new_text(c, from + 1, to)
    }
}

/// The same hunks, every one accepted.
pub open spec fn accepted(hunks: Seq<HunkView>) -> Seq<HunkView> {
    hunks.map_values(
        |h: HunkView| HunkView { changes: h.changes, disposition: Disposition::Accept },
    )
}

pub proof fn lemma_first_break(s: Seq<char>)
    ensures
        0 <= first_break(s) <= s.len(),
        forall|j: int| 0 <= j < first_break(s) ==> #[trigger] s[j] != '\n' && s[j] != '\r',
        first_break(s) < s.len() ==> s[first_break(s)] == '\n' || s[first_break(s)] == '\r',
    decreases s.len(),
{
    if s.len() > 0 && s[0] != '\n' && s[0] != '\r' {
        let rest = s.drop_first();
        lemma_first_break(rest);
        assert forall|j: int| 0 <= j < first_break(s) implies #[trigger] s[j] != '\n' && s[j]
            != '\r' by {
            if j > 0 {
                assert(s[j] == rest[j - 1]);
            }
        }
        if first_break(rest) < rest.len() {
            assert(s[first_break(s)] == rest[first_break(rest)]);
        }
    }
}

/// The pieces of a text, one after another, are the text.
pub proof fn lemma_tokens_concat(s: Seq<char>)
    ensures
        concat(tokens_of(s)) == s,
    decreases s.len(),
{
    if s.len() == 0 {
        assert(concat(tokens_of(s)) =~= s);
    } else {
        let n = first_break(s);
        lemma_first_break(s);
        if n >= s.len() {
            let one = seq![s];
            assert(tokens_of(s) == one);
            assert(one[0] == s);
            assert(one.drop_first() =~= Seq::<Seq<char>>::empty());
            assert(concat(one.drop_first()) =~= Seq::<char>::empty());
            assert(concat(one) =~= s);
        } else {
            let end = if s[n] == '\r' && n + 1 < s.len() && s[n + 1] == '\n' {
                n + 2
            } else {
                n + 1
            };
            let head = s.subrange(0, end);
            let tail = s.subrange(end, s.len() as int);
            lemma_tokens_concat(tail);
            let all = seq![head] + tokens_of(tail);
            assert(tokens_of(s) == all);
            assert(all.drop_first() =~= tokens_of(tail));
            assert(head + tail =~= s);
        }
    }
}

/// In a text without carriage returns the first break is the first line feed.
pub proof fn lemma_break_is_newline(s: Seq<char>)
    requires
        forall|i: int| 0 <= i < s.len() ==> #[trigger] s[i] != '\r',
    ensures
        first_break(s) == first_newline(s),
    decreases s.len(),
{
    if s.len() > 0 && s[0] != '\n' {
        let rest = s.drop_first();
        assert forall|i: int| 0 <= i < rest.len() implies #[trigger] rest[i] != '\r' by {
            assert(rest[i] == s[i + 1]);
        }
        lemma_break_is_newline(rest);
    }
}

/// The pieces of a clean text are its lines, each with a line feed.
pub proof fn lemma_clean_tokens(s: Seq<char>)
    requires
        is_clean(s),
    ensures
        tokens_of(s).len() == lines_of(s).len(),
        forall|k: int|
            0 <= k < lines_of(s).len() ==> #[trigger] tokens_of(s)[k] == terminated(lines_of(s)[k]),
    decreases s.len(),
{
    if s.len() > 0 {
        let n = first_newline(s);
        lemma_first_newline(s);
        lemma_break_is_newline(s);
        assert(n < s.len()) by {
            if n >= s.len() {
                assert(s[s.len() - 1] != '\n');
            }
        }
        let head = s.subrange(0, n);
        let tail = s.subrange(n + 1, s.len() as int);
        assert(strip_cr(head) == head) by {
            if n > 0 {
                assert(head.last() == s[n - 1]);
            }
        }
        assert(is_clean(tail)) by {
            if tail.len() > 0 {
                assert(tail.last() == s.last());
            }
            assert forall|i: int| 0 <= i < tail.len() implies #[trigger] tail[i] != '\r' by {
                assert(tail[i] == s[n + 1 + i]);
            }
        }
        lemma_clean_tokens(tail);
        let tokens = tokens_of(s);
        let lines = lines_of(s);
        assert(tokens == seq![s.subrange(0, n + 1)] + tokens_of(tail));
        assert(lines == seq![head] + lines_of(tail));
        assert(s.subrange(0, n + 1) =~= terminated(head));
        assert forall|k: int| 0 <= k < lines.len() implies #[trigger] tokens[k] == terminated(
            lines[k],
        ) by {
            if k > 0 {
                assert(tokens[k] == tokens_of(tail)[k - 1]);
                assert(lines[k] == lines_of(tail)[k - 1]);
            }
        }
    }
}

pub proof fn lemma_counts(c: Seq<ChangeView>, i: int, j: int)
    requires
        0 <= i <= j <= c.len(),
    ensures
        0 <= consumed(c, i) <= consumed(c, j) <= consumed(c, i) + (j - i),
        0 <= emitted(c, i) <= emitted(c, j) <= emitted(c, i) + (j - i),
    decreases j,
{
    if i < j {
        lemma_counts(c, i, j - 1);
    } else if i > 0 {
        lemma_counts(c, i - 1, i - 1);
    }
}

/// What the changes `c[i..j]` give is what `c[i..m]` and then `c[m..j]` give.
pub proof fn lemma_new_text_split(c: Seq<ChangeView>, i: int, m: int, j: int)
    requires
        0 <= i <= m <= j <= c.len(),
    ensures
        new_text(c, i, j) == new_text(c, i, m) + new_text(c, m, j),
    decreases m - i,
{
    if i < m {
        lemma_new_text_split(c, i + 1, m, j);
        if c[i].emits() {
            assert(new_text(c, i, j) =~= c[i].text + (new_text(c, i + 1, m) + new_text(c, m, j)));
            assert(new_text(c, i, m) + new_text(c, m, j) =~= c[i].text + (new_text(c, i + 1, m)
                + new_text(c, m, j)));
        }
    } else {
        assert(new_text(c, i, m) =~= Seq::<char>::empty());
        assert(new_text(c, i, j) =~= Seq::<char>::empty() + new_text(c, m, j));
    }
}

/// What an edit script gives from `k` on is the rest of the new pieces.
pub proof fn lemma_new_text_of_script(
    c: Seq<ChangeView>,
    old: Seq<Seq<char>>,
    new: Seq<Seq<char>>,
    k: int,
)
    requires
        is_edit_script(c, old, new),
        0 <= k <= c.len(),
    ensures
        new_text(c, k, c.len() as int) == concat(new.skip(emitted(c, k))),
    decreases c.len() - k,
{
    lemma_counts(c, k, c.len() as int);
    let j = emitted(c, k);
    if k == c.len() {
        assert(new.skip(j) =~= Seq::<Seq<char>>::empty());
    } else {
        assert(script_entry(c, old, new, k));
        lemma_new_text_of_script(c, old, new, k + 1);
        if c[k].emits() {
            assert(new.skip(j)[0] == new[j]);
            assert(new.skip(j).drop_first() =~= new.skip(j + 1));
        }
    }
}

/// `c` is an edit script from `old` to `new`, and the pieces of `old` are
/// `lines`, each with a line feed.
pub open spec fn script_over_lines(
    c: Seq<ChangeView>,
    lines: Seq<Seq<char>>,
    old: Seq<Seq<char>>,
    new: Seq<Seq<char>>,
) -> bool {
    &&& is_edit_script(c, old, new)
    &&& old.len() == lines.len()
    &&& forall|k: int| 0 <= k < lines.len() ==> #[trigger] old[k] == terminated(lines[k])
}

/// A run of `Equal` changes of an edit script gives what copying the
/// original lines that it passes over gives.
pub proof fn lemma_equal_run_copies(
    c: Seq<ChangeView>,
    lines: Seq<Seq<char>>,
    old: Seq<Seq<char>>,
    new: Seq<Seq<char>>,
    i: int,
    j: int,
)
    requires
        script_over_lines(c, lines, old, new),
        0 <= i <= j <= c.len(),
        equal_run(c, i, j),
    ensures
        consumed(c, j) == consumed(c, i) + (j - i),
        consumed(c, j) <= lines.len(),
        copied_lines(lines, consumed(c, i), consumed(c, j)) == new_text(c, i, j),
    decreases j - i,
{
    lemma_counts(c, i, j);
    lemma_counts(c, j, c.len() as int);
    if i < j {
        assert(script_entry(c, old, new, i));
        assert(c[i].tag == Tag::Equal);
        assert(equal_run(c, i + 1, j));
        lemma_equal_run_copies(c, lines, old, new, i + 1, j);
        assert(consumed(c, i + 1) == consumed(c, i) + 1);
        assert(old[consumed(c, i)] == terminated(lines[consumed(c, i)]));
    } else {
        assert(copied_lines(lines, consumed(c, i), consumed(c, j)) =~= new_text(c, i, j));
    }
}

/// Applying the changes `c[i..j]` writes what they give to the candidate
/// and passes over the original lines that they consume.
pub proof fn lemma_emit_range(c: Seq<ChangeView>, st: Progress, i: int, j: int)
    requires
        0 <= i <= j <= c.len(),
    ensures
        emit_changes(st, c.subrange(i, j)) == (Progress {
            out: st.out + new_text(c, i, j),
            cursor: st.cursor + (consumed(c, j) - consumed(c, i)),
        }),
    decreases j - i,
{
    let x = c.subrange(i, j);
    if i < j {
        assert(x[0] == c[i]);
        assert(x.drop_first() =~= c.subrange(i + 1, j));
        let st1 = emit_change(st, c[i]);
        lemma_emit_range(c, st1, i + 1, j);
        assert(consumed(c, i + 1) == consumed(c, i) + if c[i].consumes() {
            1int
        } else {
            0int
        });
        assert(st1.out + new_text(c, i + 1, j) =~= st.out + new_text(c, i, j));
    } else {
        assert(st.out + new_text(c, i, j) =~= st.out);
    }
}

/// The anchor of a stretch of an edit script, if it has one, is the
/// original line that the script has come to where the stretch starts.
pub proof fn lemma_anchor_of_range(
    c: Seq<ChangeView>,
    old: Seq<Seq<char>>,
    new: Seq<Seq<char>>,
    s: int,
    e: int,
)
    requires
        is_edit_script(c, old, new),
        0 <= s <= e <= c.len(),
    ensures
        anchor_of(c.subrange(s, e)) matches Some(a) ==> a as int == consumed(c, s),
        s < e && c[s].consumes() ==> anchor_of(c.subrange(s, e)) is Some,
    decreases e - s,
{
    let x = c.subrange(s, e);
    lemma_counts(c, s, s);
    if s < e {
        assert(x[0] == c[s]);
        assert(script_entry(c, old, new, s));
        if c[s].old_index is None {
            let rest = x.drop_first();
            assert(rest =~= c.subrange(s + 1, e));
            lemma_anchor_of_range(c, old, new, s + 1, e);
            assert(consumed(c, s + 1) == consumed(c, s));
            lemma_first_anchored(rest);
            if first_anchored(rest) < rest.len() {
                assert(x[1 + first_anchored(rest)] == rest[first_anchored(rest)]);
            }
        }
    }
}

/// With every hunk accepted, applying the hunks of the windows from `from`
/// on, and then copying what is left of the original, writes what the
/// changes from `from` on give to the candidate.
pub proof fn lemma_accepted_windows(
    c: Seq<ChangeView>,
    lines: Seq<Seq<char>>,
    old: Seq<Seq<char>>,
    new: Seq<Seq<char>>,
    context: int,
    from: int,
    st: Progress,
)
    requires
        script_over_lines(c, lines, old, new),
        1 <= context,
        0 <= from <= c.len(),
        st.cursor == consumed(c, from),
    ensures
        ({
            let end = run_hunks(lines, st, accepted(groups_from(c, from, context)));
            end.out + copied_lines(lines, end.cursor, lines.len() as int) == st.out + new_text(
                c,
                from,
                c.len() as int,
            )
        }),
    decreases c.len() - from,
{
    let n = c.len() as int;
    let p = next_edit(c, from);
    lemma_next_edit(c, from);
    let groups = groups_from(c, from, context);
    if p >= n {
        assert(accepted(groups) =~= Seq::<HunkView>::empty());
        assert(equal_run(c, from, n));
        lemma_equal_run_copies(c, lines, old, new, from, n);
    } else {
        let q = cluster_end(c, p, context);
        lemma_cluster_end(c, p, context);
        let s = upper(from, p - context);
        let e = lower(q + context + 1, n);
        assert(window_end(c, from, context) == e);
        let hunk = HunkView { changes: c.subrange(s, e), disposition: Disposition::Accept };
        let rest = groups_from(c, e, context);
        assert(accepted(groups)[0] == hunk);
        assert(accepted(groups).drop_first() =~= accepted(rest));
        // Catching up to the hunk copies the unchanged lines before it.
        assert(equal_run(c, from, s));
        lemma_equal_run_copies(c, lines, old, new, from, s);
        lemma_anchor_of_range(c, old, new, s, e);
        let caught = catch_up(lines, st, anchor_of(hunk.changes));
        assert(caught == (Progress { out: st.out + new_text(c, from, s), cursor: consumed(c, s) }))
            by {
            if from < s {
                assert(c[s].tag == Tag::Equal);
            } else {
                assert(new_text(c, from, s) =~= Seq::<char>::empty());
                assert(st.out + new_text(c, from, s) =~= st.out);
            }
        }
        lemma_emit_range(c, caught, s, e);
        lemma_new_text_split(c, from, s, e);
        let after = run_hunk(lines, st, hunk);
        assert(after.out =~= st.out + new_text(c, from, e));
        assert(after.cursor == consumed(c, e));
        lemma_accepted_windows(c, lines, old, new, context, e, after);
        lemma_new_text_split(c, from, e, n);
        assert(after.out + new_text(c, e, n) =~= st.out + new_text(c, from, n));
    }
}

/// Accepting every hunk of the diff between a clean original and a
/// candidate, built with at least one line of context, and applying them to
/// the original gives the candidate, to the letter.
pub proof fn law_accepting_every_hunk_gives_the_candidate(
    original: Seq<char>,
    candidate: Seq<char>,
    c: Seq<ChangeView>,
    context: int,
)
    requires
        is_clean(original),
        1 <= context,
        is_edit_script(c, tokens_of(original), tokens_of(candidate)),
    ensures
        patched(lines_of(original), accepted(grouped(c, context))) == candidate,
{
    let lines = lines_of(original);
    let old = tokens_of(original);
    let new = tokens_of(candidate);
    lemma_clean_tokens(original);
    let start = Progress { out: Seq::empty(), cursor: 0 };
    lemma_accepted_windows(c, lines, old, new, context, 0, start);
    lemma_new_text_of_script(c, old, new, 0);
    assert(new.skip(0) =~= new);
    lemma_tokens_concat(candidate);
    assert(start.out + new_text(c, 0, c.len() as int) =~= candidate);
}

/// The change at `k` is in step with its hunk: if it consumes a line it
/// names one, and it names no line beyond the one that the walk from the
/// hunk's anchor has come to.
pub open spec fn step_entry(x: Seq<ChangeView>, k: int) -> bool {
    &&& x[k].consumes() ==> x[k].old_index is Some
    &&& x[k].old_index matches Some(o) ==> (anchor_of(x) matches Some(base) && o <= base
        + consumed(x, k))
}

/// Every change of the hunk is in step with it.
pub open spec fn in_step(x: Seq<ChangeView>) -> bool {
    forall|k: int| 0 <= k < x.len() ==> #[trigger] step_entry(x, k)
}

/// The `Equal` changes of a hunk whose changes start to apply at line `at`
/// are the original lines that they stand at, each with a line feed.
pub open spec fn fits(lines: Seq<Seq<char>>, x: Seq<ChangeView>, at: int) -> bool {
    forall|k: int|
        0 <= k < x.len() && (#[trigger] x[k]).tag == Tag::Equal ==> {
            &&& 0 <= at + consumed(x, k) < lines.len()
            &&& x[k].text == terminated(lines[at + consumed(x, k)])
        }
}

/// The original line at which the changes of a hunk start to apply, when the
/// patch has come to `st`.
pub open spec fn start_of(lines: Seq<Seq<char>>, st: Progress, x: Seq<ChangeView>) -> int {
    catch_up(lines, st, anchor_of(x)).cursor
}

/// A run of `Equal` changes that fit the original gives what copying the
/// lines that it passes over gives.
pub proof fn lemma_fitting_run(lines: Seq<Seq<char>>, x: Seq<ChangeView>, at: int, i: int, j: int)
    requires
        fits(lines, x, at),
        0 <= at,
        0 <= i <= j <= x.len(),
        equal_run(x, i, j),
    ensures
        consumed(x, j) == consumed(x, i) + (j - i),
        i < j ==> at + consumed(x, j) <= lines.len(),
        new_text(x, i, j) == copied_lines(lines, at + consumed(x, i), at + consumed(x, j)),
    decreases j - i,
{
    lemma_counts(x, i, j);
    if i < j {
        assert(x[i].tag == Tag::Equal);
        assert(equal_run(x, i + 1, j));
        lemma_fitting_run(lines, x, at, i + 1, j);
        assert(consumed(x, i + 1) == consumed(x, i) + 1);
    } else {
        assert(new_text(x, i, j) =~= copied_lines(
            lines,
            at + consumed(x, i),
            at + consumed(x, j),
        ));
    }
}

/// Where no change closes a piece, an edit is followed by edits to the end.
pub proof fn lemma_edits_run_to_the_end(x: Seq<ChangeView>, from: int, k: int)
    requires
        0 <= from <= k < x.len(),
        forall|m: int| from <= m < x.len() ==> !#[trigger] closes(x, m),
        x[k].tag != Tag::Equal,
    ensures
        x.last().tag != Tag::Equal,
    decreases x.len() - k,
{
    if k < x.len() - 1 {
        assert(!closes(x, k + 1));
        lemma_edits_run_to_the_end(x, from, k + 1);
    }
}

/// The first change that names an original line is at `k` if it names one
/// and none before it does.
pub proof fn lemma_first_anchored_is(x: Seq<ChangeView>, k: int)
    requires
        0 <= k < x.len(),
        x[k].old_index is Some,
        forall|j: int| 0 <= j < k ==> (#[trigger] x[j]).old_index is None,
    ensures
        first_anchored(x) == k,
    decreases k,
{
    if k > 0 {
        let rest = x.drop_first();
        assert(x[0].old_index is None);
        assert(rest[k - 1] == x[k]);
        assert forall|j: int| 0 <= j < k - 1 implies (#[trigger] rest[j]).old_index is None by {
            assert(rest[j] == x[j + 1]);
        }
        lemma_first_anchored_is(rest, k - 1);
    }
}

/// Changes that name no original line consume none, in a hunk in step.
pub proof fn lemma_unanchored_consume_nothing(x: Seq<ChangeView>, from: int, k: int)
    requires
        in_step(x),
        0 <= from <= k <= x.len(),
        forall|j: int| from <= j < k ==> (#[trigger] x[j]).old_index is None,
    ensures
        consumed(x, k) == consumed(x, from),
    decreases k - from,
{
    if from < k {
        lemma_unanchored_consume_nothing(x, from, k - 1);
        assert(step_entry(x, k - 1));
        assert(x[k - 1].old_index is None);
    }
}

/// The anchor of a stretch of a hunk in step is not beyond the line that
/// the walk has come to where the stretch starts.
pub proof fn lemma_piece_anchor_behind(x: Seq<ChangeView>, from: int, to: int)
    requires
        in_step(x),
        0 <= from <= to <= x.len(),
    ensures
        anchor_of(x.subrange(from, to)) matches Some(o) ==> (anchor_of(x) matches Some(base) && o
            <= base + consumed(x, from)),
{
    let y = x.subrange(from, to);
    let f = first_anchored(y);
    lemma_first_anchored(y);
    if f < y.len() {
        assert forall|j: int| from <= j < from + f implies (#[trigger] x[j]).old_index is None by {
            assert(y[j - from] == x[j]);
        }
        lemma_unanchored_consume_nothing(x, from, from + f);
        assert(y[f] == x[from + f]);
        assert(step_entry(x, from + f));
    }
}

/// Applying two lists of hunks one after the other is applying the one list
/// that they make.
pub proof fn lemma_run_hunks_concat(
    lines: Seq<Seq<char>>,
    st: Progress,
    a: Seq<HunkView>,
    b: Seq<HunkView>,
)
    ensures
        run_hunks(lines, st, a + b) == run_hunks(lines, run_hunks(lines, st, a), b),
    decreases a.len(),
{
    if a.len() == 0 {
        assert(a + b =~= b);
    } else {
        assert((a + b)[0] == a[0]);
        assert((a + b).drop_first() =~= a.drop_first() + b);
        lemma_run_hunks_concat(lines, run_hunk(lines, st, a[0]), a.drop_first(), b);
    }
}

/// The text that a patch ends with once the rest of the original is
/// copied.
pub open spec fn finished(lines: Seq<Seq<char>>, st: Progress) -> Seq<char> {
    st.out + copied_lines(lines, st.cursor, lines.len() as int)
}

/// The same changes as an accepted hunk.
pub open spec fn accepted_hunk(x: Seq<ChangeView>) -> HunkView {
    HunkView { changes: x, disposition: Disposition::Accept }
}

/// Where no change from `from` on closes a piece and the last change is
/// `Equal`, every change from `from` on is `Equal`.
pub proof fn lemma_no_close_all_equal(x: Seq<ChangeView>, from: int)
    requires
        0 <= from < x.len(),
        forall|m: int| from <= m < x.len() ==> !#[trigger] closes(x, m),
        x.last().tag == Tag::Equal,
    ensures
        equal_run(x, from, x.len() as int),
{
    assert forall|k: int| from <= k < x.len() implies (#[trigger] x[k]).tag == Tag::Equal by {
        if x[k].tag != Tag::Equal {
            lemma_edits_run_to_the_end(x, from, k);
        }
    }
}

/// A stretch of a hunk in step, accepted as a hunk of its own and applied
/// where the walk through the hunk has come to its start, applies its
/// changes and copies nothing before them.
pub proof fn lemma_piece_applies(
    lines: Seq<Seq<char>>,
    x: Seq<ChangeView>,
    at: int,
    from: int,
    to: int,
    cur: Progress,
)
    requires
        in_step(x),
        0 <= from <= to <= x.len(),
        cur.cursor == at + consumed(x, from),
        anchor_of(x) matches Some(base) ==> base <= at,
    ensures
        run_hunk(lines, cur, accepted_hunk(x.subrange(from, to))) == (Progress {
            out: cur.out + new_text(x, from, to),
            cursor: at + consumed(x, to),
        }),
{
    lemma_piece_anchor_behind(x, from, to);
    assert(catch_up(lines, cur, anchor_of(x.subrange(from, to))) == cur);
    lemma_emit_range(x, cur, from, to);
}

/// Unchanged lines at the end of a hunk that fits give what copying the
/// original gives.
pub proof fn lemma_trailing_equals(
    lines: Seq<Seq<char>>,
    x: Seq<ChangeView>,
    at: int,
    from: int,
    cur: Progress,
)
    requires
        fits(lines, x, at),
        0 <= at,
        0 <= from <= x.len(),
        equal_run(x, from, x.len() as int),
        cur.cursor == at + consumed(x, from),
    ensures
        finished(lines, cur) == cur.out + new_text(x, from, x.len() as int) + copied_lines(
            lines,
            at + consumed(x, x.len() as int),
            lines.len() as int,
        ),
{
    let n = x.len() as int;
    let total = lines.len() as int;
    lemma_counts(x, 0, from);
    lemma_fitting_run(lines, x, at, from, n);
    if from < n {
        lemma_copied_lines_split(lines, cur.cursor, at + consumed(x, n), total);
        assert(finished(lines, cur) =~= cur.out + new_text(x, from, n) + copied_lines(
            lines,
            at + consumed(x, n),
            total,
        ));
    } else {
        assert(new_text(x, from, n) =~= Seq::<char>::empty());
        assert(finished(lines, cur) =~= cur.out + new_text(x, from, n) + copied_lines(
            lines,
            at + consumed(x, n),
            total,
        ));
    }
}

/// The pieces of a hunk from `from` on, all accepted and applied after the
/// changes before `from`, write what those changes give, up to unchanged
/// lines at the end that the original gives as well.
pub proof fn lemma_later_pieces(
    lines: Seq<Seq<char>>,
    x: Seq<ChangeView>,
    at: int,
    from: int,
    cur: Progress,
)
    requires
        in_step(x),
        fits(lines, x, at),
        0 <= at,
        0 <= from <= x.len(),
        cur.cursor == at + consumed(x, from),
        anchor_of(x) matches Some(base) ==> base <= at,
    ensures
        finished(lines, run_hunks(lines, cur, accepted(pieces_from(x, from)))) == cur.out
            + new_text(x, from, x.len() as int) + copied_lines(
            lines,
            at + consumed(x, x.len() as int),
            lines.len() as int,
        ),
    decreases x.len() - from,
{
    let n = x.len() as int;
    let total = lines.len() as int;
    let parts = pieces_from(x, from);
    let tail = copied_lines(lines, at + consumed(x, n), total);
    if from >= n {
        assert(accepted(parts) =~= Seq::<HunkView>::empty());
        assert(equal_run(x, from, n));
        lemma_trailing_equals(lines, x, at, from, cur);
    } else {
        let e = next_close(x, from);
        lemma_next_close(x, from);
        if e < n {
            let rest = pieces_from(x, e + 1);
            let first = accepted_hunk(x.subrange(from, e + 1));
            assert(accepted(parts)[0] == first);
            assert(accepted(parts).drop_first() =~= accepted(rest));
            lemma_piece_applies(lines, x, at, from, e + 1, cur);
            let after = run_hunk(lines, cur, first);
            assert(run_hunks(lines, cur, accepted(parts)) == run_hunks(
                lines,
                after,
                accepted(rest),
            ));
            lemma_later_pieces(lines, x, at, e + 1, after);
            lemma_new_text_split(x, from, e + 1, n);
            assert(after.out + new_text(x, e + 1, n) + tail =~= cur.out + new_text(x, from, n)
                + tail);
        } else if x.last().tag != Tag::Equal {
            let first = accepted_hunk(x.subrange(from, n));
            assert(accepted(parts)[0] == first);
            assert(accepted(parts).drop_first() =~= Seq::<HunkView>::empty());
            lemma_piece_applies(lines, x, at, from, n, cur);
            let after = run_hunk(lines, cur, first);
            assert(run_hunks(lines, after, accepted(parts).drop_first()) == after);
            assert(run_hunks(lines, cur, accepted(parts)) == after);
            assert(finished(lines, after) =~= cur.out + new_text(x, from, n) + tail);
        } else {
            assert(accepted(parts) =~= Seq::<HunkView>::empty());
            lemma_no_close_all_equal(x, from);
            lemma_trailing_equals(lines, x, at, from, cur);
        }
    }
}

/// Copying before a hunk's changes and then to the end is copying to the
/// end, where the hunk's first change is an unchanged line that fits.
pub proof fn lemma_caught_up_copy(lines: Seq<Seq<char>>, st: Progress, x: Seq<ChangeView>)
    requires
        0 <= st.cursor,
        in_step(x),
        fits(lines, x, start_of(lines, st, x)),
        x.len() > 0,
        x[0].tag == Tag::Equal,
    ensures
        finished(lines, catch_up(lines, st, anchor_of(x))) == finished(lines, st),
{
    let caught = catch_up(lines, st, anchor_of(x));
    let at = caught.cursor;
    let total = lines.len() as int;
    assert(step_entry(x, 0));
    if st.cursor < at {
        assert(at + consumed(x, 0) < total);
        lemma_copied_lines_split(lines, st.cursor, at, total);
        assert(finished(lines, caught) =~= finished(lines, st));
    }
}

/// A hunk and its pieces, accepted and applied from the same progress on,
/// lead to the same text once the rest of the original is copied.
pub proof fn lemma_split_keeps_the_end(lines: Seq<Seq<char>>, st: Progress, x: Seq<ChangeView>)
    requires
        0 <= st.cursor,
        in_step(x),
        fits(lines, x, start_of(lines, st, x)),
    ensures
        finished(lines, run_hunk(lines, st, accepted_hunk(x))) == finished(
            lines,
            run_hunks(lines, st, accepted(pieces(x))),
        ),
{
    let n = x.len() as int;
    let total = lines.len() as int;
    let caught = catch_up(lines, st, anchor_of(x));
    let at = caught.cursor;
    let whole = run_hunk(lines, st, accepted_hunk(x));
    let parts = pieces(x);
    let tail = copied_lines(lines, at + consumed(x, n), total);
    assert(x.subrange(0, n) =~= x);
    lemma_emit_range(x, caught, 0, n);
    assert(finished(lines, whole) =~= caught.out + new_text(x, 0, n) + tail);
    lemma_first_anchored(x);
    if n == 0 {
        assert(accepted(parts) =~= Seq::<HunkView>::empty());
        assert(finished(lines, whole) =~= finished(lines, st));
    } else {
        let e = next_close(x, 0);
        lemma_next_close(x, 0);
        if e < n {
            let piece = x.subrange(0, e + 1);
            let rest = pieces_from(x, e + 1);
            let first = accepted_hunk(piece);
            assert(accepted(parts)[0] == first);
            assert(accepted(parts).drop_first() =~= accepted(rest));
            lemma_prefix_anchor(x, e);
            lemma_emit_range(x, caught, 0, e + 1);
            let after = run_hunk(lines, st, first);
            assert(after == emit_changes(caught, piece));
            assert(run_hunks(lines, st, accepted(parts)) == run_hunks(
                lines,
                after,
                accepted(rest),
            ));
            lemma_later_pieces(lines, x, at, e + 1, after);
            lemma_new_text_split(x, 0, e + 1, n);
            assert(after.out + new_text(x, e + 1, n) + tail =~= caught.out + new_text(x, 0, n)
                + tail);
        } else if x.last().tag != Tag::Equal {
            let first = accepted_hunk(x);
            assert(accepted(parts)[0] == first);
            assert(accepted(parts).drop_first() =~= Seq::<HunkView>::empty());
            assert(run_hunks(lines, whole, accepted(parts).drop_first()) == whole);
            assert(run_hunks(lines, st, accepted(parts)) == whole);
        } else {
            assert(accepted(parts) =~= Seq::<HunkView>::empty());
            lemma_no_close_all_equal(x, 0);
            lemma_trailing_equals(lines, x, at, 0, caught);
            lemma_caught_up_copy(lines, st, x);
        }
    }
}

/// A stretch from the start of a hunk that ends with a change that
/// consumes a line has the hunk's anchor.
pub proof fn lemma_prefix_anchor(x: Seq<ChangeView>, e: int)
    requires
        in_step(x),
        0 <= e < x.len(),
        x[e].consumes(),
    ensures
        anchor_of(x.subrange(0, e + 1)) == anchor_of(x),
{
    let piece = x.subrange(0, e + 1);
    lemma_first_anchored(x);
    assert(step_entry(x, e));
    let f = first_anchored(x);
    assert(f <= e) by {
        if f > e {
            assert(x[e].old_index is None);
        }
    }
    assert(piece[f] == x[f]);
    assert forall|j: int| 0 <= j < f implies (#[trigger] piece[j]).old_index is None by {
        assert(piece[j] == x[j]);
    }
    lemma_first_anchored_is(piece, f);
}

/// Splitting keeps the patched text: where a hunk is in step and fits the
/// original at the line where it starts to apply, accepting its pieces in
/// its place gives the text that accepting the hunk gives, whatever hunks
/// were applied before it.
pub proof fn law_split_keeps_the_patched_text(
    lines: Seq<Seq<char>>,
    before: Seq<HunkView>,
    x: Seq<ChangeView>,
)
    requires
        in_step(x),
        0 <= run_hunks(lines, Progress { out: Seq::empty(), cursor: 0 }, before).cursor,
        fits(
            lines,
            x,
            start_of(lines, run_hunks(lines, Progress { out: Seq::empty(), cursor: 0 }, before), x),
        ),
    ensures
        patched(lines, before.push(accepted_hunk(x))) == patched(
            lines,
            before + accepted(pieces(x)),
        ),
{
    let start = Progress { out: Seq::empty(), cursor: 0 };
    let st = run_hunks(lines, start, before);
    let one = seq![accepted_hunk(x)];
    lemma_run_hunks_concat(lines, start, before, one);
    lemma_run_hunks_concat(lines, start, before, accepted(pieces(x)));
    assert(before.push(accepted_hunk(x)) =~= before + one);
    assert(one[0] == accepted_hunk(x));
    assert(one.drop_first() =~= Seq::<HunkView>::empty());
    assert(run_hunks(lines, st, one) == run_hunk(lines, st, accepted_hunk(x))) by {
        let after = run_hunk(lines, st, one[0]);
        assert(run_hunks(lines, after, one.drop_first()) == after);
    }
    lemma_split_keeps_the_end(lines, st, x);
}

/// Counting within a stretch of changes is counting in the whole from where
/// the stretch starts.
pub proof fn lemma_consumed_in_stretch(c: Seq<ChangeView>, s: int, e: int, k: int)
    requires
        0 <= s <= e <= c.len(),
        0 <= k <= e - s,
    ensures
        consumed(c.subrange(s, e), k) == consumed(c, s + k) - consumed(c, s),
    decreases k,
{
    if k > 0 {
        lemma_consumed_in_stretch(c, s, e, k - 1);
        assert(c.subrange(s, e)[k - 1] == c[s + k - 1]);
    }
}

/// A stretch of an edit script is in step.
pub proof fn lemma_stretch_in_step(
    c: Seq<ChangeView>,
    old: Seq<Seq<char>>,
    new: Seq<Seq<char>>,
    s: int,
    e: int,
)
    requires
        is_edit_script(c, old, new),
        0 <= s <= e <= c.len(),
    ensures
        in_step(c.subrange(s, e)),
{
    let x = c.subrange(s, e);
    lemma_anchor_of_range(c, old, new, s, e);
    lemma_first_anchored(x);
    assert forall|k: int| 0 <= k < x.len() implies #[trigger] step_entry(x, k) by {
        assert(x[k] == c[s + k]);
        assert(script_entry(c, old, new, s + k));
        lemma_consumed_in_stretch(c, s, e, k);
        lemma_counts(c, s, s + k);
        if x[k].old_index is Some {
            if first_anchored(x) >= x.len() {
                assert(x[k].old_index is None);
            }
        }
    }
}

/// A stretch of an edit script over the lines of the original fits them at
/// the line that the script has come to where the stretch starts.
pub proof fn lemma_stretch_fits(
    c: Seq<ChangeView>,
    lines: Seq<Seq<char>>,
    old: Seq<Seq<char>>,
    new: Seq<Seq<char>>,
    s: int,
    e: int,
)
    requires
        script_over_lines(c, lines, old, new),
        0 <= s <= e <= c.len(),
    ensures
        fits(lines, c.subrange(s, e), consumed(c, s)),
{
    let x = c.subrange(s, e);
    let at = consumed(c, s);
    assert forall|k: int| 0 <= k < x.len() && (#[trigger] x[k]).tag == Tag::Equal implies {
        &&& 0 <= at + consumed(x, k) < lines.len()
        &&& x[k].text == terminated(lines[at + consumed(x, k)])
    } by {
        assert(x[k] == c[s + k]);
        assert(script_entry(c, old, new, s + k));
        lemma_consumed_in_stretch(c, s, e, k);
        lemma_counts(c, 0, s + k);
    }
}

/// The `h`-th hunk of the windows from `from` on is a stretch of the change
/// stream that holds an edit; the stretch is returned.
pub proof fn lemma_group_is_stretch(c: Seq<ChangeView>, from: int, context: int, h: int) -> (r: (
    int,
    int,
))
    requires
        0 <= from,
        0 <= context,
        0 <= h < groups_from(c, from, context).len(),
    ensures
        0 <= r.0 < r.1 <= c.len(),
        groups_from(c, from, context)[h].changes == c.subrange(r.0, r.1),
        groups_from(c, from, context)[h].disposition == Disposition::Undecided,
        exists|k: int| r.0 <= k < r.1 && (#[trigger] c[k]).tag != Tag::Equal,
    decreases h,
{
    let p = next_edit(c, from);
    lemma_next_edit(c, from);
    lemma_cluster_end(c, p, context);
    if h == 0 {
        let q = cluster_end(c, p, context);
        let r = (upper(from, p - context), lower(q + context + 1, c.len() as int));
        assert(r.0 <= p < r.1 && c[p].tag != Tag::Equal);
        r
    } else {
        let next = window_end(c, from, context);
        assert(groups_from(c, from, context)[h] == groups_from(c, next, context)[h - 1]);
        lemma_group_is_stretch(c, next, context, h - 1)
    }
}

/// The changes of a hunk that consume a line name the original lines from
/// the hunk's anchor on, one after the other.
pub open spec fn numbered_in_order(x: Seq<ChangeView>) -> bool {
    forall|k: int|
        0 <= k < x.len() && (#[trigger] x[k]).consumes() ==> (anchor_of(x) matches Some(a)
            && x[k].old_index == Some((a + consumed(x, k)) as usize))
}

/// Every hunk of an edit script over the lines of the original is sound: it
/// is not empty and holds an edit, it is undecided and in step, its `Equal`
/// and `Delete` changes name one original line after the other, and it fits
/// the original at its anchor; a hunk without an anchor holds inserts only.
pub proof fn law_built_hunks_are_sound(
    c: Seq<ChangeView>,
    lines: Seq<Seq<char>>,
    old: Seq<Seq<char>>,
    new: Seq<Seq<char>>,
    context: int,
    h: int,
)
    requires
        script_over_lines(c, lines, old, new),
        0 <= context,
        0 <= h < grouped(c, context).len(),
    ensures
        grouped(c, context)[h].changes.len() > 0,
        exists|k: int|
            0 <= k < grouped(c, context)[h].changes.len() && (#[trigger] grouped(
                c,
                context,
            )[h].changes[k]).tag != Tag::Equal,
        grouped(c, context)[h].disposition == Disposition::Undecided,
        in_step(grouped(c, context)[h].changes),
        numbered_in_order(grouped(c, context)[h].changes),
        anchor_of(grouped(c, context)[h].changes) matches Some(a) ==> fits(
            lines,
            grouped(c, context)[h].changes,
            a as int,
        ),
        anchor_of(grouped(c, context)[h].changes) is None ==> fits(
            lines,
            grouped(c, context)[h].changes,
            0,
        ),
{
    let x = grouped(c, context)[h].changes;
    let r = lemma_group_is_stretch(c, 0, context, h);
    let k = choose|k: int| r.0 <= k < r.1 && (#[trigger] c[k]).tag != Tag::Equal;
    assert(x[k - r.0] == c[k]);
    lemma_stretch_in_step(c, old, new, r.0, r.1);
    lemma_stretch_fits(c, lines, old, new, r.0, r.1);
    lemma_anchor_of_range(c, old, new, r.0, r.1);
    lemma_first_anchored(x);
    assert forall|j: int| 0 <= j < x.len() && (#[trigger] x[j]).consumes() implies (anchor_of(
        x,
    ) matches Some(a) && x[j].old_index == Some((a + consumed(x, j)) as usize)) by {
        assert(x[j] == c[r.0 + j]);
        assert(script_entry(c, old, new, r.0 + j));
        lemma_consumed_in_stretch(c, r.0, r.1, j);
        if first_anchored(x) >= x.len() {
            assert(x[j].old_index is None);
        }
    }
    if anchor_of(x) is None {
        assert forall|j: int| 0 <= j < x.len() && (#[trigger] x[j]).tag == Tag::Equal implies {
            &&& 0 <= 0 + consumed(x, j) < lines.len()
            &&& x[j].text == terminated(lines[0 + consumed(x, j)])
        } by {
            assert(x[j] == c[r.0 + j]);
            assert(script_entry(c, old, new, r.0 + j));
            assert(x[j].old_index is None);
        }
    }
}

/// Splitting a hunk of the diff keeps the patched text: accepting the pieces
/// of a hunk gives the text that accepting the hunk gives.
pub proof fn law_split_of_a_built_hunk_keeps_the_patched_text(
    c: Seq<ChangeView>,
    lines: Seq<Seq<char>>,
    old: Seq<Seq<char>>,
    new: Seq<Seq<char>>,
    context: int,
    h: int,
)
    requires
        script_over_lines(c, lines, old, new),
        0 <= context,
        0 <= h < grouped(c, context).len(),
    ensures
        patched(lines, seq![accepted_hunk(grouped(c, context)[h].changes)]) == patched(
            lines,
            accepted(pieces(grouped(c, context)[h].changes)),
        ),
{
    let x = grouped(c, context)[h].changes;
    let none = Seq::<HunkView>::empty();
    law_built_hunks_are_sound(c, lines, old, new, context, h);
    law_split_keeps_the_patched_text(lines, none, x);
    assert(none.push(accepted_hunk(x)) =~= seq![accepted_hunk(x)]);
    assert(none + accepted(pieces(x)) =~= accepted(pieces(x)));
}

/// Every change read from an edited hunk carries the hunk's anchor as its
/// old index, and no new index.
pub proof fn lemma_parsed_changes(lines: Seq<Seq<char>>, start: usize)
    ensures
        parsed_lines(lines, start) matches Some(x) ==> forall|k: int|
            0 <= k < x.len() ==> (#[trigger] x[k]).old_index == Some(start) && x[k].new_index
                is None,
    decreases lines.len(),
{
    if lines.len() > 0 {
        lemma_parsed_changes(lines.drop_last(), start);
    }
}

/// Where the walk from line `cursor` finds no mismatch, every `Equal`
/// change is the original line that it stands at, up to its terminator.
pub proof fn lemma_no_mismatch_agrees(lines: Seq<Seq<char>>, cursor: int, patch: Seq<ChangeView>)
    requires
        0 <= cursor,
        first_mismatch(lines, cursor, patch) is None,
    ensures
        forall|k: int|
            0 <= k < patch.len() && (#[trigger] patch[k]).tag == Tag::Equal ==> {
                &&& 0 <= cursor + consumed(patch, k) < lines.len()
                &&& lines[cursor + consumed(patch, k)] == strip_terminator(patch[k].text)
            },
    decreases patch.len(),
{
    if patch.len() > 0 {
        let rest = patch.drop_first();
        let next = if patch[0].consumes() {
            cursor + 1
        } else {
            cursor
        };
        lemma_no_mismatch_agrees(lines, next, rest);
        assert(rest =~= patch.subrange(1, patch.len() as int));
        assert forall|k: int| 0 <= k < patch.len() && (#[trigger] patch[k]).tag
            == Tag::Equal implies {
            &&& 0 <= cursor + consumed(patch, k) < lines.len()
            &&& lines[cursor + consumed(patch, k)] == strip_terminator(patch[k].text)
        } by {
            assert(consumed(patch, 0) == 0);
            if k > 0 {
                assert(rest[k - 1] == patch[k]);
                lemma_consumed_in_stretch(patch, 1, patch.len() as int, k - 1);
                assert(consumed(patch, 1) == next - cursor);
                lemma_counts(rest, 0, k - 1);
            }
        }
    }
}

/// An edited hunk that is read back without error is undecided and in step,
/// all its changes carry the anchor that it was read at, and each of its
/// unchanged lines is the original line that it stands at, up to its
/// terminator.
pub proof fn law_checked_hunk_agrees_with_the_original(
    original: Seq<Seq<char>>,
    start: usize,
    edited: Seq<Seq<char>>,
)
    ensures
        checked_patch(original, start, edited) matches Ok(hunk) ==> {
            &&& hunk.disposition == Disposition::Undecided
            &&& in_step(hunk.changes)
            &&& forall|k: int|
                0 <= k < hunk.changes.len() ==> (#[trigger] hunk.changes[k]).old_index == Some(
                    start,
                )
            &&& forall|k: int|
                0 <= k < hunk.changes.len() && (#[trigger] hunk.changes[k]).tag == Tag::Equal ==> {
                    &&& 0 <= start + consumed(hunk.changes, k) < original.len()
                    &&& original[start + consumed(hunk.changes, k)] == strip_terminator(
                        hunk.changes[k].text,
                    )
                }
        },
{
    if checked_patch(original, start, edited) is Ok {
        let x = parsed_lines(edited, start)->0;
        lemma_parsed_changes(edited, start);
        lemma_no_mismatch_agrees(original, start as int, x);
        assert forall|k: int| 0 <= k < x.len() implies #[trigger] step_entry(x, k) by {
            assert(x[0].old_index == Some(start));
            lemma_counts(x, 0, k);
        }
    }
}

} // verus!
