//! Texts as sequences of lines.

use vstd::prelude::*;

verus! {

/// Position of the first line feed in `s`, or the length of `s` if it has none.
pub open spec fn first_newline(s: Seq<char>) -> int
    decreases s.len(),
{
    if s.len() == 0 {
        0
    } else if s[0] == '\n' {
        0
    } else {
        1 + first_newline(s.drop_first())
    }
}

/// `line` without one trailing carriage return.
pub open spec fn strip_cr(line: Seq<char>) -> Seq<char> {
    if line.len() > 0 && line.last() == '\r' {
        line.drop_last()
    } else {
        line
    }
}

/// The lines of a text, without their terminators. A line ends at a line
/// feed, and a carriage return just before that line feed belongs to the
/// terminator. A last line without a line feed is kept as it is; an empty
/// rest after the last line feed is no line.
pub open spec fn lines_of(s: Seq<char>) -> Seq<Seq<char>>
    decreases s.len(),
{
    if s.len() == 0 {
        Seq::empty()
    } else {
        let n = first_newline(s);
        if n < 0 || n >= s.len() {
            seq![s]
        } else {
            seq![strip_cr(s.subrange(0, n))] + lines_of(s.subrange(n + 1, s.len() as int))
        }
    }
}

/// `line` followed by a line feed.
pub open spec fn terminated(line: Seq<char>) -> Seq<char> {
    line.push('\n')
}

/// `line` without its trailing line terminator: a line feed, or a carriage
/// return and a line feed.
pub open spec fn strip_terminator(line: Seq<char>) -> Seq<char> {
    if line.len() > 0 && line.last() == '\n' {
        strip_cr(line.drop_last())
    } else {
        line
    }
}

/// The texts of `lines[from..to]`, each followed by a line feed, one after
/// another. Empty where the range is.
pub open spec fn copied_lines(lines: Seq<Seq<char>>, from: int, to: int) -> Seq<char>
    decreases to - from,
{
    if from < 0 || to > lines.len() || from >= to {
        Seq::empty()
    } else {
        terminated(lines[from]) + copied_lines(lines, from + 1, to)
    }
}

/// The views of a vector of strings, in order.
pub open spec fn string_views(lines: Seq<String>) -> Seq<Seq<char>> {
    lines.map_values(|l: String| l@)
}

pub proof fn lemma_first_newline(s: Seq<char>)
    ensures
        0 <= first_newline(s) <= s.len(),
        forall|j: int| 0 <= j < first_newline(s) ==> #[trigger] s[j] != '\n',
        first_newline(s) < s.len() ==> s[first_newline(s)] == '\n',
    decreases s.len(),
{
    if s.len() > 0 && s[0] != '\n' {
        let rest = s.drop_first();
        lemma_first_newline(rest);
        assert forall|j: int| 0 <= j < first_newline(s) implies #[trigger] s[j] != '\n' by {
            if j > 0 {
                assert(s[j] == rest[j - 1]);
            }
        }
        if first_newline(rest) < rest.len() {
            assert(s[first_newline(s)] == rest[first_newline(rest)]);
        }
    }
}

/// Copying `lines[from..to]` is copying `lines[from..mid]` and then
/// `lines[mid..to]`.
pub proof fn lemma_copied_lines_split(lines: Seq<Seq<char>>, from: int, mid: int, to: int)
    requires
        0 <= from <= mid <= to <= lines.len(),
    ensures
        copied_lines(lines, from, to) == copied_lines(lines, from, mid) + copied_lines(
            lines,
            mid,
            to,
        ),
    decreases mid - from,
{
    if from < mid {
        lemma_copied_lines_split(lines, from + 1, mid, to);
        assert(copied_lines(lines, from, to) =~= terminated(lines[from]) + (copied_lines(
            lines,
            from + 1,
            mid,
        ) + copied_lines(lines, mid, to)));
        assert(copied_lines(lines, from, mid) + copied_lines(lines, mid, to) =~= terminated(
            lines[from],
        ) + (copied_lines(lines, from + 1, mid) + copied_lines(lines, mid, to)));
    } else {
        assert(copied_lines(lines, from, mid) =~= Seq::<char>::empty());
        assert(copied_lines(lines, from, to) =~= Seq::<char>::empty() + copied_lines(
            lines,
            mid,
            to,
        ));
    }
}

/// The lines of `text`, as `str::lines` of the standard library yields them:
/// split at each line feed, the line feed and a carriage return just before
/// it removed, a last line without a line feed kept, no line for an empty
/// rest. Not proved here: the contract restates the documentation of
/// `str::lines`.
#[verifier::external_body]
pub(crate) fn split_lines(text: &str) -> (res: Vec<String>)
    ensures
        string_views(res@) == lines_of(text@),
{
    text.lines().map(String::from).collect()
}

/// Appends `line` and a line feed to `out`.
pub(crate) fn push_line(out: &mut String, line: &str)
    ensures
        final(out)@ == old(out)@ + terminated(line@),
{
    out.append(line);
    out.append("\n");
    proof {
        reveal_strlit("\n");
        assert("\n"@ =~= seq!['\n']);
        assert(final(out)@ =~= old(out)@ + terminated(line@));
    }
}

} // verus!
