//! The data model: tagged line changes, hunks and their review state.

use vstd::prelude::*;

verus! {

/// What a change does to the original text.
#[derive(Clone, Copy, Debug, PartialEq, Eq, Structural)]
pub enum Tag {
    /// The line is in both texts.
    Equal,
    /// The line is only in the candidate text.
    Insert,
    /// The line is only in the original text.
    Delete,
}

/// One line-level edit unit.
#[derive(Debug, PartialEq, Eq)]
pub struct Change {
    /// 0-based line offset in the original text, absent for a pure insert.
    pub old_index: Option<usize>,
    /// 0-based line offset in the candidate text, absent for a pure delete.
    pub new_index: Option<usize>,
    /// The line, with its terminator if the source had one.
    pub text: String,
    pub tag: Tag,
}

/// The mathematical value of a [`Change`].
pub struct ChangeView {
    pub old_index: Option<usize>,
    pub new_index: Option<usize>,
    pub text: Seq<char>,
    pub tag: Tag,
}

impl View for Change {
    type V = ChangeView;

    open spec fn view(&self) -> ChangeView {
        ChangeView {
            old_index: self.old_index,
            new_index: self.new_index,
            text: self.text@,
            tag: self.tag,
        }
    }
}

impl Clone for Change {
    fn clone(&self) -> (res: Self)
        ensures
            res@ == self@,
    {
        Change {
            old_index: self.old_index,
            new_index: self.new_index,
            text: self.text.clone(),
            tag: self.tag,
        }
    }
}

impl ChangeView {
    /// An `Equal` change must name the original line it stands for.
    pub open spec fn well_formed(self) -> bool {
        self.tag == Tag::Equal ==> self.old_index is Some
    }

    /// Whether the change consumes a line of the original text.
    pub open spec fn consumes(self) -> bool {
        self.tag != Tag::Insert
    }

    /// Whether the change contributes a line to the patched text.
    pub open spec fn emits(self) -> bool {
        self.tag != Tag::Delete
    }
}

/// The views of a vector of changes, in order.
pub open spec fn change_views(changes: Seq<Change>) -> Seq<ChangeView> {
    changes.map_values(|c: Change| c@)
}

/// The review state of a hunk.
#[derive(Clone, Copy, Debug, PartialEq, Eq, Structural)]
pub enum Disposition {
    /// Not reviewed yet; treated as not accepted when the patch is applied.
    Undecided,
    Accept,
    Reject,
}

/// One reviewable unit: an ordered run of changes and its review state.
#[derive(Debug, PartialEq, Eq)]
pub struct Hunk {
    pub changes: Vec<Change>,
    pub disposition: Disposition,
}

/// The mathematical value of a [`Hunk`].
pub struct HunkView {
    pub changes: Seq<ChangeView>,
    pub disposition: Disposition,
}

impl View for Hunk {
    type V = HunkView;

    open spec fn view(&self) -> HunkView {
        HunkView { changes: change_views(self.changes@), disposition: self.disposition }
    }
}

/// The views of a vector of hunks, in order.
pub open spec fn hunk_views(hunks: Seq<Hunk>) -> Seq<HunkView> {
    hunks.map_values(|h: Hunk| h@)
}

/// Position in `changes` of the first change that names an original line,
/// or the length of `changes` if none does.
pub open spec fn first_anchored(changes: Seq<ChangeView>) -> int
    decreases changes.len(),
{
    if changes.len() == 0 {
        0
    } else if changes[0].old_index is Some {
        0
    } else {
        1 + first_anchored(changes.drop_first())
    }
}

/// The anchor of a run of changes: the original line named by the first
/// change that names one.
pub open spec fn anchor_of(changes: Seq<ChangeView>) -> Option<usize> {
    let i = first_anchored(changes);
    if i < changes.len() {
        changes[i].old_index
    } else {
        None
    }
}

pub proof fn lemma_first_anchored(changes: Seq<ChangeView>)
    ensures
        0 <= first_anchored(changes) <= changes.len(),
        forall|j: int|
            0 <= j < first_anchored(changes) ==> (#[trigger] changes[j]).old_index is None,
        first_anchored(changes) < changes.len() ==> changes[first_anchored(
            changes,
        )].old_index is Some,
    decreases changes.len(),
{
    if changes.len() > 0 && changes[0].old_index is None {
        let rest = changes.drop_first();
        lemma_first_anchored(rest);
        assert forall|j: int| 0 <= j < first_anchored(changes) implies (#[trigger] changes[j])
            .old_index is None by {
            if j > 0 {
                assert(changes[j] == rest[j - 1]);
            }
        }
        if first_anchored(rest) < rest.len() {
            assert(changes[first_anchored(changes)] == rest[first_anchored(rest)]);
        }
    }
}

impl Hunk {
    /// The old and new index of the hunk's first change.
    pub fn starting_indexes(&self) -> (res: (Option<usize>, Option<usize>))
        requires
            self.changes@.len() > 0,
        ensures
            res.0 == self@.changes[0].old_index,
            res.1 == self@.changes[0].new_index,
    {
        let start = &self.changes[0];
        (start.old_index, start.new_index)
    }

    /// The original line at which the hunk begins to apply.
    pub fn anchor(&self) -> (res: Option<usize>)
        ensures
            res == anchor_of(self@.changes),
    {
        let ghost all = self@.changes;
        let mut i: usize = 0;
        proof {
            assert(all.skip(0) =~= all);
        }
        while i < self.changes.len()
            invariant
                0 <= i <= self.changes@.len(),
                all == self@.changes,
                first_anchored(all) == i + first_anchored(all.skip(i as int)),
            decreases self.changes@.len() - i,
        {
            proof {
                let rest = all.skip(i as int);
                assert(rest[0] == self.changes@[i as int]@);
                assert(rest.drop_first() =~= all.skip(i + 1));
            }
            if self.changes[i].old_index.is_some() {
                return self.changes[i].old_index;
            }
            i += 1;
        }
        proof {
            assert(all.skip(i as int).len() == 0);
        }
        None
    }

    /// Marks the hunk as accepted.
    pub fn accept(&mut self)
        ensures
            final(self)@.changes == old(self)@.changes,
            final(self).changes == old(self).changes,
            final(self).disposition == Disposition::Accept,
    {
        self.disposition = Disposition::Accept;
    }

    /// Marks the hunk as rejected.
    pub fn reject(&mut self)
        ensures
            final(self)@.changes == old(self)@.changes,
            final(self).changes == old(self).changes,
            final(self).disposition == Disposition::Reject,
    {
        self.disposition = Disposition::Reject;
    }
}

impl Clone for Hunk {
    fn clone(&self) -> (res: Self)
        ensures
            res@ == self@,
    {
        let mut changes: Vec<Change> = Vec::new();
        let mut i: usize = 0;
        while i < self.changes.len()
            invariant
                0 <= i <= self.changes@.len(),
                changes@.len() == i,
                forall|j: int| 0 <= j < i ==> (#[trigger] changes@[j])@ == self.changes@[j]@,
            decreases self.changes@.len() - i,
        {
            changes.push(self.changes[i].clone());
            i += 1;
        }
        proof {
            assert(change_views(changes@) =~= change_views(self.changes@));
        }
        Hunk { changes, disposition: self.disposition }
    }
}

/// Why a change stream or an edited hunk was refused.
#[derive(Debug, PartialEq, Eq)]
pub enum PatchError {
    /// An `Equal` change names no original line.
    InvalidChange,
    /// A line of an edited hunk has no leading ` `, `+` or `-`.
    InvalidDiffFormat,
    /// A context line of an edited hunk differs from the original text.
    PatchMismatch {
        /// 1-based number of the original line that was compared.
        line: usize,
        /// The original line, empty where the original text has ended.
        expected: String,
        /// The context line of the edited hunk, without its terminator.
        actual: String,
    },
}

/// The mathematical value of a [`PatchError`].
pub enum PatchErrorView {
    InvalidChange,
    InvalidDiffFormat,
    PatchMismatch { line: usize, expected: Seq<char>, actual: Seq<char> },
}

impl View for PatchError {
    type V = PatchErrorView;

    open spec fn view(&self) -> PatchErrorView {
        match self {
            PatchError::InvalidChange => PatchErrorView::InvalidChange,
            PatchError::InvalidDiffFormat => PatchErrorView::InvalidDiffFormat,
            PatchError::PatchMismatch { line, expected, actual } => PatchErrorView::PatchMismatch {
                line: *line,
                expected: expected@,
                actual: actual@,
            },
        }
    }
}

} // verus!
