//! The review of one file's hunks, one decision at a time.

use crate::change::{hunk_views, Disposition, Hunk, HunkView};
use crate::split::{pieces, split_hunk};
use vstd::prelude::*;

verus! {

/// What the operator asks for at a hunk.
#[derive(Clone, Copy, Debug, PartialEq, Eq, Structural)]
pub enum Command {
    Accept,
    Reject,
    Edit,
    Split,
    Quit,
    Unknown,
}

/// What the caller does next.
#[derive(Clone, Copy, Debug, PartialEq, Eq, Structural)]
pub enum Action {
    /// Show the current hunk and ask for a command.
    Prompt,
    /// Let the operator edit the current hunk, then hand the result to
    /// [`Review::replace_current`].
    Edit,
    /// Say that the current hunk cannot be split further, then ask again.
    CannotSplit,
    /// Say that the command is unknown, then ask again.
    UnknownCommand,
    /// The review is over: apply the hunks.
    Finish,
}

/// The command that an answer stands for, the answer taken without the
/// white space around it: `y` or nothing accepts, `n` rejects, `e` edits,
/// `s` splits, `q` quits.
pub open spec fn command_of(answer: Seq<char>) -> Command {
    if answer == seq!['y'] || answer.len() == 0 {
        Command::Accept
    } else if answer == seq!['n'] {
        Command::Reject
    } else if answer == seq!['e'] {
        Command::Edit
    } else if answer == seq!['s'] {
        Command::Split
    } else if answer == seq!['q'] {
        Command::Quit
    } else {
        Command::Unknown
    }
}

/// The command that an answer without white space around it stands for.
pub fn command_of_answer(answer: &str) -> (res: Command)
    ensures
        res == command_of(answer@),
{
    let n = answer.unicode_len();
    if n == 0 {
        return Command::Accept;
    }
    if n != 1 {
        return Command::Unknown;
    }
    let c = answer.get_char(0);
    proof {
        assert(answer@ =~= seq![c]);
        assert(seq!['y'][0] == 'y' && seq!['n'][0] == 'n' && seq!['e'][0] == 'e' && seq!['s'][0]
            == 's' && seq!['q'][0] == 'q');
    }
    if c == 'y' {
        Command::Accept
    } else if c == 'n' {
        Command::Reject
    } else if c == 'e' {
        Command::Edit
    } else if c == 's' {
        Command::Split
    } else if c == 'q' {
        Command::Quit
    } else {
        Command::Unknown
    }
}

/// `text` without the white space at its start and at its end.
pub uninterp spec fn trimmed_text(text: Seq<char>) -> Seq<char>;

/// `str::trim` of the standard library. Not proved here; the contract only
/// names the result, which the text alone decides.
#[verifier::external_body]
fn trim_text(text: &str) -> (res: &str)
    ensures
        res@ == trimmed_text(text@),
{
    text.trim()
}

/// The command that a line of input stands for.
pub fn parse_command(input: &str) -> (res: Command)
    ensures
        res == command_of(trimmed_text(input@)),
{
    command_of_answer(trim_text(input))
}

/// The hunks of one file under review, and how far the review has come.
#[derive(Debug)]
pub struct Review {
    pub hunks: Vec<Hunk>,
    /// The hunk that is next to be decided.
    pub position: usize,
    /// Whether the operator has left the review.
    pub quit: bool,
}

/// The mathematical value of a [`Review`].
pub struct ReviewView {
    pub hunks: Seq<HunkView>,
    pub position: int,
    pub quit: bool,
}

impl View for Review {
    type V = ReviewView;

    open spec fn view(&self) -> ReviewView {
        ReviewView {
            hunks: hunk_views(self.hunks@),
            position: self.position as int,
            quit: self.quit,
        }
    }
}

impl ReviewView {
    /// A hunk is waiting for a decision.
    pub open spec fn active(self) -> bool {
        !self.quit && 0 <= self.position < self.hunks.len()
    }

    /// What the caller does when no command has changed the review: ask
    /// about the current hunk, or finish.
    pub open spec fn next_action(self) -> Action {
        if self.active() {
            Action::Prompt
        } else {
            Action::Finish
        }
    }

    /// The review with its current hunk given `disposition`, at the next hunk.
    pub open spec fn decided(self, disposition: Disposition) -> ReviewView {
        ReviewView {
            hunks: self.hunks.update(
                self.position,
                HunkView { changes: self.hunks[self.position].changes, disposition },
            ),
            position: self.position + 1,
            quit: self.quit,
        }
    }

    /// The review with `replacement` in place of its current hunk.
    pub open spec fn spliced(self, replacement: Seq<HunkView>) -> ReviewView {
        ReviewView {
            hunks: self.hunks.take(self.position) + replacement + self.hunks.skip(
                self.position + 1,
            ),
            position: self.position,
            quit: self.quit,
        }
    }

    /// The review after `command`, and what the caller does next. A finished
    /// review stays as it is. `Accept` and `Reject` mark the current hunk
    /// and move on. `Split` puts the pieces of the current hunk in its
    /// place if there are at least two. `Quit` ends the review and leaves
    /// the hunks as they are. `Edit` and `Unknown` change nothing.
    pub open spec fn step(self, command: Command) -> (ReviewView, Action) {
        if !self.active() {
            (self, Action::Finish)
        } else {
            match command {
                Command::Accept => {
                    let next = self.decided(Disposition::Accept);
                    (next, next.next_action())
                },
                Command::Reject => {
                    let next = self.decided(Disposition::Reject);
                    (next, next.next_action())
                },
                Command::Edit => (self, Action::Edit),
                Command::Split => {
                    let parts = pieces(self.hunks[self.position].changes);
                    if parts.len() > 1 {
                        (self.spliced(parts), Action::Prompt)
                    } else {
                        (self, Action::CannotSplit)
                    }
                },
                Command::Quit => (
                    ReviewView { hunks: self.hunks, position: self.position, quit: true },
                    Action::Finish,
                ),
                Command::Unknown => (self, Action::UnknownCommand),
            }
        }
    }
}

impl Review {
    /// A review that starts at the first of `hunks`.
    pub fn new(hunks: Vec<Hunk>) -> (res: Review)
        ensures
            res.hunks == hunks,
            res.position == 0,
            !res.quit,
    {
        Review { hunks, position: 0, quit: false }
    }

    /// What the caller does first, and after an edit: ask about the current
    /// hunk, or finish.
    pub fn next_action(&self) -> (res: Action)
        ensures
            res == self@.next_action(),
    {
        if !self.quit && self.position < self.hunks.len() {
            Action::Prompt
        } else {
            Action::Finish
        }
    }

    /// The hunk that is waiting for a decision.
    pub fn current(&self) -> (res: Option<&Hunk>)
        ensures
            match res {
                Some(hunk) => self@.active() && *hunk == self.hunks@[self.position as int],
                None => !self@.active(),
            },
    {
        if !self.quit && self.position < self.hunks.len() {
            Some(&self.hunks[self.position])
        } else {
            None
        }
    }

    /// Puts `replacement` in the place of the current hunk.
    fn splice(&mut self, replacement: Vec<Hunk>)
        requires
            old(self)@.active(),
        ensures
            final(self)@ == old(self)@.spliced(hunk_views(replacement@)),
    {
        let ghost before = self@;
        let ghost parts = hunk_views(replacement@);
        let position = self.position;
        let mut replacement = replacement;
        self.hunks.remove(position);
        proof {
            assert(hunk_views(self.hunks@) =~= before.hunks.take(position as int) + parts.skip(
                replacement@.len() as int,
            ) + before.hunks.skip(position + 1));
        }
        while replacement.len() > 0
            invariant
                self.position == position,
                self.quit == before.quit,
                position < before.hunks.len(),
                position <= self.hunks@.len(),
                replacement@.len() <= parts.len(),
                hunk_views(replacement@) == parts.take(replacement@.len() as int),
                hunk_views(self.hunks@) == before.hunks.take(position as int) + parts.skip(
                    replacement@.len() as int,
                ) + before.hunks.skip(position + 1),
            decreases replacement@.len(),
        {
            let ghost rest = hunk_views(self.hunks@);
            let ghost k = replacement@.len() as int;
            let ghost left = replacement@;
            let last = replacement.pop();
            match last {
                Some(hunk) => {
                    self.hunks.insert(position, hunk);
                    proof {
                        assert(hunk@ == hunk_views(left)[k - 1]);
                        assert(hunk@ == parts[k - 1]);
                        assert(hunk_views(replacement@) =~= parts.take(k - 1));
                        assert(hunk_views(self.hunks@) =~= rest.insert(position as int, hunk@));
                        assert(hunk_views(self.hunks@) =~= before.hunks.take(position as int)
                            + parts.skip(k - 1) + before.hunks.skip(position + 1));
                    }
                },
                None => {},
            }
        }
        proof {
            assert(parts.skip(0) =~= parts);
        }
    }

    /// Puts an edited hunk in the place of the current one. Without a current
    /// hunk nothing changes.
    pub fn replace_current(&mut self, hunk: Hunk)
        ensures
            old(self)@.active() ==> final(self)@ == old(self)@.spliced(seq![hunk@]),
            !old(self)@.active() ==> final(self)@ == old(self)@,
    {
        if !self.quit && self.position < self.hunks.len() {
            let ghost before = self@;
            let position = self.position;
            self.hunks.set(position, hunk);
            proof {
                assert(hunk_views(self.hunks@) =~= before.hunks.take(position as int) + seq![
                    hunk@,
                ] + before.hunks.skip(position + 1));
            }
        }
    }

    /// Takes one command and says what the caller does next.
    pub fn decide(&mut self, command: Command) -> (res: Action)
        ensures
            (final(self)@, res) == old(self)@.step(command),
    {
        if self.quit || self.position >= self.hunks.len() {
            return Action::Finish;
        }
        let ghost before = self@;
        let position = self.position;
        match command {
            Command::Accept => {
                let mut hunk = self.hunks.remove(position);
                hunk.accept();
                self.hunks.insert(position, hunk);
                self.position = position + 1;
                proof {
                    assert(hunk_views(self.hunks@) =~= before.decided(Disposition::Accept).hunks);
                }
                self.next_action()
            },
            Command::Reject => {
                let mut hunk = self.hunks.remove(position);
                hunk.reject();
                self.hunks.insert(position, hunk);
                self.position = position + 1;
                proof {
                    assert(hunk_views(self.hunks@) =~= before.decided(Disposition::Reject).hunks);
                }
                self.next_action()
            },
            Command::Edit => Action::Edit,
            Command::Split => {
                let parts = split_hunk(&self.hunks[position]);
                if parts.len() > 1 {
                    self.splice(parts);
                    Action::Prompt
                } else {
                    Action::CannotSplit
                }
            },
            Command::Quit => {
                self.quit = true;
                Action::Finish
            },
            Command::Unknown => Action::UnknownCommand,
        }
    }

    /// Ends the review and hands the hunks out, for [`crate::apply::apply`].
    pub fn into_hunks(self) -> (res: Vec<Hunk>)
        ensures
            res == self.hunks,
    {
        self.hunks
    }
}

} // verus!
