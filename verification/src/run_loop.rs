//! Settling the race between the operator's interrupt, the task that keeps
//! the connection alive, and the command.
//!
//! The three are started together. Whichever completes first decides how the
//! process ends; the other two are abandoned, and what they would have
//! yielded is never looked at.

use vstd::prelude::*;

verus! {

/// One branch of the race has completed.
#[derive(Debug, PartialEq, Eq)]
pub enum Completion<E> {
    /// The operator sent the interrupt signal.
    Interrupted,
    /// The task that services the connection came to an end, which it never
    /// should while the process lives.
    BackgroundExited(Result<(), E>),
    /// The command ran to its end.
    CommandFinished(Result<(), E>),
}

/// What is written to the log when the race is settled.
#[derive(Debug, PartialEq, Eq)]
pub enum Notice<E> {
    /// Nothing: the command is done and speaks for itself.
    Silent,
    /// The process shuts down at the operator's request.
    ShuttingDown,
    /// The connection task exited, with its error if it had one.
    BackgroundExited(Option<E>),
}

/// How the process ends.
#[derive(Debug, PartialEq, Eq)]
pub struct Verdict<E> {
    /// The process's result: an error only where the command failed.
    pub exit: Result<(), E>,
    /// What the log is told.
    pub notice: Notice<E>,
}

/// The verdict for the branch that completed first.
pub open spec fn settled<E>(first: Completion<E>) -> Verdict<E> {
    match first {
        Completion::Interrupted => Verdict { exit: Ok(()), notice: Notice::ShuttingDown },
        Completion::BackgroundExited(Ok(())) => Verdict {
            exit: Ok(()),
            notice: Notice::BackgroundExited(None),
        },
        Completion::BackgroundExited(Err(e)) => Verdict {
            exit: Ok(()),
            notice: Notice::BackgroundExited(Some(e)),
        },
        Completion::CommandFinished(result) => Verdict { exit: result, notice: Notice::Silent },
    }
}

/// The state of the race after one more completion: the first one settles
/// it, later ones change nothing.
pub open spec fn after<E>(state: Option<Verdict<E>>, completion: Completion<E>) -> Option<
    Verdict<E>,
> {
    match state {
        Some(verdict) => Some(verdict),
        None => Some(settled(completion)),
    }
}

/// The state of the race after a run of completions, in the order in which
/// they happened.
pub open spec fn after_all<E>(state: Option<Verdict<E>>, completions: Seq<Completion<E>>) -> Option<
    Verdict<E>,
>
    decreases completions.len(),
{
    if completions.len() == 0 {
        state
    } else {
        after(after_all(state, completions.drop_last()), completions.last())
    }
}

/// The verdict of the branch that completed first.
pub fn settle<E>(first: Completion<E>) -> (verdict: Verdict<E>)
    ensures
        verdict == settled(first),
{
    match first {
        Completion::Interrupted => Verdict { exit: Ok(()), notice: Notice::ShuttingDown },
        Completion::BackgroundExited(Ok(())) => Verdict {
            exit: Ok(()),
            notice: Notice::BackgroundExited(None),
        },
        Completion::BackgroundExited(Err(e)) => Verdict {
            exit: Ok(()),
            notice: Notice::BackgroundExited(Some(e)),
        },
        Completion::CommandFinished(result) => Verdict { exit: result, notice: Notice::Silent },
    }
}

/// The race as it goes on: undecided until the first completion is seen,
/// decided for good from then on.
pub struct RunLoop<E> {
    verdict: Option<Verdict<E>>,
}

impl<E> View for RunLoop<E> {
    type V = Option<Verdict<E>>;

    /// The verdict, once a branch has completed.
    closed spec fn view(&self) -> Option<Verdict<E>> {
        self.verdict
    }
}

impl<E> RunLoop<E> {
    /// A race in which no branch has completed yet.
    pub fn new() -> (race: RunLoop<E>)
        ensures
            race@ is None,
    {
        RunLoop { verdict: None }
    }

    /// Takes note of a completion. Returns whether it settled the race,
    /// which only the first one does.
    pub fn observe(&mut self, completion: Completion<E>) -> (first: bool)
        ensures
            final(self)@ == after(old(self)@, completion),
            first == (old(self)@ is None),
    {
        if self.verdict.is_none() {
            self.verdict = Some(settle(completion));
            true
        } else {
            false
        }
    }

    /// Whether a branch has completed.
    pub fn is_settled(&self) -> (settled: bool)
        ensures
            settled == (self@ is Some),
    {
        self.verdict.is_some()
    }

    /// Ends the race and hands out its verdict, if there is one.
    pub fn into_verdict(self) -> (verdict: Option<Verdict<E>>)
        ensures
            verdict == self@,
    {
        self.verdict
    }
}

/// The first completion alone decides: after any run of completions the
/// verdict is that of the first, and there is none only while nothing has
/// completed.
pub proof fn lemma_first_completion_wins<E>(completions: Seq<Completion<E>>)
    ensures
        after_all(None, completions) == if completions.len() == 0 {
            None
        } else {
            Some(settled(completions[0]))
        },
    decreases completions.len(),
{
    if completions.len() > 1 {
        lemma_first_completion_wins(completions.drop_last());
        assert(completions.drop_last()[0] == completions[0]);
    } else if completions.len() == 1 {
        assert(after_all(None::<Verdict<E>>, completions.drop_last()) is None);
    }
}

/// An interrupt that comes first ends the process gracefully, whatever the
/// command or the connection task yield afterwards.
pub proof fn lemma_interrupt_is_graceful<E>(completions: Seq<Completion<E>>)
    requires
        completions.len() > 0,
        completions[0] is Interrupted,
    ensures
        after_all(None, completions) matches Some(verdict) && verdict.exit is Ok
            && verdict.notice is ShuttingDown,
{
    lemma_first_completion_wins(completions);
}

/// Only a command that completes first and fails makes the process fail,
/// and then with the command's own error.
pub proof fn lemma_failure_is_the_commands<E>(completions: Seq<Completion<E>>, error: E)
    requires
        after_all(None, completions) matches Some(verdict) && verdict.exit == Err::<(), E>(error),
    ensures
        completions.len() > 0,
        completions[0] == Completion::CommandFinished(Err::<(), E>(error)),
{
    lemma_first_completion_wins(completions);
}

} // verus!
