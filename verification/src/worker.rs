//! How a worker process ends.
//!
//! A worker is a thin shell: it parses its arguments, runs, and ends with a status and, where
//! something went wrong, a line for the operator.
use vstd::prelude::*;

verus! {

/// What became of a worker.
#[derive(Debug)]
pub enum WorkerOutcome {
    /// Its arguments could not be parsed, for the reason given.
    InvalidArguments(String),
    /// It ran and failed, for the reason given.
    Failed(String),
    /// It ran to its end.
    Finished,
}

/// [`WorkerOutcome`] with its texts as character sequences.
pub enum OutcomeView {
    InvalidArguments(Seq<char>),
    Failed(Seq<char>),
    Finished,
}

impl View for WorkerOutcome {
    type V = OutcomeView;

    open spec fn view(&self) -> OutcomeView {
        match *self {
            WorkerOutcome::InvalidArguments(e) => OutcomeView::InvalidArguments(e@),
            WorkerOutcome::Failed(e) => OutcomeView::Failed(e@),
            WorkerOutcome::Finished => OutcomeView::Finished,
        }
    }
}

/// The status that a process ends with.
#[derive(Copy, Clone, Debug, PartialEq, Eq, Structural)]
pub enum ExitStatus {
    /// The system's status for success.
    Success,
    /// The system's status for failure.
    Failure,
    /// A status of the worker's own.
    Code(u8),
}

impl OutcomeView {
    /// The status: success, failure, and 2 for arguments that could not be parsed.
    pub open spec fn status(self) -> ExitStatus {
        match self {
            OutcomeView::InvalidArguments(_) => ExitStatus::Code(2),
            OutcomeView::Failed(_) => ExitStatus::Failure,
            OutcomeView::Finished => ExitStatus::Success,
        }
    }

    /// The line for the operator, if there is one.
    pub open spec fn complaint(self) -> Option<Seq<char>> {
        match self {
            OutcomeView::InvalidArguments(e) => Some(
                "tessera-sink-worker: invalid arguments: "@ + e,
            ),
            OutcomeView::Failed(e) => Some("tessera-sink-worker: "@ + e),
            OutcomeView::Finished => None,
        }
    }
}

impl WorkerOutcome {
    /// The status that the worker ends with.
    pub fn status(&self) -> (r: ExitStatus)
        ensures
            r == self@.status(),
    {
        match self {
            WorkerOutcome::InvalidArguments(_) => ExitStatus::Code(2),
            WorkerOutcome::Failed(_) => ExitStatus::Failure,
            WorkerOutcome::Finished => ExitStatus::Success,
        }
    }

    /// The line that the worker leaves for the operator, if there is one.
    pub fn complaint(&self) -> (r: Option<String>)
        ensures
            match r {
                Some(line) => self@.complaint() == Some(line@),
                None => self@.complaint() is None,
            },
    {
        match self {
            WorkerOutcome::InvalidArguments(e) => {
                let mut line: String = "tessera-sink-worker: invalid arguments: ".to_string();
                line.append(e.as_str());
                Some(line)
            },
            WorkerOutcome::Failed(e) => {
                let mut line: String = "tessera-sink-worker: ".to_string();
                line.append(e.as_str());
                Some(line)
            },
            WorkerOutcome::Finished => None,
        }
    }
}

/// A worker says nothing and succeeds exactly where it ran to its end. Otherwise it leaves one
/// line, which starts with its name and ends with the reason; arguments that could not be
/// parsed are told from a failure by the status.
pub proof fn law_worker_tells_how_it_ended(outcome: OutcomeView)
    ensures
        outcome.status() is Success <==> outcome is Finished,
        outcome.complaint() is None <==> outcome is Finished,
        outcome.status() == ExitStatus::Code(2) <==> outcome is InvalidArguments,
        outcome.status() is Failure <==> outcome is Failed,
        outcome matches OutcomeView::Failed(e) ==> (outcome.complaint() matches Some(line)
            && "tessera-sink-worker: "@.is_prefix_of(line) && e.is_suffix_of(line) && line.len()
            == 21 + e.len()),
        outcome matches OutcomeView::InvalidArguments(e) ==> (outcome.complaint() matches Some(
            line,
        ) && "tessera-sink-worker: invalid arguments: "@.is_prefix_of(line) && e.is_suffix_of(
            line,
        ) && line.len() == 40 + e.len()),
{
    reveal_strlit("tessera-sink-worker: ");
    reveal_strlit("tessera-sink-worker: invalid arguments: ");
    match outcome {
        OutcomeView::InvalidArguments(e) => {
            let head = "tessera-sink-worker: invalid arguments: "@;
            let line = head + e;
            assert(line.subrange(0, head.len() as int) =~= head);
            assert(line.subrange(line.len() - e.len(), line.len() as int) =~= e);
        },
        OutcomeView::Failed(e) => {
            let head = "tessera-sink-worker: "@;
            let line = head + e;
            assert(line.subrange(0, head.len() as int) =~= head);
            assert(line.subrange(line.len() - e.len(), line.len() as int) =~= e);
        },
        OutcomeView::Finished => {},
    }
}

} // verus!
