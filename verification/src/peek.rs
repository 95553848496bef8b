//! Peeks: one-shot queries against a view at a point in logical time.

use crate::datum::Row;
use crate::finishing::{FinishError, RowSetFinishing};
use crate::time::Timestamp;
use vstd::prelude::*;

verus! {

/// Specifies when a `Peek` should occur.
#[derive(Clone, Copy, Debug, PartialEq, Eq)]
pub enum PeekWhen {
    /// The peek should occur at the latest possible timestamp that allows the
    /// peek to complete immediately.
    Immediately,
    /// The peek should occur at the latest possible timestamp that has been
    /// accepted by each input source.
    EarliestSource,
    /// The peek should occur at the specified timestamp.
    AtTimestamp(Timestamp),
}

/// The response from a `Peek`.
#[derive(Clone, Debug, PartialEq, Eq)]
pub enum PeekResponse {
    Rows(Vec<Row>),
    Canceled,
}

/// The answer to a request for the rows of a peek that was canceled.
#[derive(Clone, Copy, Debug, PartialEq, Eq)]
pub struct PeekCanceled;

/// Whether a time is the earliest of a sequence: it is one of them and none
/// is earlier.
pub open spec fn is_earliest(times: Seq<Timestamp>, time: Timestamp) -> bool {
    &&& exists|i: int| 0 <= i < times.len() && times[i] == time
    &&& forall|i: int| 0 <= i < times.len() ==> time <= times[i]
}

impl PeekWhen {
    /// The time at which a peek under this policy occurs, given the latest
    /// time at which the view can answer without waiting and the watermarks
    /// of the sources that feed it, as they stand: that latest time for
    /// `Immediately`, the earliest of the watermarks for `EarliestSource`,
    /// the given time for `AtTimestamp`. There is no time for
    /// `EarliestSource` where no source feeds the view.
    pub fn resolve(&self, immediate: Timestamp, watermarks: &[Timestamp]) -> (time: Option<
        Timestamp,
    >)
        ensures
            match *self {
                PeekWhen::Immediately => time == Some(immediate),
                PeekWhen::AtTimestamp(at) => time == Some(at),
                PeekWhen::EarliestSource => if watermarks@.len() == 0 {
                    time is None
                } else {
                    time matches Some(earliest) && is_earliest(watermarks@, earliest)
                },
            },
    {
        match self {
            PeekWhen::Immediately => Some(immediate),
            PeekWhen::AtTimestamp(at) => Some(*at),
            PeekWhen::EarliestSource => {
                if watermarks.len() == 0 {
                    return None;
                }
                let mut earliest = watermarks[0];
                let mut i: usize = 1;
                while i < watermarks.len()
                    invariant
                        1 <= i <= watermarks.len(),
                        exists|j: int| 0 <= j < i && watermarks@[j] == earliest,
                        forall|j: int| 0 <= j < i ==> earliest <= watermarks@[j],
                    decreases watermarks.len() - i,
                {
                    if watermarks[i] < earliest {
                        earliest = watermarks[i];
                    }
                    i = i + 1;
                }
                Some(earliest)
            },
        }
    }
}

impl PeekResponse {
    /// The rows of a response that holds rows. A canceled peek has none to
    /// give.
    pub fn unwrap_rows(self) -> (rows: Vec<Row>)
        requires
            self is Rows,
        ensures
            rows == self->Rows_0,
    {
        match self {
            PeekResponse::Rows(rows) => rows,
            PeekResponse::Canceled => Vec::new(),
        }
    }

    /// The rows of the response, or that the peek was canceled.
    pub fn into_rows(self) -> (res: Result<Vec<Row>, PeekCanceled>)
        ensures
            match self {
                PeekResponse::Rows(rows) => res == Ok::<Vec<Row>, PeekCanceled>(rows),
                PeekResponse::Canceled => res is Err,
            },
    {
        match self {
            PeekResponse::Rows(rows) => Ok(rows),
            PeekResponse::Canceled => Err(PeekCanceled),
        }
    }

    /// The response to a peek that was not canceled: the rows that the
    /// engine materialized, finished. `verdicts[i][j]` tells whether row `i`
    /// satisfies predicate `j` of the finishing's filter.
    pub fn finished(finishing: &RowSetFinishing, rows: &Vec<Row>, verdicts: &Vec<Vec<bool>>) -> (res:
        Result<PeekResponse, FinishError>)
        ensures
            match res {
                Ok(response) => {
                    &&& finishing.verdicts_match(rows@.len(), verdicts.deep_view())
                    &&& finishing.fits_all(rows.deep_view())
                    &&& response matches PeekResponse::Rows(out)
                    &&& out.deep_view() == finishing.finished(
                        rows.deep_view(),
                        verdicts.deep_view(),
                    )
                },
                Err(FinishError::VerdictsMismatch) => !finishing.verdicts_match(
                    rows@.len(),
                    verdicts.deep_view(),
                ),
                Err(FinishError::ColumnOutOfRange) => {
                    &&& finishing.verdicts_match(rows@.len(), verdicts.deep_view())
                    &&& !finishing.fits_all(rows.deep_view())
                },
            },
    {
        match finishing.finish(rows, verdicts) {
            Ok(out) => Ok(PeekResponse::Rows(out)),
            Err(e) => Err(e),
        }
    }
}

/// How a peek ended.
#[derive(Clone, Copy, Debug, PartialEq, Eq)]
pub enum PeekOutcome {
    Rows,
    Canceled,
}

/// Where a peek stands between its request and its response.
#[derive(Clone, Copy, Debug, PartialEq, Eq)]
pub enum PeekState {
    /// The peek was requested.
    Requested,
    /// The time of the peek is settled.
    TimestampResolved(Timestamp),
    /// The engine is materializing the rows at the time of the peek.
    Materializing(Timestamp),
    /// The response was delivered.
    Finished(PeekOutcome),
}

/// What happens to a peek.
#[derive(Clone, Debug, PartialEq, Eq)]
pub enum PeekEvent {
    /// The time of the peek was settled.
    Resolved(Timestamp),
    /// The engine began to materialize the rows.
    Started,
    /// The engine has the finished rows.
    Completed(Vec<Row>),
    /// The requester canceled the peek.
    Cancel,
}

/// What is to be done after an event of a peek.
#[derive(Clone, Debug, PartialEq, Eq)]
pub enum PeekAction {
    /// Go on: the peek advanced and there is nothing to deliver yet.
    Proceed,
    /// Deliver the response: the peek is finished.
    Deliver(PeekResponse),
    /// Nothing: the peek was finished before the event and stays as it was.
    Nothing,
    /// Nothing: the event does not follow on the state of the peek, which
    /// stays as it was.
    OutOfTurn,
}

impl PeekState {
    /// The state that follows on an event. A request is resolved, then
    /// started, then completed; a cancellation finishes a peek at any point
    /// before its response; a finished peek stays as it is, and so does one
    /// that an event reaches out of turn.
    pub open spec fn next(self, event: PeekEvent) -> PeekState {
        match (self, event) {
            (PeekState::Finished(_), _) => self,
            (_, PeekEvent::Cancel) => PeekState::Finished(PeekOutcome::Canceled),
            (PeekState::Requested, PeekEvent::Resolved(time)) => PeekState::TimestampResolved(
                time,
            ),
            (PeekState::TimestampResolved(time), PeekEvent::Started) => PeekState::Materializing(
                time,
            ),
            (PeekState::Materializing(_), PeekEvent::Completed(_)) => PeekState::Finished(
                PeekOutcome::Rows,
            ),
            _ => self,
        }
    }

    /// What is to be done after an event: the response is delivered by the
    /// event that finishes the peek, and by no other.
    pub open spec fn action(self, event: PeekEvent) -> PeekAction {
        match (self, event) {
            (PeekState::Finished(_), _) => PeekAction::Nothing,
            (_, PeekEvent::Cancel) => PeekAction::Deliver(PeekResponse::Canceled),
            (PeekState::Requested, PeekEvent::Resolved(_)) => PeekAction::Proceed,
            (PeekState::TimestampResolved(_), PeekEvent::Started) => PeekAction::Proceed,
            (PeekState::Materializing(_), PeekEvent::Completed(rows)) => PeekAction::Deliver(
                PeekResponse::Rows(rows),
            ),
            _ => PeekAction::OutOfTurn,
        }
    }

    /// Takes a peek through an event: gives the state that follows and what
    /// is to be done.
    pub fn step(self, event: PeekEvent) -> (res: (PeekState, PeekAction))
        ensures
            res.0 == self.next(event),
            res.1 == self.action(event),
    {
        match (self, event) {
            (PeekState::Finished(outcome), _) => (PeekState::Finished(outcome), PeekAction::Nothing),
            (_, PeekEvent::Cancel) => (
                PeekState::Finished(PeekOutcome::Canceled),
                PeekAction::Deliver(PeekResponse::Canceled),
            ),
            (PeekState::Requested, PeekEvent::Resolved(time)) => (
                PeekState::TimestampResolved(time),
                PeekAction::Proceed,
            ),
            (PeekState::TimestampResolved(time), PeekEvent::Started) => (
                PeekState::Materializing(time),
                PeekAction::Proceed,
            ),
            (PeekState::Materializing(_), PeekEvent::Completed(rows)) => (
                PeekState::Finished(PeekOutcome::Rows),
                PeekAction::Deliver(PeekResponse::Rows(rows)),
            ),
            (state, _) => (state, PeekAction::OutOfTurn),
        }
    }
}

/// The state of a peek after a sequence of events, from its request on.
pub open spec fn state_after(events: Seq<PeekEvent>) -> PeekState
    decreases events.len(),
{
    if events.len() == 0 {
        PeekState::Requested
    } else {
        state_after(events.drop_last()).next(events.last())
    }
}

/// The responses that a sequence of events delivers, from the request of the
/// peek on, in the order of their delivery.
pub open spec fn delivered(events: Seq<PeekEvent>) -> Seq<PeekResponse>
    decreases events.len(),
{
    if events.len() == 0 {
        Seq::empty()
    } else {
        match state_after(events.drop_last()).action(events.last()) {
            PeekAction::Deliver(response) => delivered(events.drop_last()).push(response),
            _ => delivered(events.drop_last()),
        }
    }
}

/// Whatever happens to a peek, it delivers at most one response, and it has
/// delivered exactly one, rows or the cancellation as the state tells, when
/// and only when it is finished.
pub proof fn lemma_one_response(events: Seq<PeekEvent>)
    ensures
        delivered(events).len() <= 1,
        delivered(events).len() == 1 <==> state_after(events) is Finished,
        state_after(events) matches PeekState::Finished(outcome) ==> (outcome == PeekOutcome::Rows
            <==> delivered(events)[0] is Rows),
    decreases events.len(),
{
    if events.len() > 0 {
        lemma_one_response(events.drop_last());
    }
}

/// Nothing that happens to a finished peek changes its state or what it has
/// delivered: a cancellation after the rows were delivered has no effect.
pub proof fn lemma_finished_is_final(events: Seq<PeekEvent>, later: Seq<PeekEvent>)
    requires
        state_after(events) is Finished,
    ensures
        state_after(events + later) == state_after(events),
        delivered(events + later) == delivered(events),
    decreases later.len(),
{
    if later.len() > 0 {
        lemma_finished_is_final(events, later.drop_last());
        assert((events + later).drop_last() =~= events + later.drop_last());
    }
}

} // verus!
