use dataflow_types::{
    ColumnOrder, Datum, FinishError, PeekAction, PeekCanceled, PeekEvent, PeekOutcome,
    PeekResponse, PeekState, PeekWhen, Row, RowSetFinishing,
};

fn one(n: i32) -> Row {
    Row { datums: vec![Datum::Int32(n)] }
}

fn run(events: Vec<PeekEvent>) -> (PeekState, Vec<PeekResponse>) {
    let mut state = PeekState::Requested;
    let mut delivered = Vec::new();
    for event in events {
        let (next, action) = state.step(event);
        state = next;
        if let PeekAction::Deliver(response) = action {
            delivered.push(response);
        }
    }
    (state, delivered)
}

#[test]
fn peek_time_follows_the_policy() {
    assert_eq!(PeekWhen::Immediately.resolve(42, &[7, 3, 9]), Some(42));
    assert_eq!(PeekWhen::EarliestSource.resolve(42, &[7, 3, 9]), Some(3));
    assert_eq!(PeekWhen::EarliestSource.resolve(42, &[7]), Some(7));
    assert_eq!(PeekWhen::EarliestSource.resolve(42, &[]), None);
    assert_eq!(PeekWhen::AtTimestamp(5).resolve(42, &[7, 3, 9]), Some(5));
    assert_eq!(PeekWhen::AtTimestamp(5).resolve(42, &[]), Some(5));
}

#[test]
fn unwrap_rows_gives_the_rows() {
    assert_eq!(PeekResponse::Rows(vec![one(1), one(2)]).unwrap_rows(), vec![one(1), one(2)]);
    assert_eq!(PeekResponse::Rows(vec![]).unwrap_rows(), Vec::<Row>::new());
}

#[test]
fn into_rows_tells_of_a_cancellation() {
    assert_eq!(PeekResponse::Rows(vec![one(1)]).into_rows(), Ok(vec![one(1)]));
    assert_eq!(PeekResponse::Canceled.into_rows(), Err(PeekCanceled));
}

#[test]
fn peek_runs_from_request_to_rows() {
    let (s1, a1) = PeekState::Requested.step(PeekEvent::Resolved(4));
    assert_eq!((s1, a1), (PeekState::TimestampResolved(4), PeekAction::Proceed));
    let (s2, a2) = s1.step(PeekEvent::Started);
    assert_eq!((s2, a2), (PeekState::Materializing(4), PeekAction::Proceed));
    let (s3, a3) = s2.step(PeekEvent::Completed(vec![one(1)]));
    assert_eq!(s3, PeekState::Finished(PeekOutcome::Rows));
    assert_eq!(a3, PeekAction::Deliver(PeekResponse::Rows(vec![one(1)])));
}

#[test]
fn cancel_after_rows_has_no_effect() {
    let (state, delivered) = run(vec![
        PeekEvent::Resolved(4),
        PeekEvent::Started,
        PeekEvent::Completed(vec![one(1)]),
        PeekEvent::Cancel,
        PeekEvent::Cancel,
    ]);
    assert_eq!(state, PeekState::Finished(PeekOutcome::Rows));
    assert_eq!(delivered, vec![PeekResponse::Rows(vec![one(1)])]);
    assert_eq!(
        PeekState::Finished(PeekOutcome::Rows).step(PeekEvent::Cancel),
        (PeekState::Finished(PeekOutcome::Rows), PeekAction::Nothing)
    );
}

#[test]
fn cancel_before_the_response_wins() {
    for prefix in 0..3 {
        let mut events = vec![PeekEvent::Resolved(4), PeekEvent::Started];
        events.truncate(prefix);
        events.push(PeekEvent::Cancel);
        events.push(PeekEvent::Started);
        events.push(PeekEvent::Completed(vec![one(1)]));
        events.push(PeekEvent::Cancel);
        let (state, delivered) = run(events);
        assert_eq!(state, PeekState::Finished(PeekOutcome::Canceled));
        assert_eq!(delivered, vec![PeekResponse::Canceled]);
    }
}

#[test]
fn event_out_of_turn_changes_nothing() {
    assert_eq!(
        PeekState::Requested.step(PeekEvent::Started),
        (PeekState::Requested, PeekAction::OutOfTurn)
    );
    assert_eq!(
        PeekState::Requested.step(PeekEvent::Completed(vec![])),
        (PeekState::Requested, PeekAction::OutOfTurn)
    );
    assert_eq!(
        PeekState::TimestampResolved(1).step(PeekEvent::Resolved(2)),
        (PeekState::TimestampResolved(1), PeekAction::OutOfTurn)
    );
    assert_eq!(
        PeekState::Materializing(1).step(PeekEvent::Started),
        (PeekState::Materializing(1), PeekAction::OutOfTurn)
    );
    let (state, delivered) = run(vec![PeekEvent::Started, PeekEvent::Completed(vec![])]);
    assert_eq!(state, PeekState::Requested);
    assert_eq!(delivered, vec![]);
}

#[test]
fn response_holds_the_finished_rows() {
    let finishing = RowSetFinishing {
        filter: vec![],
        order_by: vec![ColumnOrder { column: 0, desc: true }],
        limit: Some(2),
        offset: 0,
        project: vec![0],
    };
    let rows = vec![one(1), one(3), one(2)];
    let verdicts = vec![vec![], vec![], vec![]];
    assert_eq!(
        PeekResponse::finished(&finishing, &rows, &verdicts),
        Ok(PeekResponse::Rows(vec![one(3), one(2)]))
    );
    assert_eq!(
        PeekResponse::finished(&finishing, &rows, &vec![]),
        Err(FinishError::VerdictsMismatch)
    );
    assert_eq!(
        PeekResponse::finished(&finishing, &vec![Row { datums: vec![] }], &vec![vec![]]),
        Err(FinishError::ColumnOutOfRange)
    );
}
