use dataflow_types::frontier::{admits_at, has_passed, is_tightening, latest, may_finalize, merge};
use dataflow_types::time::{check_inputs, multiplicity_at};
use dataflow_types::{Datum, InputClock, InputViolation, LocalInput, Row, Update};

fn update(row: &str, timestamp: u64, diff: isize) -> Update {
    Update { row: Row { datums: vec![Datum::String(row.to_string())] }, timestamp, diff }
}

fn watermarks(times: &[u64]) -> Vec<LocalInput> {
    times.iter().map(|t| LocalInput::Watermark(*t)).collect()
}

#[test]
fn watermarks_that_never_go_back_are_accepted() {
    assert_eq!(check_inputs(&watermarks(&[])), Ok(0));
    assert_eq!(check_inputs(&watermarks(&[0])), Ok(0));
    assert_eq!(check_inputs(&watermarks(&[1, 1, 2, 5, 5, 9])), Ok(9));
    assert_eq!(check_inputs(&watermarks(&[u64::MAX, u64::MAX])), Ok(u64::MAX));
}

#[test]
fn watermark_that_goes_back_is_rejected() {
    assert_eq!(
        check_inputs(&watermarks(&[1, 3, 2, 4])),
        Err((2, InputViolation::WatermarkRegressed))
    );
    assert_eq!(
        check_inputs(&watermarks(&[5, 0])),
        Err((1, InputViolation::WatermarkRegressed))
    );
}

#[test]
fn update_before_the_watermark_is_rejected() {
    let inputs = vec![
        LocalInput::Updates(vec![update("a", 0, 1)]),
        LocalInput::Watermark(4),
        LocalInput::Updates(vec![update("a", 4, 1), update("b", 9, -1)]),
        LocalInput::Updates(vec![update("a", 6, 1), update("b", 3, 1)]),
        LocalInput::Watermark(1),
    ];
    assert_eq!(check_inputs(&inputs), Err((3, InputViolation::LateUpdate)));
    assert_eq!(check_inputs(&inputs[..3].to_vec()), Ok(4));
}

#[test]
fn clock_keeps_its_watermark_when_it_refuses() {
    let mut clock = InputClock::new();
    assert_eq!(clock.watermark, 0);
    assert_eq!(clock.observe(&LocalInput::Watermark(7)), Ok(()));
    assert_eq!(clock.watermark, 7);
    assert_eq!(clock.observe(&LocalInput::Watermark(6)), Err(InputViolation::WatermarkRegressed));
    assert_eq!(clock.watermark, 7);
    assert_eq!(
        clock.observe(&LocalInput::Updates(vec![update("a", 7, 1), update("a", 6, 1)])),
        Err(InputViolation::LateUpdate)
    );
    assert_eq!(clock.watermark, 7);
    assert_eq!(clock.observe(&LocalInput::Updates(vec![update("a", 7, 1)])), Ok(()));
    assert_eq!(clock.observe(&LocalInput::Updates(vec![])), Ok(()));
    assert_eq!(clock.watermark, 7);
    assert_eq!(clock.observe(&LocalInput::Watermark(7)), Ok(()));
    assert_eq!(clock.watermark, 7);
}

#[test]
fn multiplicity_sums_the_diffs_of_a_row_up_to_a_time() {
    let updates = vec![
        update("a", 1, 2),
        update("b", 1, 5),
        update("a", 3, -1),
        update("a", 3, 4),
        update("a", 8, -5),
    ];
    let a = Row { datums: vec![Datum::String("a".to_string())] };
    let c = Row { datums: vec![Datum::String("c".to_string())] };
    assert_eq!(multiplicity_at(&updates, &a, 0), Some(0));
    assert_eq!(multiplicity_at(&updates, &a, 1), Some(2));
    assert_eq!(multiplicity_at(&updates, &a, 3), Some(5));
    assert_eq!(multiplicity_at(&updates, &a, 7), Some(5));
    assert_eq!(multiplicity_at(&updates, &a, 8), Some(0));
    assert_eq!(multiplicity_at(&updates, &c, 8), Some(0));
}

#[test]
fn multiplicity_out_of_range_is_none() {
    let a = Row { datums: vec![Datum::String("a".to_string())] };
    let up = vec![update("a", 1, isize::MAX), update("a", 2, 1), update("a", 3, -1)];
    assert_eq!(multiplicity_at(&up, &a, 1), Some(isize::MAX));
    assert_eq!(multiplicity_at(&up, &a, 2), None);
    assert_eq!(multiplicity_at(&up, &a, 3), Some(isize::MAX));
    let down = vec![update("a", 1, isize::MIN), update("a", 1, -1)];
    assert_eq!(multiplicity_at(&down, &a, 1), None);
}

#[test]
fn frontier_has_passed_a_time_when_all_of_it_is_later() {
    assert!(has_passed(&[5, 8], 4));
    assert!(!has_passed(&[5, 8], 5));
    assert!(!has_passed(&[9, 2], 3));
    assert!(has_passed(&[], u64::MAX));
    assert!(!has_passed(&[u64::MAX], u64::MAX));
}

#[test]
fn output_is_final_when_every_input_has_passed() {
    assert!(may_finalize(&vec![vec![5, 8], vec![6]], 4));
    assert!(!may_finalize(&vec![vec![5, 8], vec![4]], 4));
    assert!(may_finalize(&vec![], 4));
    assert!(may_finalize(&vec![vec![], vec![]], 4));
}

#[test]
fn merged_frontier_has_passed_what_both_have() {
    let merged = merge(&[5, 8], &[6]);
    assert_eq!(merged, vec![5, 8, 6]);
    for t in 0..10 {
        assert_eq!(has_passed(&merged, t), has_passed(&[5, 8], t) && has_passed(&[6], t));
    }
    assert_eq!(merge(&[], &[]), Vec::<u64>::new());
}

#[test]
fn as_of_admits_times_at_or_beyond_every_element() {
    assert!(admits_at(&[3, 5], 5));
    assert!(admits_at(&[3, 5], 6));
    assert!(!admits_at(&[3, 5], 4));
    assert!(admits_at(&[], 0));
    assert_eq!(latest(&[3, 5, 4]), 5);
    assert_eq!(latest(&[]), 0);
    assert_eq!(latest(&[0, 0]), 0);
}

#[test]
fn tightening_admits_no_new_time() {
    assert!(is_tightening(&[3, 5], &[5]));
    assert!(is_tightening(&[3, 5], &[1, 7]));
    assert!(!is_tightening(&[3, 5], &[4]));
    assert!(!is_tightening(&[3], &[]));
    assert!(is_tightening(&[], &[]));
    assert!(is_tightening(&[], &[9]));
    assert!(is_tightening(&[0], &[]));
}
