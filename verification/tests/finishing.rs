use dataflow_types::{
    compare_columns, ColumnOrder, Datum, FinishError, Row, RowSetFinishing, ScalarExpr,
};
use std::cmp::Ordering;

fn row(n: i64, s: &str) -> Row {
    Row { datums: vec![Datum::Int64(n), Datum::String(s.to_string())] }
}

fn asc(column: usize) -> ColumnOrder {
    ColumnOrder { column, desc: false }
}

fn desc(column: usize) -> ColumnOrder {
    ColumnOrder { column, desc: true }
}

fn all_pass(rows: usize, predicates: usize) -> Vec<Vec<bool>> {
    vec![vec![true; predicates]; rows]
}

#[test]
fn orders_by_first_key_then_second_descending() {
    let finishing = RowSetFinishing {
        filter: vec![],
        order_by: vec![asc(0), desc(1)],
        limit: None,
        offset: 0,
        project: vec![0, 1],
    };
    let rows = vec![row(2, "b"), row(1, "a"), row(1, "c")];
    let out = finishing.finish(&rows, &all_pass(3, 0)).unwrap();
    assert_eq!(out, vec![row(1, "c"), row(1, "a"), row(2, "b")]);
}

#[test]
fn sort_is_stable_for_rows_that_tie() {
    let finishing = RowSetFinishing {
        filter: vec![],
        order_by: vec![asc(0)],
        limit: None,
        offset: 0,
        project: vec![0, 1],
    };
    let rows = vec![row(2, "x"), row(1, "z"), row(2, "a"), row(1, "y"), row(1, "b")];
    let out = finishing.finish(&rows, &all_pass(5, 0)).unwrap();
    assert_eq!(out, vec![row(1, "z"), row(1, "y"), row(1, "b"), row(2, "x"), row(2, "a")]);
}

#[test]
fn trivial_ignores_filter_and_projection() {
    let with_filter = RowSetFinishing {
        filter: vec![ScalarExpr::Column(0)],
        order_by: vec![],
        limit: None,
        offset: 0,
        project: vec![0, 1],
    };
    assert!(with_filter.is_trivial());
    let with_limit = RowSetFinishing {
        filter: vec![],
        order_by: vec![],
        limit: Some(5),
        offset: 0,
        project: vec![],
    };
    assert!(!with_limit.is_trivial());
}

#[test]
fn trivial_needs_no_order_and_no_offset() {
    let ordered = RowSetFinishing {
        filter: vec![],
        order_by: vec![asc(0)],
        limit: None,
        offset: 0,
        project: vec![],
    };
    assert!(!ordered.is_trivial());
    let skipping = RowSetFinishing {
        filter: vec![],
        order_by: vec![],
        limit: None,
        offset: 1,
        project: vec![],
    };
    assert!(!skipping.is_trivial());
}

#[test]
fn compare_columns_first_difference_decides() {
    let a = vec![Datum::Int64(1), Datum::String("a".to_string())];
    let b = vec![Datum::Int64(1), Datum::String("c".to_string())];
    assert_eq!(compare_columns(&[asc(0)], &a, &b), Ordering::Equal);
    assert_eq!(compare_columns(&[asc(0), asc(1)], &a, &b), Ordering::Less);
    assert_eq!(compare_columns(&[asc(0), desc(1)], &a, &b), Ordering::Greater);
    assert_eq!(compare_columns(&[desc(1), asc(0)], &b, &a), Ordering::Less);
    assert_eq!(compare_columns(&[], &a, &b), Ordering::Equal);
}

#[test]
fn finish_filters_then_sorts_then_pages_then_projects() {
    let finishing = RowSetFinishing {
        filter: vec![ScalarExpr::Column(0), ScalarExpr::Column(1)],
        order_by: vec![desc(0)],
        limit: Some(2),
        offset: 1,
        project: vec![1, 0, 1],
    };
    let rows = vec![row(1, "a"), row(5, "e"), row(3, "c"), row(4, "d"), row(2, "b")];
    let verdicts = vec![
        vec![true, true],
        vec![true, true],
        vec![true, false],
        vec![true, true],
        vec![true, true],
    ];
    // kept: 1, 5, 4, 2; sorted descending: 5, 4, 2, 1; page: 4, 2
    let out = finishing.finish(&rows, &verdicts).unwrap();
    let expect = |n: i64, s: &str| Row {
        datums: vec![
            Datum::String(s.to_string()),
            Datum::Int64(n),
            Datum::String(s.to_string()),
        ],
    };
    assert_eq!(out, vec![expect(4, "d"), expect(2, "b")]);
}

#[test]
fn finish_offset_beyond_rows_gives_nothing() {
    let finishing = RowSetFinishing {
        filter: vec![],
        order_by: vec![],
        limit: Some(usize::MAX),
        offset: 7,
        project: vec![0],
    };
    let rows = vec![row(1, "a"), row(2, "b")];
    assert_eq!(finishing.finish(&rows, &all_pass(2, 0)).unwrap(), Vec::<Row>::new());
}

#[test]
fn finish_limit_larger_than_rest_keeps_rest() {
    let finishing = RowSetFinishing {
        filter: vec![],
        order_by: vec![],
        limit: Some(usize::MAX),
        offset: 1,
        project: vec![0],
    };
    let rows = vec![row(1, "a"), row(2, "b"), row(3, "c")];
    let out = finishing.finish(&rows, &all_pass(3, 0)).unwrap();
    assert_eq!(
        out,
        vec![Row { datums: vec![Datum::Int64(2)] }, Row { datums: vec![Datum::Int64(3)] }]
    );
}

#[test]
fn finish_rejects_column_out_of_range() {
    let by_missing = RowSetFinishing {
        filter: vec![],
        order_by: vec![asc(2)],
        limit: None,
        offset: 0,
        project: vec![0],
    };
    let rows = vec![row(1, "a")];
    assert_eq!(by_missing.finish(&rows, &all_pass(1, 0)), Err(FinishError::ColumnOutOfRange));
    let project_missing = RowSetFinishing {
        filter: vec![],
        order_by: vec![],
        limit: None,
        offset: 0,
        project: vec![0, 2],
    };
    assert_eq!(
        project_missing.finish(&rows, &all_pass(1, 0)),
        Err(FinishError::ColumnOutOfRange)
    );
    assert!(!project_missing.fits_arity(2));
    assert!(project_missing.fits_arity(3));
}

#[test]
fn finish_rejects_verdicts_of_wrong_shape() {
    let finishing = RowSetFinishing {
        filter: vec![ScalarExpr::Column(0)],
        order_by: vec![],
        limit: None,
        offset: 0,
        project: vec![0],
    };
    let rows = vec![row(1, "a"), row(2, "b")];
    assert_eq!(finishing.finish(&rows, &all_pass(1, 1)), Err(FinishError::VerdictsMismatch));
    assert_eq!(finishing.finish(&rows, &all_pass(2, 2)), Err(FinishError::VerdictsMismatch));
    assert!(finishing.finish(&rows, &all_pass(2, 1)).is_ok());
}

#[test]
fn values_order_by_kind_then_payload() {
    let ordered = vec![
        Datum::Null,
        Datum::False,
        Datum::True,
        Datum::Int32(-7),
        Datum::Int32(3),
        Datum::Int64(-9),
        Datum::Int64(0),
        Datum::Bytes(vec![]),
        Datum::Bytes(vec![0]),
        Datum::Bytes(vec![0, 255]),
        Datum::Bytes(vec![1]),
        Datum::String(String::new()),
        Datum::String("a".to_string()),
        Datum::String("ab".to_string()),
        Datum::String("b".to_string()),
        Datum::String("\u{e9}".to_string()),
        Datum::String("\u{1f600}".to_string()),
    ];
    for i in 0..ordered.len() {
        for j in 0..ordered.len() {
            assert_eq!(ordered[i].compare(&ordered[j]), i.cmp(&j), "{} {}", i, j);
        }
    }
}

#[test]
fn clone_of_a_row_is_the_same_row() {
    let r = Row {
        datums: vec![
            Datum::Null,
            Datum::True,
            Datum::Int32(4),
            Datum::Bytes(vec![1, 2, 3]),
            Datum::String("xyz".to_string()),
        ],
    };
    assert_eq!(r.clone(), r);
}
