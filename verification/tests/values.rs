use dataflow_types::datum::same_text;
use dataflow_types::finishing::row_comes_after;
use dataflow_types::sorting::sort_positions;
use dataflow_types::{ColumnOrder, Datum, Row};
use std::cmp::Ordering;

fn pair(n: i32, s: &str) -> Row {
    Row { datums: vec![Datum::Int32(n), Datum::String(s.to_string())] }
}

#[test]
fn same_text_compares_characters() {
    assert!(same_text("", ""));
    assert!(same_text("orders", "orders"));
    assert!(!same_text("orders", "order"));
    assert!(!same_text("order", "orders"));
    assert!(!same_text("a", "b"));
    assert!(same_text("na\u{ef}ve", "na\u{ef}ve"));
    assert!(!same_text("na\u{ef}ve", "naive"));
}

#[test]
fn values_are_equal_when_kind_and_payload_are() {
    assert_eq!(Datum::Null, Datum::Null);
    assert_ne!(Datum::Null, Datum::False);
    assert_ne!(Datum::True, Datum::False);
    assert_ne!(Datum::Int32(1), Datum::Int64(1));
    assert_eq!(Datum::Int64(-4), Datum::Int64(-4));
    assert_ne!(Datum::Int64(-4), Datum::Int64(4));
    assert_eq!(Datum::Bytes(vec![1, 2]), Datum::Bytes(vec![1, 2]));
    assert_ne!(Datum::Bytes(vec![1, 2]), Datum::Bytes(vec![1]));
    assert_ne!(Datum::Bytes(vec![97]), Datum::String("a".to_string()));
    assert_eq!(Datum::String("a".to_string()), Datum::String("a".to_string()));
    assert_ne!(Datum::String("a".to_string()), Datum::String("b".to_string()));
}

#[test]
fn rows_are_equal_when_all_values_are() {
    assert_eq!(pair(1, "a"), pair(1, "a"));
    assert_ne!(pair(1, "a"), pair(1, "b"));
    assert_ne!(pair(1, "a"), pair(2, "a"));
    assert_ne!(pair(1, "a"), Row { datums: vec![Datum::Int32(1)] });
    assert_eq!(Row { datums: vec![] }, Row { datums: vec![] });
}

#[test]
fn equal_values_compare_equal() {
    let values = vec![
        Datum::Null,
        Datum::True,
        Datum::Int32(5),
        Datum::Int64(5),
        Datum::Bytes(vec![5]),
        Datum::String("5".to_string()),
    ];
    for a in &values {
        for b in &values {
            assert_eq!(a.compare(b) == Ordering::Equal, a == b);
            assert_eq!(a.compare(b), b.compare(a).reverse());
        }
        assert_eq!(a.clone(), *a);
    }
}

#[test]
fn row_comes_after_is_strict() {
    let by_number = vec![ColumnOrder { column: 0, desc: false }];
    assert!(row_comes_after(&by_number, &pair(2, "a"), &pair(1, "z")));
    assert!(!row_comes_after(&by_number, &pair(1, "z"), &pair(2, "a")));
    assert!(!row_comes_after(&by_number, &pair(1, "z"), &pair(1, "a")));
    let by_number_down = vec![ColumnOrder { column: 0, desc: true }];
    assert!(row_comes_after(&by_number_down, &pair(1, "z"), &pair(2, "a")));
    assert!(!row_comes_after(&vec![], &pair(2, "a"), &pair(1, "z")));
}

#[test]
fn sort_positions_sorts_what_was_picked() {
    let rows = vec![pair(3, "c"), pair(1, "x"), pair(2, "b"), pair(1, "a"), pair(0, "n")];
    let by_number = vec![ColumnOrder { column: 0, desc: false }];
    assert_eq!(sort_positions(&by_number, &rows, &vec![0, 1, 2, 3, 4]), vec![4, 1, 3, 2, 0]);
    assert_eq!(sort_positions(&by_number, &rows, &vec![3, 2, 1]), vec![3, 1, 2]);
    assert_eq!(sort_positions(&by_number, &rows, &vec![0, 0, 4]), vec![4, 0, 0]);
    assert_eq!(sort_positions(&by_number, &rows, &vec![]), Vec::<usize>::new());
    let by_text_down = vec![ColumnOrder { column: 1, desc: true }];
    assert_eq!(sort_positions(&by_text_down, &rows, &vec![0, 1, 2, 3, 4]), vec![1, 4, 0, 2, 3]);
    assert_eq!(sort_positions(&vec![], &rows, &vec![2, 0, 1]), vec![2, 0, 1]);
}

#[test]
fn sort_of_many_rows_is_sorted_and_stable() {
    let mut rows = Vec::new();
    let mut seed: u32 = 12345;
    for i in 0..200 {
        seed = seed.wrapping_mul(1103515245).wrapping_add(12345);
        let key = ((seed >> 16) % 10) as i32;
        rows.push(pair(key, &format!("{:03}", i)));
    }
    let picked: Vec<usize> = (0..rows.len()).collect();
    let by_number = vec![ColumnOrder { column: 0, desc: false }];
    let sorted = sort_positions(&by_number, &rows, &picked);
    let mut expected = picked.clone();
    expected.sort_by(|a, b| rows[*a].datums[0].compare(&rows[*b].datums[0]));
    assert_eq!(sorted, expected);
}
