//! The stable sort of rows by a list of sort keys.

use crate::datum::{DatumView, Row};
use crate::finishing::{
    comes_after, keys_within, lemma_row_order_total, row_comes_after, ties, ColumnOrder,
};
use vstd::prelude::*;

verus! {

/// A sorted sequence of rows with one more row put in: behind every row that
/// it does not come before, so behind the rows that it ties with.
pub open spec fn insert_row(
    order: Seq<ColumnOrder>,
    sorted: Seq<Seq<DatumView>>,
    row: Seq<DatumView>,
) -> Seq<Seq<DatumView>>
    decreases sorted.len(),
{
    if sorted.len() > 0 && comes_after(order, sorted.last(), row) {
        insert_row(order, sorted.drop_last(), row).push(sorted.last())
    } else {
        sorted.push(row)
    }
}

/// The rows in the order of the sort keys, rows that tie in the order in
/// which they came.
pub open spec fn sort_rows(order: Seq<ColumnOrder>, rows: Seq<Seq<DatumView>>) -> Seq<
    Seq<DatumView>,
>
    decreases rows.len(),
{
    if rows.len() == 0 {
        rows
    } else {
        insert_row(order, sort_rows(order, rows.drop_last()), rows.last())
    }
}

/// Whether no row of the sequence comes after a later one.
pub open spec fn is_sorted(order: Seq<ColumnOrder>, rows: Seq<Seq<DatumView>>) -> bool {
    forall|i: int, j: int| 0 <= i < j < rows.len() ==> !comes_after(order, rows[i], rows[j])
}

/// The rows of a sequence that tie with a given row, in the order in which
/// they stand.
pub open spec fn tied_rows(
    order: Seq<ColumnOrder>,
    rows: Seq<Seq<DatumView>>,
    with: Seq<DatumView>,
) -> Seq<Seq<DatumView>>
    decreases rows.len(),
{
    if rows.len() == 0 {
        rows
    } else if ties(order, rows.last(), with) {
        tied_rows(order, rows.drop_last(), with).push(rows.last())
    } else {
        tied_rows(order, rows.drop_last(), with)
    }
}

/// Inserting a row adds that row and changes no other.
pub proof fn lemma_insert_row_multiset(
    order: Seq<ColumnOrder>,
    sorted: Seq<Seq<DatumView>>,
    row: Seq<DatumView>,
)
    ensures
        insert_row(order, sorted, row).to_multiset() == sorted.to_multiset().insert(row),
        insert_row(order, sorted, row).len() == sorted.len() + 1,
    decreases sorted.len(),
{
    broadcast use vstd::seq_lib::group_to_multiset_ensures;

    if sorted.len() > 0 && comes_after(order, sorted.last(), row) {
        let front = sorted.drop_last();
        lemma_insert_row_multiset(order, front, row);
        assert(sorted =~= front.push(sorted.last()));
    }
}

/// Sorting keeps every row, as often as it occurs, and adds none.
pub proof fn lemma_sort_rows_permutes(order: Seq<ColumnOrder>, rows: Seq<Seq<DatumView>>)
    ensures
        sort_rows(order, rows).to_multiset() == rows.to_multiset(),
        sort_rows(order, rows).len() == rows.len(),
    decreases rows.len(),
{
    broadcast use vstd::seq_lib::group_to_multiset_ensures;

    if rows.len() > 0 {
        let front = rows.drop_last();
        lemma_sort_rows_permutes(order, front);
        lemma_insert_row_multiset(order, sort_rows(order, front), rows.last());
        assert(rows =~= front.push(rows.last()));
    }
}

/// Inserting a row into a sorted sequence leaves it sorted.
pub proof fn lemma_insert_row_sorted(
    order: Seq<ColumnOrder>,
    sorted: Seq<Seq<DatumView>>,
    row: Seq<DatumView>,
)
    requires
        is_sorted(order, sorted),
    ensures
        is_sorted(order, insert_row(order, sorted, row)),
    decreases sorted.len(),
{
    let out = insert_row(order, sorted, row);
    lemma_insert_row_multiset(order, sorted, row);
    if sorted.len() > 0 && comes_after(order, sorted.last(), row) {
        let front = sorted.drop_last();
        let last = sorted.last();
        let inner = insert_row(order, front, row);
        assert(is_sorted(order, front)) by {
            assert forall|i: int, j: int| 0 <= i < j < front.len() implies !comes_after(
                order,
                front[i],
                front[j],
            ) by {
                assert(front[i] == sorted[i] && front[j] == sorted[j]);
            }
        }
        lemma_insert_row_sorted(order, front, row);
        lemma_insert_row_multiset(order, front, row);
        // no row of `inner` comes after `last`: `row` does not, and the
        // others stand before `last` in `sorted`
        assert forall|i: int| 0 <= i < inner.len() implies !comes_after(
            order,
            #[trigger] inner[i],
            last,
        ) by {
            lemma_insert_row_member(order, front, row, i);
            if inner[i] == row {
                lemma_row_order_total(order, last, row, row);
            } else {
                let k = choose|k: int| 0 <= k < front.len() && front[k] == inner[i];
                assert(sorted[k] == inner[i]);
            }
        }
        assert forall|i: int, j: int| 0 <= i < j < out.len() implies !comes_after(
            order,
            out[i],
            out[j],
        ) by {
            if j < inner.len() {
                assert(out[i] == inner[i] && out[j] == inner[j]);
            } else {
                assert(out[i] == inner[i] && out[j] == last);
            }
        }
    } else {
        // `row` stands last, and the last row of `sorted` does not come
        // after it, so none does
        assert forall|i: int, j: int| 0 <= i < j < out.len() implies !comes_after(
            order,
            out[i],
            out[j],
        ) by {
            if j < sorted.len() {
                assert(out[i] == sorted[i] && out[j] == sorted[j]);
            } else {
                assert(out[i] == sorted[i] && out[j] == row);
                lemma_row_order_total(order, sorted[i], sorted.last(), row);
            }
        }
    }
}

/// Every row of a sequence with a row inserted is that row or one of the
/// sequence.
pub proof fn lemma_insert_row_member(
    order: Seq<ColumnOrder>,
    sorted: Seq<Seq<DatumView>>,
    row: Seq<DatumView>,
    i: int,
)
    requires
        0 <= i < insert_row(order, sorted, row).len(),
    ensures
        insert_row(order, sorted, row)[i] == row || exists|k: int|
            0 <= k < sorted.len() && sorted[k] == insert_row(order, sorted, row)[i],
    decreases sorted.len(),
{
    lemma_insert_row_multiset(order, sorted, row);
    if sorted.len() > 0 && comes_after(order, sorted.last(), row) {
        let front = sorted.drop_last();
        lemma_insert_row_multiset(order, front, row);
        let inner = insert_row(order, front, row);
        if i < inner.len() {
            lemma_insert_row_member(order, front, row, i);
            if inner[i] != row {
                let k = choose|k: int| 0 <= k < front.len() && front[k] == inner[i];
                assert(sorted[k] == inner[i]);
            }
        } else {
            assert(sorted[sorted.len() - 1] == insert_row(order, sorted, row)[i]);
        }
    } else if i < sorted.len() {
        assert(sorted[i] == insert_row(order, sorted, row)[i]);
    }
}

/// Sorted rows are in order: none comes after a later one.
pub proof fn lemma_sort_rows_sorted(order: Seq<ColumnOrder>, rows: Seq<Seq<DatumView>>)
    ensures
        is_sorted(order, sort_rows(order, rows)),
    decreases rows.len(),
{
    if rows.len() > 0 {
        lemma_sort_rows_sorted(order, rows.drop_last());
        lemma_insert_row_sorted(order, sort_rows(order, rows.drop_last()), rows.last());
    }
}

/// Without sort keys, sorting leaves the rows as they are.
pub proof fn lemma_sort_rows_without_keys(order: Seq<ColumnOrder>, rows: Seq<Seq<DatumView>>)
    requires
        order.len() == 0,
    ensures
        sort_rows(order, rows) == rows,
    decreases rows.len(),
{
    if rows.len() > 0 {
        let front = rows.drop_last();
        lemma_sort_rows_without_keys(order, front);
        assert(front.push(rows.last()) =~= rows);
    }
}

/// Among the rows that tie with a given one, an inserted row stands last.
pub proof fn lemma_insert_row_stable(
    order: Seq<ColumnOrder>,
    sorted: Seq<Seq<DatumView>>,
    row: Seq<DatumView>,
    with: Seq<DatumView>,
)
    ensures
        tied_rows(order, insert_row(order, sorted, row), with) == tied_rows(
            order,
            sorted.push(row),
            with,
        ),
    decreases sorted.len(),
{
    if sorted.len() > 0 && comes_after(order, sorted.last(), row) {
        let front = sorted.drop_last();
        let last = sorted.last();
        let inner = insert_row(order, front, row);
        lemma_insert_row_stable(order, front, row, with);
        assert(inner.push(last).drop_last() =~= inner);
        assert(front.push(row).drop_last() =~= front);
        assert(sorted.push(row).drop_last() =~= sorted);
        // `last` comes after `row`, so the two cannot both tie with one row
        lemma_row_order_total(order, last, with, row);
        lemma_row_order_total(order, row, with, last);
        lemma_row_order_total(order, last, row, with);
        assert(tied_rows(order, sorted.push(row), with) == if ties(order, row, with) {
            tied_rows(order, sorted, with).push(row)
        } else {
            tied_rows(order, sorted, with)
        });
    }
}

/// Sorting is stable: the rows that tie with any given row stand in the
/// sorted sequence in the order in which they came.
pub proof fn lemma_sort_rows_stable(
    order: Seq<ColumnOrder>,
    rows: Seq<Seq<DatumView>>,
    with: Seq<DatumView>,
)
    ensures
        tied_rows(order, sort_rows(order, rows), with) == tied_rows(order, rows, with),
    decreases rows.len(),
{
    if rows.len() > 0 {
        let front = rows.drop_last();
        let sorted = sort_rows(order, front);
        lemma_sort_rows_stable(order, front, with);
        lemma_insert_row_stable(order, sorted, rows.last(), with);
        assert(sorted.push(rows.last()).drop_last() =~= sorted);
    }
}

/// The rows that a sequence of positions picks, in the order of the
/// positions.
pub open spec fn select(rows: Seq<Seq<DatumView>>, positions: Seq<usize>) -> Seq<Seq<DatumView>> {
    Seq::new(positions.len(), |i: int| rows[positions[i] as int])
}

/// Whether every position lies within a sequence of the given length.
pub open spec fn positions_within(positions: Seq<usize>, len: nat) -> bool {
    forall|i: int| 0 <= i < positions.len() ==> #[trigger] positions[i] < len
}

/// Two sequences of rows as one, built from the end: the later of the two
/// last rows comes last, and the last row of the right where the two tie.
/// This merges sorted sequences into a sorted one.
pub open spec fn merge_rows(
    order: Seq<ColumnOrder>,
    left: Seq<Seq<DatumView>>,
    right: Seq<Seq<DatumView>>,
) -> Seq<Seq<DatumView>>
    decreases left.len() + right.len(),
{
    if right.len() == 0 {
        left
    } else if left.len() == 0 {
        right
    } else if comes_after(order, left.last(), right.last()) {
        merge_rows(order, left.drop_last(), right).push(left.last())
    } else {
        merge_rows(order, left, right.drop_last()).push(right.last())
    }
}

/// Inserting a row into a merged sequence is merging with the row inserted
/// on the right.
pub proof fn lemma_merge_insert(
    order: Seq<ColumnOrder>,
    left: Seq<Seq<DatumView>>,
    right: Seq<Seq<DatumView>>,
    row: Seq<DatumView>,
)
    ensures
        insert_row(order, merge_rows(order, left, right), row) == merge_rows(
            order,
            left,
            insert_row(order, right, row),
        ),
    decreases left.len() + right.len(),
{
    let merged = merge_rows(order, left, right);
    let longer = insert_row(order, right, row);
    lemma_insert_row_multiset(order, right, row);
    if left.len() == 0 {
        assert(merged =~= right);
    } else if right.len() == 0 {
        if comes_after(order, left.last(), row) {
            lemma_merge_insert(order, left.drop_last(), right, row);
        } else {
            assert(longer.drop_last() =~= right);
        }
    } else {
        let l = left.last();
        let r = right.last();
        if comes_after(order, r, row) {
            assert(longer.drop_last() =~= insert_row(order, right.drop_last(), row));
            if comes_after(order, l, r) {
                lemma_merge_insert(order, left.drop_last(), right, row);
                // `l` comes after `r`, which comes after `row`
                lemma_row_order_total(order, l, row, r);
                lemma_row_order_total(order, r, row, row);
                assert(merged.drop_last() =~= merge_rows(order, left.drop_last(), right));
            } else {
                lemma_merge_insert(order, left, right.drop_last(), row);
                assert(merged.drop_last() =~= merge_rows(order, left, right.drop_last()));
            }
        } else {
            assert(longer.drop_last() =~= right);
            if comes_after(order, l, row) {
                lemma_merge_insert(order, left.drop_last(), right, row);
                // `l` comes after `row`, which `r` does not come after
                lemma_row_order_total(order, l, r, row);
                assert(merged.drop_last() =~= merge_rows(order, left.drop_last(), right));
            }
        }
    }
}

/// Sorting two sequences one behind the other is sorting each and merging
/// them.
pub proof fn lemma_sort_rows_of_both(
    order: Seq<ColumnOrder>,
    left: Seq<Seq<DatumView>>,
    right: Seq<Seq<DatumView>>,
)
    ensures
        sort_rows(order, left + right) == merge_rows(
            order,
            sort_rows(order, left),
            sort_rows(order, right),
        ),
    decreases right.len(),
{
    if right.len() == 0 {
        assert(left + right =~= left);
    } else {
        let front = right.drop_last();
        assert((left + right).drop_last() =~= left + front);
        lemma_sort_rows_of_both(order, left, front);
        lemma_merge_insert(order, sort_rows(order, left), sort_rows(order, front), right.last());
    }
}

/// One step of merging from the end: the row that comes last is the last
/// of the left where the right is used up or the left's last row comes after
/// the right's, and else the last of the right.
proof fn lemma_merge_step(
    order: Seq<ColumnOrder>,
    left: Seq<Seq<DatumView>>,
    right: Seq<Seq<DatumView>>,
    tail: Seq<Seq<DatumView>>,
)
    requires
        left.len() + right.len() > 0,
    ensures
        right.len() == 0 || (left.len() > 0 && comes_after(order, left.last(), right.last()))
            ==> merge_rows(order, left, right) + tail == merge_rows(
            order,
            left.drop_last(),
            right,
        ) + (seq![left.last()] + tail),
        !(right.len() == 0 || (left.len() > 0 && comes_after(order, left.last(), right.last())))
            ==> merge_rows(order, left, right) + tail == merge_rows(
            order,
            left,
            right.drop_last(),
        ) + (seq![right.last()] + tail),
{
    if right.len() == 0 {
        assert(left + tail =~= left.drop_last() + (seq![left.last()] + tail));
    } else if left.len() == 0 {
        assert(right + tail =~= right.drop_last() + (seq![right.last()] + tail));
    } else if comes_after(order, left.last(), right.last()) {
        let front = merge_rows(order, left.drop_last(), right);
        assert(front.push(left.last()) + tail =~= front + (seq![left.last()] + tail));
    } else {
        let front = merge_rows(order, left, right.drop_last());
        assert(front.push(right.last()) + tail =~= front + (seq![right.last()] + tail));
    }
}

/// Merges two sorted runs of positions into one: the positions of both, in
/// the order in which merging puts their rows.
fn merge_positions(order: &Vec<ColumnOrder>, rows: &Vec<Row>, left: &Vec<usize>, right: &Vec<
    usize,
>) -> (merged: Vec<usize>)
    requires
        positions_within(left@, rows@.len()),
        positions_within(right@, rows@.len()),
        left.len() + right.len() <= usize::MAX,
        forall|i: int| 0 <= i < rows@.len() ==> keys_within(order@, (#[trigger] rows@[i])@.len()),
    ensures
        merged.len() == left.len() + right.len(),
        positions_within(merged@, rows@.len()),
        select(rows.deep_view(), merged@) == merge_rows(
            order@,
            select(rows.deep_view(), left@),
            select(rows.deep_view(), right@),
        ),
{
    let ghost views = rows.deep_view();
    let ghost l = select(views, left@);
    let ghost r = select(views, right@);
    let total: usize = left.len() + right.len();
    let mut merged: Vec<usize> = vec![0; total];
    let mut i: usize = left.len();
    let mut j: usize = right.len();
    let mut k: usize = total;
    let ghost mut tail: Seq<Seq<DatumView>> = Seq::empty();
    assert(l.take(i as int) =~= l && r.take(j as int) =~= r);
    while k > 0
        invariant
            i <= left.len(),
            j <= right.len(),
            k == i + j,
            total == left.len() + right.len(),
            merged.len() == total,
            views == rows.deep_view(),
            l == select(views, left@),
            r == select(views, right@),
            positions_within(left@, rows@.len()),
            positions_within(right@, rows@.len()),
            forall|p: int| 0 <= p < rows@.len() ==> keys_within(order@, (#[trigger] rows@[p])@.len()),
            tail.len() == total - k,
            forall|p: int|
                k <= p < total ==> #[trigger] merged@[p] < rows@.len() && views[merged@[p] as int]
                    == tail[p - k],
            merge_rows(order@, l, r) == merge_rows(order@, l.take(i as int), r.take(j as int))
                + tail,
        decreases k,
    {
        let ghost lt = l.take(i as int);
        let ghost rt = r.take(j as int);
        let from_left = if j == 0 {
            true
        } else if i == 0 {
            false
        } else {
            row_comes_after(order, &rows[left[i - 1]], &rows[right[j - 1]])
        };
        proof {
            lemma_merge_step(order@, lt, rt, tail);
        }
        if from_left {
            let position = left[i - 1];
            merged.set(k - 1, position);
            proof {
                assert(lt.drop_last() =~= l.take(i - 1));
                tail = seq![lt.last()] + tail;
            }
            i = i - 1;
        } else {
            let position = right[j - 1];
            merged.set(k - 1, position);
            proof {
                assert(rt.drop_last() =~= r.take(j - 1));
                tail = seq![rt.last()] + tail;
            }
            j = j - 1;
        }
        k = k - 1;
    }
    merged
}

/// Sorts the rows that a stretch of the positions picks, by position.
fn sort_stretch(
    order: &Vec<ColumnOrder>,
    rows: &Vec<Row>,
    picked: &Vec<usize>,
    from: usize,
    to: usize,
) -> (sorted: Vec<usize>)
    requires
        from <= to <= picked.len(),
        positions_within(picked@, rows@.len()),
        forall|i: int| 0 <= i < rows@.len() ==> keys_within(order@, (#[trigger] rows@[i])@.len()),
    ensures
        sorted.len() == to - from,
        positions_within(sorted@, rows@.len()),
        select(rows.deep_view(), sorted@) == sort_rows(
            order@,
            select(rows.deep_view(), picked@.subrange(from as int, to as int)),
        ),
    decreases to - from,
{
    let ghost views = rows.deep_view();
    let ghost stretch = picked@.subrange(from as int, to as int);
    if to - from == 0 {
        Vec::new()
    } else if to - from == 1 {
        let mut sorted: Vec<usize> = Vec::new();
        sorted.push(picked[from]);
        proof {
            let one = select(views, stretch);
            assert(sort_rows(order@, one.drop_last()) =~= Seq::<Seq<DatumView>>::empty());
        }
        sorted
    } else {
        let middle: usize = from + (to - from) / 2;
        let left = sort_stretch(order, rows, picked, from, middle);
        let right = sort_stretch(order, rows, picked, middle, to);
        proof {
            let first = picked@.subrange(from as int, middle as int);
            let second = picked@.subrange(middle as int, to as int);
            assert(select(views, stretch) =~= select(views, first) + select(views, second));
            lemma_sort_rows_of_both(order@, select(views, first), select(views, second));
        }
        merge_positions(order, rows, &left, &right)
    }
}

/// Sorts the rows that the positions pick, by position: the positions come
/// back in the order in which the stable sort puts their rows.
pub fn sort_positions(order: &Vec<ColumnOrder>, rows: &Vec<Row>, picked: &Vec<usize>) -> (sorted:
    Vec<usize>)
    requires
        positions_within(picked@, rows@.len()),
        forall|i: int| 0 <= i < rows@.len() ==> keys_within(order@, (#[trigger] rows@[i])@.len()),
    ensures
        sorted.len() == picked.len(),
        positions_within(sorted@, rows@.len()),
        select(rows.deep_view(), sorted@) == sort_rows(
            order@,
            select(rows.deep_view(), picked@),
        ),
{
    assert(picked@.subrange(0, picked.len() as int) =~= picked@);
    sort_stretch(order, rows, picked, 0, picked.len())
}

} // verus!
