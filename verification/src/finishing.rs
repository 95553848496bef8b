//! Finishing a materialized set of rows: filter, order, paginate, project.

use crate::datum::{
    datum_order, flip, lemma_datum_order_equal, lemma_datum_order_flip,
    lemma_datum_order_transitive, Datum, DatumView, Row,
};
use crate::relation::ScalarExpr;
use crate::sorting::{
    lemma_sort_rows_without_keys, positions_within, select, sort_positions, sort_rows,
};
use std::cmp::Ordering;
use vstd::prelude::*;

verus! {

/// One sort key: a column, and whether rows are ordered by it descending.
#[derive(Clone, Copy, Debug, PartialEq, Eq)]
pub struct ColumnOrder {
    pub column: usize,
    pub desc: bool,
}

/// The value that a row holds in the column of a sort key.
pub open spec fn key_column(key: ColumnOrder, row: Seq<DatumView>) -> DatumView {
    row[key.column as int]
}

/// Whether every column that the sort keys name lies within a row of the
/// given arity.
pub open spec fn keys_within(order: Seq<ColumnOrder>, arity: nat) -> bool {
    forall|i: int| 0 <= i < order.len() ==> (#[trigger] order[i]).column < arity
}

/// The order of two rows by a single sort key: that of their values in the
/// key's column, with the operands swapped where the key is descending.
pub open spec fn key_order(key: ColumnOrder, left: Seq<DatumView>, right: Seq<DatumView>) -> Ordering {
    if key.desc {
        datum_order(key_column(key, right), key_column(key, left))
    } else {
        datum_order(key_column(key, left), key_column(key, right))
    }
}

/// The order of two rows by a list of sort keys: the first key by which they
/// differ decides, and rows that differ by none compare equal.
pub open spec fn columns_order(
    order: Seq<ColumnOrder>,
    left: Seq<DatumView>,
    right: Seq<DatumView>,
) -> Ordering
    decreases order.len(),
{
    if order.len() == 0 {
        Ordering::Equal
    } else if key_order(order[0], left, right) != Ordering::Equal {
        key_order(order[0], left, right)
    } else {
        columns_order(order.drop_first(), left, right)
    }
}

/// A row compares equal to itself.
pub proof fn lemma_columns_order_reflexive(order: Seq<ColumnOrder>, row: Seq<DatumView>)
    ensures
        columns_order(order, row, row) == Ordering::Equal,
    decreases order.len(),
{
    if order.len() > 0 {
        lemma_datum_order_equal(key_column(order[0], row), key_column(order[0], row));
        lemma_columns_order_reflexive(order.drop_first(), row);
    }
}

/// Swapping two rows gives the opposite order.
pub proof fn lemma_columns_order_flip(
    order: Seq<ColumnOrder>,
    left: Seq<DatumView>,
    right: Seq<DatumView>,
)
    ensures
        columns_order(order, right, left) == flip(columns_order(order, left, right)),
    decreases order.len(),
{
    if order.len() > 0 {
        let l = key_column(order[0], left);
        let r = key_column(order[0], right);
        lemma_datum_order_flip(l, r);
        lemma_datum_order_flip(r, l);
        lemma_columns_order_flip(order.drop_first(), left, right);
    }
}

/// The order of rows is transitive: a row that is not after a second, which
/// is not after a third, is not after the third, and compares equal to it
/// only where all three compare equal.
pub proof fn lemma_columns_order_transitive(
    order: Seq<ColumnOrder>,
    a: Seq<DatumView>,
    b: Seq<DatumView>,
    c: Seq<DatumView>,
)
    requires
        columns_order(order, a, b) != Ordering::Greater,
        columns_order(order, b, c) != Ordering::Greater,
    ensures
        columns_order(order, a, c) != Ordering::Greater,
        columns_order(order, a, c) == Ordering::Equal ==> columns_order(order, a, b)
            == Ordering::Equal && columns_order(order, b, c) == Ordering::Equal,
    decreases order.len(),
{
    if order.len() > 0 {
        let key = order[0];
        let x = key_column(key, a);
        let y = key_column(key, b);
        let z = key_column(key, c);
        if key.desc {
            lemma_datum_order_flip(x, y);
            lemma_datum_order_flip(y, z);
            lemma_datum_order_flip(x, z);
            lemma_datum_order_flip(y, x);
            lemma_datum_order_flip(z, y);
            lemma_datum_order_flip(z, x);
            lemma_datum_order_transitive(z, y, x);
        } else {
            lemma_datum_order_transitive(x, y, z);
        }
        if key_order(key, a, b) == Ordering::Equal && key_order(key, b, c) == Ordering::Equal {
            lemma_columns_order_transitive(order.drop_first(), a, b, c);
        }
    }
}

/// Whether the first row comes strictly after the second in the order that
/// the sort keys give.
pub open spec fn comes_after(order: Seq<ColumnOrder>, a: Seq<DatumView>, b: Seq<DatumView>) -> bool {
    columns_order(order, a, b) == Ordering::Greater
}

/// Whether two rows tie: they differ by none of the sort keys.
pub open spec fn ties(order: Seq<ColumnOrder>, a: Seq<DatumView>, b: Seq<DatumView>) -> bool {
    columns_order(order, a, b) == Ordering::Equal
}

/// The order of rows is a total preorder. No row comes after itself; of two
/// rows at most one comes after the other, and they tie where neither does;
/// and a row that does not come after a second, which does not come after a
/// third, does not come after the third.
pub proof fn lemma_row_order_total(
    order: Seq<ColumnOrder>,
    a: Seq<DatumView>,
    b: Seq<DatumView>,
    c: Seq<DatumView>,
)
    ensures
        !comes_after(order, a, a),
        ties(order, a, a),
        !(comes_after(order, a, b) && comes_after(order, b, a)),
        ties(order, a, b) <==> !comes_after(order, a, b) && !comes_after(order, b, a),
        ties(order, a, b) <==> ties(order, b, a),
        !comes_after(order, a, b) && !comes_after(order, b, c) ==> !comes_after(order, a, c),
        ties(order, a, b) && ties(order, b, c) ==> ties(order, a, c),
        ties(order, a, b) ==> (comes_after(order, a, c) <==> comes_after(order, b, c)),
        ties(order, a, b) ==> (comes_after(order, c, a) <==> comes_after(order, c, b)),
{
    lemma_columns_order_reflexive(order, a);
    lemma_columns_order_flip(order, a, b);
    lemma_columns_order_flip(order, b, c);
    lemma_columns_order_flip(order, a, c);
    if !comes_after(order, a, b) && !comes_after(order, b, c) {
        lemma_columns_order_transitive(order, a, b, c);
    }
    if !comes_after(order, c, b) && !comes_after(order, b, a) {
        lemma_columns_order_transitive(order, c, b, a);
    }
    if !comes_after(order, b, a) && !comes_after(order, a, c) {
        lemma_columns_order_transitive(order, b, a, c);
    }
    if !comes_after(order, c, a) && !comes_after(order, a, b) {
        lemma_columns_order_transitive(order, c, a, b);
    }
}

/// Compares two rows by a list of sort keys. The keys are tried from the
/// first on; the first by which the rows differ decides, ascending or, where
/// the key says so, descending. Rows that differ by no key compare equal.
pub fn compare_columns(order: &[ColumnOrder], left: &[Datum], right: &[Datum]) -> (r: Ordering)
    requires
        keys_within(order@, left@.len()),
        keys_within(order@, right@.len()),
    ensures
        r == columns_order(order@, left.deep_view(), right.deep_view()),
{
    let ghost keys = order@;
    let ghost l = left.deep_view();
    let ghost r = right.deep_view();
    let ghost mut k: int = 0;
    let mut i: usize = 0;
    assert(keys.skip(0) =~= keys);
    while i < order.len()
        invariant
            k == i,
            i <= order.len(),
            keys == order@,
            l == left.deep_view(),
            r == right.deep_view(),
            keys_within(keys, left@.len()),
            keys_within(keys, right@.len()),
            columns_order(keys, l, r) == columns_order(keys.skip(k), l, r),
        decreases order.len() - i,
    {
        let key = order[i];
        assert(keys.skip(k).drop_first() =~= keys.skip(k + 1));
        let lval = &left[key.column];
        let rval = &right[key.column];
        let by_key = if key.desc {
            rval.compare(lval)
        } else {
            lval.compare(rval)
        };
        match by_key {
            Ordering::Equal => {},
            _ => {
                return by_key;
            },
        }
        i = i + 1;
        proof {
            k = k + 1;
        }
    }
    Ordering::Equal
}

/// Whether the first row comes strictly after the second by the sort keys.
pub fn row_comes_after(order: &Vec<ColumnOrder>, a: &Row, b: &Row) -> (r: bool)
    requires
        keys_within(order@, a@.len()),
        keys_within(order@, b@.len()),
    ensures
        r == comes_after(order@, a@, b@),
{
    let left = a.datums.as_slice();
    let right = b.datums.as_slice();
    match compare_columns(order.as_slice(), left, right) {
        Ordering::Greater => true,
        _ => false,
    }
}

/// Instructions for finishing the result of a query: which rows to keep, in
/// what order, which stretch of them, and which of their columns.
#[derive(Clone, Debug, PartialEq, Eq)]
pub struct RowSetFinishing {
    /// Include only rows matching all predicates.
    pub filter: Vec<ScalarExpr>,
    /// Order rows by the given columns.
    pub order_by: Vec<ColumnOrder>,
    /// Include only as many rows (after offset).
    pub limit: Option<usize>,
    /// Omit as many rows.
    pub offset: usize,
    /// Include only given columns.
    pub project: Vec<usize>,
}

/// Why a set of rows could not be finished.
#[derive(Clone, Copy, Debug, PartialEq, Eq)]
pub enum FinishError {
    /// The verdicts are not one per row and predicate.
    VerdictsMismatch,
    /// A sort key or the projection names a column that some row lacks.
    ColumnOutOfRange,
}

/// Whether every column of a projection lies within a row of the given
/// arity.
pub open spec fn columns_within(project: Seq<usize>, arity: nat) -> bool {
    forall|i: int| 0 <= i < project.len() ==> #[trigger] project[i] < arity
}

/// Whether a row satisfies every predicate, given what each predicate made
/// of it.
pub open spec fn passes(verdicts: Seq<bool>) -> bool {
    forall|j: int| 0 <= j < verdicts.len() ==> verdicts[j]
}

/// Of the first `upto` rows, those that satisfy every predicate, in their
/// order. `verdicts[i][j]` is what predicate `j` made of row `i`.
pub open spec fn kept_rows(
    rows: Seq<Seq<DatumView>>,
    verdicts: Seq<Seq<bool>>,
    upto: nat,
) -> Seq<Seq<DatumView>>
    decreases upto,
{
    if upto == 0 {
        Seq::empty()
    } else if passes(verdicts[upto - 1]) {
        kept_rows(rows, verdicts, (upto - 1) as nat).push(rows[upto - 1])
    } else {
        kept_rows(rows, verdicts, (upto - 1) as nat)
    }
}

/// The rows that satisfy every predicate, in their order.
pub open spec fn filter_rows(rows: Seq<Seq<DatumView>>, verdicts: Seq<Seq<bool>>) -> Seq<
    Seq<DatumView>,
> {
    kept_rows(rows, verdicts, rows.len())
}

/// The first position of the page: the offset, or the end of the rows where
/// there are fewer.
pub open spec fn page_start(len: nat, offset: usize) -> nat {
    if offset < len {
        offset as nat
    } else {
        len
    }
}

/// The position behind the page: as many rows behind its start as the limit
/// allows, or the end of the rows where there are fewer or there is no limit.
pub open spec fn page_end(len: nat, offset: usize, limit: Option<usize>) -> nat {
    let start = page_start(len, offset);
    match limit {
        Some(count) => if start + count < len {
            (start + count) as nat
        } else {
            len
        },
        None => len,
    }
}

/// The rows without the first `offset` of them, and of the rest no more than
/// the limit.
pub open spec fn page(rows: Seq<Seq<DatumView>>, offset: usize, limit: Option<usize>) -> Seq<
    Seq<DatumView>,
> {
    rows.subrange(page_start(rows.len(), offset) as int, page_end(rows.len(), offset, limit) as int)
}

/// A row cut down to the listed columns, in the order of the list.
pub open spec fn project_row(row: Seq<DatumView>, project: Seq<usize>) -> Seq<DatumView> {
    Seq::new(project.len(), |i: int| row[project[i] as int])
}

/// Every row cut down to the listed columns.
pub open spec fn project_rows(rows: Seq<Seq<DatumView>>, project: Seq<usize>) -> Seq<
    Seq<DatumView>,
> {
    Seq::new(rows.len(), |i: int| project_row(rows[i], project))
}

impl RowSetFinishing {
    /// Whether the verdicts are one list per row, each with one verdict per
    /// predicate of the filter.
    pub open spec fn verdicts_match(&self, rows: nat, verdicts: Seq<Seq<bool>>) -> bool {
        &&& verdicts.len() == rows
        &&& forall|i: int|
            0 <= i < verdicts.len() ==> (#[trigger] verdicts[i]).len() == self.filter@.len()
    }

    /// Whether every column that the sort keys and the projection name lies
    /// within a row of the given arity.
    pub open spec fn fits(&self, arity: nat) -> bool {
        keys_within(self.order_by@, arity) && columns_within(self.project@, arity)
    }

    /// Whether this finishing fits every one of the rows.
    pub open spec fn fits_all(&self, rows: Seq<Seq<DatumView>>) -> bool {
        forall|i: int| 0 <= i < rows.len() ==> self.fits((#[trigger] rows[i]).len())
    }

    /// The finished rows: the rows that pass the filter, sorted by the sort
    /// keys with ties in their first order, cut to the page that offset and
    /// limit give, each cut down to the projected columns.
    pub open spec fn finished(&self, rows: Seq<Seq<DatumView>>, verdicts: Seq<Seq<bool>>) -> Seq<
        Seq<DatumView>,
    > {
        project_rows(
            page(sort_rows(self.order_by@, filter_rows(rows, verdicts)), self.offset, self.limit),
            self.project@,
        )
    }

    /// Whether there is no limit, no sort key and no offset.
    pub open spec fn trivial(&self) -> bool {
        self.limit is None && self.order_by@.len() == 0 && self.offset == 0
    }

    /// Whether ordering and pagination can be skipped: there is no limit, no
    /// sort key and no offset. Filter and projection do not count.
    pub fn is_trivial(&self) -> (r: bool)
        ensures
            r == self.trivial(),
    {
        self.limit.is_none() && self.order_by.len() == 0 && self.offset == 0
    }

    /// Whether every column that the sort keys and the projection name lies
    /// within a row of the given arity.
    pub fn fits_arity(&self, arity: usize) -> (r: bool)
        ensures
            r == self.fits(arity as nat),
    {
        let mut i: usize = 0;
        while i < self.order_by.len()
            invariant
                i <= self.order_by.len(),
                forall|j: int| 0 <= j < i ==> (#[trigger] self.order_by@[j]).column < arity,
            decreases self.order_by.len() - i,
        {
            if self.order_by[i].column >= arity {
                return false;
            }
            i = i + 1;
        }
        let mut k: usize = 0;
        while k < self.project.len()
            invariant
                k <= self.project.len(),
                keys_within(self.order_by@, arity as nat),
                forall|j: int| 0 <= j < k ==> #[trigger] self.project@[j] < arity,
            decreases self.project.len() - k,
        {
            if self.project[k] >= arity {
                return false;
            }
            k = k + 1;
        }
        true
    }

    /// Finishes a materialized set of rows. `verdicts[i][j]` tells whether
    /// row `i` satisfies predicate `j` of the filter, as the engine found.
    /// The rows that satisfy every predicate are sorted by the sort keys,
    /// ties staying in their order; the first `offset` of them are skipped
    /// and at most `limit` kept; each is cut down to the projected columns.
    pub fn finish(&self, rows: &Vec<Row>, verdicts: &Vec<Vec<bool>>) -> (res: Result<
        Vec<Row>,
        FinishError,
    >)
        ensures
            match res {
                Ok(out) => {
                    &&& self.verdicts_match(rows@.len(), verdicts.deep_view())
                    &&& self.fits_all(rows.deep_view())
                    &&& out.deep_view() == self.finished(rows.deep_view(), verdicts.deep_view())
                },
                Err(FinishError::VerdictsMismatch) => !self.verdicts_match(
                    rows@.len(),
                    verdicts.deep_view(),
                ),
                Err(FinishError::ColumnOutOfRange) => {
                    &&& self.verdicts_match(rows@.len(), verdicts.deep_view())
                    &&& !self.fits_all(rows.deep_view())
                },
            },
    {
        if !self.has_verdicts(rows.len(), verdicts) {
            return Err(FinishError::VerdictsMismatch);
        }
        if !self.fits_rows(rows) {
            return Err(FinishError::ColumnOutOfRange);
        }
        let kept = keep_positions(rows, verdicts);
        assert forall|i: int| 0 <= i < rows@.len() implies keys_within(
            self.order_by@,
            (#[trigger] rows@[i])@.len(),
        ) by {
            assert(rows.deep_view()[i] == rows@[i]@);
        }
        let sorted = sort_positions(&self.order_by, rows, &kept);
        let ghost ordered = sort_rows(self.order_by@, filter_rows(rows.deep_view(), verdicts.deep_view()));
        let len: usize = sorted.len();
        let start: usize = if self.offset < len {
            self.offset
        } else {
            len
        };
        let end: usize = match self.limit {
            Some(count) => if count < len - start {
                start + count
            } else {
                len
            },
            None => len,
        };
        let mut out: Vec<Row> = Vec::new();
        let mut i: usize = start;
        while i < end
            invariant
                start <= i <= end <= len,
                len == sorted.len(),
                ordered == select(rows.deep_view(), sorted@),
                positions_within(sorted@, rows@.len()),
                self.fits_all(rows.deep_view()),
                out.len() == i - start,
                forall|j: int|
                    0 <= j < out.len() ==> (#[trigger] out[j])@ == project_row(
                        ordered[start + j],
                        self.project@,
                    ),
            decreases end - i,
        {
            let row = &rows[sorted[i]];
            assert(rows.deep_view()[sorted[i as int] as int] == row@);
            let cut = project(row, &self.project);
            out.push(cut);
            i = i + 1;
        }
        Ok(out)
    }

    /// Whether the verdicts are one list per row, each with one verdict per
    /// predicate.
    fn has_verdicts(&self, rows: usize, verdicts: &Vec<Vec<bool>>) -> (r: bool)
        ensures
            r == self.verdicts_match(rows as nat, verdicts.deep_view()),
    {
        let ghost views = verdicts.deep_view();
        if verdicts.len() != rows {
            return false;
        }
        let mut i: usize = 0;
        while i < verdicts.len()
            invariant
                i <= verdicts.len(),
                views == verdicts.deep_view(),
                forall|j: int| 0 <= j < i ==> (#[trigger] views[j]).len() == self.filter@.len(),
            decreases verdicts.len() - i,
        {
            assert(views[i as int].len() == verdicts[i as int].len());
            if verdicts[i].len() != self.filter.len() {
                return false;
            }
            i = i + 1;
        }
        true
    }

    /// Whether this finishing fits every one of the rows.
    fn fits_rows(&self, rows: &Vec<Row>) -> (r: bool)
        ensures
            r == self.fits_all(rows.deep_view()),
    {
        let ghost views = rows.deep_view();
        let mut i: usize = 0;
        while i < rows.len()
            invariant
                i <= rows.len(),
                views == rows.deep_view(),
                forall|j: int| 0 <= j < i ==> self.fits((#[trigger] views[j]).len()),
            decreases rows.len() - i,
        {
            assert(views[i as int].len() == rows[i as int].datums.len());
            if !self.fits_arity(rows[i].datums.len()) {
                return false;
            }
            i = i + 1;
        }
        true
    }
}

/// A trivial finishing only filters and projects: the rows that pass the
/// filter stay in their order, and none is cut off.
pub proof fn lemma_trivial_skips_order_and_page(
    finishing: RowSetFinishing,
    rows: Seq<Seq<DatumView>>,
    verdicts: Seq<Seq<bool>>,
)
    requires
        finishing.trivial(),
    ensures
        finishing.finished(rows, verdicts) == project_rows(
            filter_rows(rows, verdicts),
            finishing.project@,
        ),
{
    let kept = filter_rows(rows, verdicts);
    lemma_sort_rows_without_keys(finishing.order_by@, kept);
}

/// Whether every verdict is true.
fn all_true(verdicts: &Vec<bool>) -> (r: bool)
    ensures
        r == passes(verdicts@),
{
    let mut j: usize = 0;
    while j < verdicts.len()
        invariant
            j <= verdicts.len(),
            forall|k: int| 0 <= k < j ==> verdicts@[k],
        decreases verdicts.len() - j,
    {
        if !verdicts[j] {
            return false;
        }
        j = j + 1;
    }
    true
}

/// The positions of the rows that satisfy every predicate, ascending.
fn keep_positions(rows: &Vec<Row>, verdicts: &Vec<Vec<bool>>) -> (kept: Vec<usize>)
    requires
        verdicts.len() == rows.len(),
    ensures
        positions_within(kept@, rows@.len()),
        select(rows.deep_view(), kept@) == filter_rows(rows.deep_view(), verdicts.deep_view()),
{
    let ghost views = rows.deep_view();
    let ghost marks = verdicts.deep_view();
    let mut kept: Vec<usize> = Vec::new();
    let mut i: usize = 0;
    while i < rows.len()
        invariant
            i <= rows.len(),
            verdicts.len() == rows.len(),
            views == rows.deep_view(),
            marks == verdicts.deep_view(),
            positions_within(kept@, rows@.len()),
            select(views, kept@) == kept_rows(views, marks, i as nat),
        decreases rows.len() - i,
    {
        assert(marks[i as int] =~= verdicts[i as int]@);
        if all_true(&verdicts[i]) {
            kept.push(i);
        }
        i = i + 1;
    }
    kept
}

/// A row cut down to the listed columns, in the order of the list.
fn project(row: &Row, columns: &Vec<usize>) -> (cut: Row)
    requires
        columns_within(columns@, row@.len()),
    ensures
        cut@ == project_row(row@, columns@),
{
    let mut datums: Vec<Datum> = Vec::new();
    let mut i: usize = 0;
    while i < columns.len()
        invariant
            i <= columns.len(),
            columns_within(columns@, row@.len()),
            datums.len() == i,
            forall|j: int| 0 <= j < i ==> (#[trigger] datums[j])@ == row@[columns[j] as int],
        decreases columns.len() - i,
    {
        datums.push(row.datums[columns[i]].clone());
        i = i + 1;
    }
    Row { datums }
}

} // verus!
