//! Values and rows, and the total order of values by which rows are sorted.

use std::cmp::Ordering;
use vstd::prelude::*;
use vstd::std_specs::cmp::PartialEqSpecImpl;
use vstd::std_specs::iter::IteratorSpec;

verus! {

/// A single value in a row.
#[derive(Debug, Eq)]
pub enum Datum {
    /// The unknown value.
    Null,
    /// The boolean false.
    False,
    /// The boolean true.
    True,
    /// A 32-bit signed integer.
    Int32(i32),
    /// A 64-bit signed integer.
    Int64(i64),
    /// A string of bytes.
    Bytes(Vec<u8>),
    /// A string of Unicode characters.
    String(String),
}

/// The mathematical value of a [`Datum`].
pub enum DatumView {
    Null,
    False,
    True,
    Int32(i32),
    Int64(i64),
    Bytes(Seq<u8>),
    String(Seq<char>),
}

impl View for Datum {
    type V = DatumView;

    open spec fn view(&self) -> DatumView {
        match self {
            Datum::Null => DatumView::Null,
            Datum::False => DatumView::False,
            Datum::True => DatumView::True,
            Datum::Int32(x) => DatumView::Int32(*x),
            Datum::Int64(x) => DatumView::Int64(*x),
            Datum::Bytes(b) => DatumView::Bytes(b@),
            Datum::String(s) => DatumView::String(s@),
        }
    }
}

impl DeepView for Datum {
    type V = DatumView;

    open spec fn deep_view(&self) -> DatumView {
        self@
    }
}

/// A row: the values of its columns, in column order.
#[derive(Debug, Eq)]
pub struct Row {
    pub datums: Vec<Datum>,
}

impl View for Row {
    type V = Seq<DatumView>;

    open spec fn view(&self) -> Seq<DatumView> {
        self.datums.deep_view()
    }
}

impl DeepView for Row {
    type V = Seq<DatumView>;

    open spec fn deep_view(&self) -> Seq<DatumView> {
        self@
    }
}

/// The position of a value's kind among the kinds: values of different kinds
/// are ordered by it.
pub open spec fn kind_rank(d: DatumView) -> int {
    match d {
        DatumView::Null => 0,
        DatumView::False => 1,
        DatumView::True => 2,
        DatumView::Int32(_) => 3,
        DatumView::Int64(_) => 4,
        DatumView::Bytes(_) => 5,
        DatumView::String(_) => 6,
    }
}

/// The numbers of the bytes of a byte string.
pub open spec fn byte_codes(s: Seq<u8>) -> Seq<int> {
    Seq::new(s.len(), |i: int| s[i] as int)
}

/// The code points of the characters of a string.
pub open spec fn char_codes(s: Seq<char>) -> Seq<int> {
    Seq::new(s.len(), |i: int| s[i] as int)
}

/// What orders two values of one kind: the number of an integer, the bytes of
/// a byte string, the code points of a string.
pub open spec fn payload_key(d: DatumView) -> Seq<int> {
    match d {
        DatumView::Null => Seq::empty(),
        DatumView::False => Seq::empty(),
        DatumView::True => Seq::empty(),
        DatumView::Int32(x) => seq![x as int],
        DatumView::Int64(x) => seq![x as int],
        DatumView::Bytes(b) => byte_codes(b),
        DatumView::String(s) => char_codes(s),
    }
}

/// The key of a value: its kind, then its payload.
pub open spec fn sort_key(d: DatumView) -> Seq<int> {
    seq![kind_rank(d)] + payload_key(d)
}

/// The order of two integers.
pub open spec fn int_order(a: int, b: int) -> Ordering {
    if a < b {
        Ordering::Less
    } else if a > b {
        Ordering::Greater
    } else {
        Ordering::Equal
    }
}

/// The lexicographic order of two sequences of integers: the first position
/// at which they differ decides, and a proper prefix comes first.
pub open spec fn lex_order(a: Seq<int>, b: Seq<int>) -> Ordering
    decreases a.len(),
{
    if a.len() == 0 {
        if b.len() == 0 {
            Ordering::Equal
        } else {
            Ordering::Less
        }
    } else if b.len() == 0 {
        Ordering::Greater
    } else if a[0] != b[0] {
        int_order(a[0], b[0])
    } else {
        lex_order(a.drop_first(), b.drop_first())
    }
}

/// The order of two values: by kind first, and within a kind integers by
/// their number, byte strings and strings lexicographically.
pub open spec fn datum_order(a: DatumView, b: DatumView) -> Ordering {
    lex_order(sort_key(a), sort_key(b))
}

/// The opposite of an order: what it is with the operands swapped.
pub open spec fn flip(o: Ordering) -> Ordering {
    match o {
        Ordering::Less => Ordering::Greater,
        Ordering::Equal => Ordering::Equal,
        Ordering::Greater => Ordering::Less,
    }
}

/// Two sequences compare equal exactly when they are the same sequence.
pub proof fn lemma_lex_equal(a: Seq<int>, b: Seq<int>)
    ensures
        (lex_order(a, b) == Ordering::Equal) <==> a == b,
    decreases a.len(),
{
    if a.len() > 0 && b.len() > 0 {
        lemma_lex_equal(a.drop_first(), b.drop_first());
        if a[0] == b[0] && a.drop_first() == b.drop_first() {
            assert(a =~= seq![a[0]] + a.drop_first());
            assert(b =~= seq![b[0]] + b.drop_first());
        }
    } else if a.len() == 0 && b.len() == 0 {
        assert(a =~= b);
    }
}

/// Swapping the operands of the lexicographic order gives the opposite
/// result.
pub proof fn lemma_lex_flip(a: Seq<int>, b: Seq<int>)
    ensures
        lex_order(b, a) == flip(lex_order(a, b)),
    decreases a.len(),
{
    if a.len() > 0 && b.len() > 0 {
        lemma_lex_flip(a.drop_first(), b.drop_first());
    }
}

/// The lexicographic order is transitive: what is not after `b`, where `b`
/// is not after `c`, is not after `c`, and is before it if either step is
/// strict.
pub proof fn lemma_lex_transitive(a: Seq<int>, b: Seq<int>, c: Seq<int>)
    requires
        lex_order(a, b) != Ordering::Greater,
        lex_order(b, c) != Ordering::Greater,
    ensures
        lex_order(a, c) != Ordering::Greater,
        lex_order(a, c) == Ordering::Equal ==> lex_order(a, b) == Ordering::Equal && lex_order(
            b,
            c,
        ) == Ordering::Equal,
    decreases a.len(),
{
    if a.len() > 0 && b.len() > 0 && c.len() > 0 {
        if a[0] == b[0] && b[0] == c[0] {
            lemma_lex_transitive(a.drop_first(), b.drop_first(), c.drop_first());
        }
    }
}

/// The key of a value determines the value.
pub proof fn lemma_sort_key_injective(a: DatumView, b: DatumView)
    requires
        sort_key(a) == sort_key(b),
    ensures
        a == b,
{
    assert(sort_key(a)[0] == kind_rank(a));
    assert(payload_key(a) =~= sort_key(a).drop_first());
    match (a, b) {
        (DatumView::Int32(x), DatumView::Int32(y)) => {
            assert(payload_key(a)[0] == x as int);
        },
        (DatumView::Int64(x), DatumView::Int64(y)) => {
            assert(payload_key(a)[0] == x as int);
        },
        (DatumView::Bytes(x), DatumView::Bytes(y)) => {
            assert forall|i: int| 0 <= i < x.len() implies x[i] == y[i] by {
                assert(byte_codes(x)[i] == x[i] as int);
            }
            assert(x =~= y);
        },
        (DatumView::String(x), DatumView::String(y)) => {
            assert forall|i: int| 0 <= i < x.len() implies x[i] == y[i] by {
                assert(char_codes(x)[i] == x[i] as int);
            }
            assert(x =~= y);
        },
        _ => {},
    }
}

/// Two values compare equal exactly when they are the same value.
pub proof fn lemma_datum_order_equal(a: DatumView, b: DatumView)
    ensures
        (datum_order(a, b) == Ordering::Equal) <==> a == b,
{
    lemma_lex_equal(sort_key(a), sort_key(b));
    if sort_key(a) == sort_key(b) {
        lemma_sort_key_injective(a, b);
    }
}

/// Swapping two values gives the opposite order.
pub proof fn lemma_datum_order_flip(a: DatumView, b: DatumView)
    ensures
        datum_order(b, a) == flip(datum_order(a, b)),
{
    lemma_lex_flip(sort_key(a), sort_key(b));
}

/// The order of values is transitive.
pub proof fn lemma_datum_order_transitive(a: DatumView, b: DatumView, c: DatumView)
    requires
        datum_order(a, b) != Ordering::Greater,
        datum_order(b, c) != Ordering::Greater,
    ensures
        datum_order(a, c) != Ordering::Greater,
        datum_order(a, c) == Ordering::Equal ==> datum_order(a, b) == Ordering::Equal
            && datum_order(b, c) == Ordering::Equal,
{
    lemma_lex_transitive(sort_key(a), sort_key(b), sort_key(c));
}

impl PartialEq for Datum {
    fn eq(&self, other: &Datum) -> (r: bool) {
        match (self, other) {
            (Datum::Null, Datum::Null) => true,
            (Datum::False, Datum::False) => true,
            (Datum::True, Datum::True) => true,
            (Datum::Int32(x), Datum::Int32(y)) => *x == *y,
            (Datum::Int64(x), Datum::Int64(y)) => *x == *y,
            (Datum::Bytes(x), Datum::Bytes(y)) => {
                let same = *x == *y;
                assert(same == (x@ =~= y@));
                same
            },
            (Datum::String(x), Datum::String(y)) => *x == *y,
            _ => false,
        }
    }
}

impl PartialEqSpecImpl for Datum {
    open spec fn obeys_eq_spec() -> bool {
        true
    }

    open spec fn eq_spec(&self, other: &Datum) -> bool {
        self@ == other@
    }
}

impl PartialEq for Row {
    fn eq(&self, other: &Row) -> (r: bool) {
        if self.datums.len() != other.datums.len() {
            assert(self@.len() != other@.len());
            return false;
        }
        let mut i: usize = 0;
        while i < self.datums.len()
            invariant
                i <= self.datums.len(),
                self.datums.len() == other.datums.len(),
                forall|j: int| 0 <= j < i ==> self.datums[j]@ == other.datums[j]@,
            decreases self.datums.len() - i,
        {
            if self.datums[i] != other.datums[i] {
                assert(self@[i as int] != other@[i as int]);
                return false;
            }
            i = i + 1;
        }
        assert(self@ =~= other@);
        true
    }
}

impl PartialEqSpecImpl for Row {
    open spec fn obeys_eq_spec() -> bool {
        true
    }

    open spec fn eq_spec(&self, other: &Row) -> bool {
        self@ == other@
    }
}

impl Clone for Datum {
    fn clone(&self) -> (res: Self)
        ensures
            res@ == self@,
    {
        match self {
            Datum::Null => Datum::Null,
            Datum::False => Datum::False,
            Datum::True => Datum::True,
            Datum::Int32(x) => Datum::Int32(*x),
            Datum::Int64(x) => Datum::Int64(*x),
            Datum::Bytes(b) => {
                let copy = b.clone();
                Datum::Bytes(copy)
            },
            Datum::String(s) => Datum::String(s.clone()),
        }
    }
}

impl Clone for Row {
    fn clone(&self) -> (res: Self)
        ensures
            res@ == self@,
    {
        let mut datums: Vec<Datum> = Vec::new();
        let mut i: usize = 0;
        while i < self.datums.len()
            invariant
                i <= self.datums.len(),
                datums.len() == i,
                forall|j: int| 0 <= j < i ==> datums[j]@ == self.datums[j]@,
            decreases self.datums.len() - i,
        {
            datums.push(self.datums[i].clone());
            i = i + 1;
        }
        let res = Row { datums };
        res
    }
}

impl Datum {
    /// The position of this value's kind among the kinds.
    fn kind(&self) -> (k: u8)
        ensures
            k == kind_rank(self@),
    {
        match self {
            Datum::Null => 0,
            Datum::False => 1,
            Datum::True => 2,
            Datum::Int32(_) => 3,
            Datum::Int64(_) => 4,
            Datum::Bytes(_) => 5,
            Datum::String(_) => 6,
        }
    }

    /// Compares this value with another in the total order of values.
    pub fn compare(&self, other: &Datum) -> (r: Ordering)
        ensures
            r == datum_order(self@, other@),
    {
        proof {
            lemma_key_order(self@, other@);
        }
        match (self, other) {
            (Datum::Int32(x), Datum::Int32(y)) => order_of_i64(widen(*x), widen(*y)),
            (Datum::Int64(x), Datum::Int64(y)) => order_of_i64(*x, *y),
            (Datum::Bytes(x), Datum::Bytes(y)) => order_of_bytes(x.as_slice(), y.as_slice()),
            (Datum::String(x), Datum::String(y)) => order_of_text(x.as_str(), y.as_str()),
            _ => order_of_i64(small(self.kind()), small(other.kind())),
        }
    }
}

/// A 32-bit integer as a 64-bit one.
fn widen(x: i32) -> (y: i64)
    ensures
        y == x,
{
    x as i64
}

/// A small number as a 64-bit integer.
fn small(x: u8) -> (y: i64)
    ensures
        y == x,
{
    x as i64
}

/// The code point of a character.
fn code_point(c: char) -> (n: u32)
    ensures
        n == c as int,
{
    c as u32
}

/// The number of a 64-bit integer.
pub open spec fn number(x: i64) -> int {
    x as int
}

/// The order of two values is that of their kinds where these differ, and
/// that of their payloads where they do not.
pub proof fn lemma_key_order(a: DatumView, b: DatumView)
    ensures
        datum_order(a, b) == if kind_rank(a) != kind_rank(b) {
            int_order(kind_rank(a), kind_rank(b))
        } else {
            lex_order(payload_key(a), payload_key(b))
        },
        lex_order(Seq::empty(), Seq::empty()) == Ordering::Equal,
        forall|x: int, y: int| #[trigger] lex_order(seq![x], seq![y]) == int_order(x, y),
{
    assert(sort_key(a).drop_first() =~= payload_key(a));
    assert(sort_key(b).drop_first() =~= payload_key(b));
    assert forall|x: int, y: int| #[trigger] lex_order(seq![x], seq![y]) == int_order(x, y) by {
        assert(seq![x].drop_first() =~= Seq::<int>::empty());
    }
}

/// The order of two 64-bit integers.
fn order_of_i64(x: i64, y: i64) -> (r: Ordering)
    ensures
        r == int_order(number(x), number(y)),
{
    if x < y {
        Ordering::Less
    } else if x > y {
        Ordering::Greater
    } else {
        Ordering::Equal
    }
}

/// One step of the lexicographic order, at a position inside both
/// sequences.
proof fn lemma_lex_step(a: Seq<int>, b: Seq<int>, i: int)
    requires
        0 <= i < a.len(),
        i < b.len(),
    ensures
        lex_order(a.skip(i), b.skip(i)) == if a[i] != b[i] {
            int_order(a[i], b[i])
        } else {
            lex_order(a.skip(i + 1), b.skip(i + 1))
        },
{
    assert(a.skip(i).drop_first() =~= a.skip(i + 1));
    assert(b.skip(i).drop_first() =~= b.skip(i + 1));
}

/// The lexicographic order of two byte strings.
fn order_of_bytes(x: &[u8], y: &[u8]) -> (r: Ordering)
    ensures
        r == lex_order(byte_codes(x@), byte_codes(y@)),
{
    let ghost a = byte_codes(x@);
    let ghost b = byte_codes(y@);
    let ghost mut k: int = 0;
    let mut i: usize = 0;
    assert(a.skip(0) =~= a && b.skip(0) =~= b);
    while i < x.len() && i < y.len()
        invariant
            k == i,
            i <= x.len(),
            i <= y.len(),
            a == byte_codes(x@),
            b == byte_codes(y@),
            lex_order(a, b) == lex_order(a.skip(k), b.skip(k)),
        decreases x.len() - i,
    {
        proof {
            lemma_lex_step(a, b, k);
        }
        if x[i] < y[i] {
            return Ordering::Less;
        }
        if x[i] > y[i] {
            return Ordering::Greater;
        }
        i = i + 1;
        proof {
            k = k + 1;
        }
    }
    if i < y.len() {
        Ordering::Less
    } else if i < x.len() {
        Ordering::Greater
    } else {
        Ordering::Equal
    }
}

/// The lexicographic order of two strings by code point.
fn order_of_text(x: &str, y: &str) -> (r: Ordering)
    ensures
        r == lex_order(char_codes(x@), char_codes(y@)),
{
    let ghost a = char_codes(x@);
    let ghost b = char_codes(y@);
    let ghost mut k: int = 0;
    let mut left = x.chars();
    let mut right = y.chars();
    assert(a.skip(0) =~= a && b.skip(0) =~= b);
    loop
        invariant
            0 <= k <= x@.len(),
            k <= y@.len(),
            a == char_codes(x@),
            b == char_codes(y@),
            left.remaining() == x@.skip(k),
            right.remaining() == y@.skip(k),
            lex_order(a, b) == lex_order(a.skip(k), b.skip(k)),
        decreases x@.len() - k,
    {
        let l = left.next();
        let r = right.next();
        match (l, r) {
            (None, None) => {
                return Ordering::Equal;
            },
            (None, Some(_)) => {
                return Ordering::Less;
            },
            (Some(_), None) => {
                return Ordering::Greater;
            },
            (Some(c), Some(d)) => {
                proof {
                    lemma_lex_step(a, b, k);
                }
                let m = code_point(c);
                let n = code_point(d);
                if m < n {
                    return Ordering::Less;
                }
                if m > n {
                    return Ordering::Greater;
                }
                proof {
                    k = k + 1;
                }
            },
        }
    }
}

/// Whether two strings hold the same characters.
pub fn same_text(x: &str, y: &str) -> (r: bool)
    ensures
        r == (x@ == y@),
{
    proof {
        lemma_lex_equal(char_codes(x@), char_codes(y@));
        if char_codes(x@) == char_codes(y@) {
            lemma_sort_key_injective(DatumView::String(x@), DatumView::String(y@));
        }
    }
    match order_of_text(x, y) {
        Ordering::Equal => true,
        _ => false,
    }
}

} // verus!
