//! Relations as the engine sees them: the shape of their rows, and the
//! expression trees that define views.

use crate::datum::{same_text, Datum};
use vstd::prelude::*;

verus! {

/// The kind of value that a column holds.
#[derive(Clone, Copy, Debug, PartialEq, Eq)]
pub enum ScalarType {
    /// The type of the unknown value alone.
    Null,
    Bool,
    Int32,
    Int64,
    Bytes,
    String,
}

/// The type of a column.
#[derive(Clone, Copy, Debug, PartialEq, Eq)]
pub struct ColumnType {
    /// The kind of value that the column holds.
    pub scalar_type: ScalarType,
    /// Whether the column may hold the unknown value.
    pub nullable: bool,
}

impl ColumnType {
    /// A column type of the given kind that does not admit the unknown value.
    pub fn new(scalar_type: ScalarType) -> (t: Self)
        ensures
            t == (ColumnType { scalar_type, nullable: false }),
    {
        ColumnType { scalar_type, nullable: false }
    }

    /// This column type, admitting the unknown value or not as given.
    pub fn nullable(self, nullable: bool) -> (t: Self)
        ensures
            t == (ColumnType { scalar_type: self.scalar_type, nullable }),
    {
        ColumnType { scalar_type: self.scalar_type, nullable }
    }
}

/// The type of the rows of a relation: one column type for each column.
#[derive(Clone, Debug, PartialEq, Eq)]
pub struct RelationType {
    pub column_types: Vec<ColumnType>,
}

impl RelationType {
    /// The relation type with the given column types.
    pub fn new(column_types: Vec<ColumnType>) -> (t: Self)
        ensures
            t.column_types == column_types,
    {
        RelationType { column_types }
    }

    /// The number of columns.
    pub fn arity(&self) -> (n: usize)
        ensures
            n == self.column_types@.len(),
    {
        self.column_types.len()
    }
}

/// A function of one argument.
#[derive(Clone, Copy, Debug, PartialEq, Eq)]
pub enum UnaryFunc {
    Not,
    IsNull,
}

/// A function of two arguments.
#[derive(Clone, Copy, Debug, PartialEq, Eq)]
pub enum BinaryFunc {
    And,
    Or,
    Eq,
    NotEq,
    Lt,
    Lte,
    Gt,
    Gte,
}

/// An expression over the columns of one row. The engine evaluates it; here
/// it is carried as data.
#[allow(inconsistent_fields)]
#[derive(Debug, PartialEq, Eq)]
pub enum ScalarExpr {
    /// The value of a column of the row.
    Column(usize),
    /// A constant.
    Literal(Datum),
    /// A function applied to one expression.
    CallUnary { func: UnaryFunc, expr: Box<ScalarExpr> },
    /// A function applied to two expressions.
    CallBinary { func: BinaryFunc, expr1: Box<ScalarExpr>, expr2: Box<ScalarExpr> },
}

impl Clone for ScalarExpr {
    fn clone(&self) -> (res: Self)
        decreases self,
    {
        match self {
            ScalarExpr::Column(c) => ScalarExpr::Column(*c),
            ScalarExpr::Literal(d) => ScalarExpr::Literal(d.clone()),
            ScalarExpr::CallUnary { func, expr } => ScalarExpr::CallUnary {
                func: *func,
                expr: Box::new((&**expr).clone()),
            },
            ScalarExpr::CallBinary { func, expr1, expr2 } => ScalarExpr::CallBinary {
                func: *func,
                expr1: Box::new((&**expr1).clone()),
                expr2: Box::new((&**expr2).clone()),
            },
        }
    }
}

/// The description of a relation: the type of its rows and the names of its
/// columns, where they have one.
#[derive(Clone, Debug, PartialEq, Eq)]
pub struct RelationDesc {
    pub typ: RelationType,
    pub names: Vec<Option<String>>,
}

impl RelationDesc {
    /// Whether there is one name, or the lack of one, for each column.
    pub open spec fn well_formed(&self) -> bool {
        self.names@.len() == self.typ.column_types@.len()
    }

    /// The description of a relation without columns.
    pub fn empty() -> (desc: Self)
        ensures
            desc.well_formed(),
            desc.typ.column_types@.len() == 0,
    {
        RelationDesc { typ: RelationType::new(Vec::new()), names: Vec::new() }
    }

    /// This description with one more column at the end, of the given name
    /// and kind, which does not admit the unknown value.
    pub fn add_column(self, name: &str, scalar_type: ScalarType) -> (desc: Self)
        ensures
            desc.typ.column_types@ == self.typ.column_types@.push(ColumnType::new_spec(scalar_type)),
            desc.names.deep_view() == self.names.deep_view().push(Some(name@)),
            self.well_formed() ==> desc.well_formed(),
    {
        let mut desc = self;
        desc.typ.column_types.push(ColumnType::new(scalar_type));
        desc.names.push(Some(name.to_owned()));
        desc
    }

    /// The type of the rows.
    pub fn typ(&self) -> (typ: &RelationType)
        ensures
            *typ == self.typ,
    {
        &self.typ
    }
}

impl ColumnType {
    /// The column type of the given kind that does not admit the unknown
    /// value.
    pub open spec fn new_spec(scalar_type: ScalarType) -> ColumnType {
        ColumnType { scalar_type, nullable: false }
    }
}

/// An expression that defines a relation from other relations.
#[allow(inconsistent_fields)]
#[derive(Debug, PartialEq, Eq)]
pub enum RelationExpr {
    /// The relation of the given name: one bound by an enclosing `Let`, or
    /// else a dataflow that the engine knows by that name.
    Get { name: String, typ: RelationType },
    /// The body, in which the name stands for the value.
    Let { name: String, value: Box<RelationExpr>, body: Box<RelationExpr> },
    /// The listed columns of the input, in the order of the list.
    Project { input: Box<RelationExpr>, outputs: Vec<usize> },
    /// The rows of the input that satisfy every predicate.
    Filter { input: Box<RelationExpr>, predicates: Vec<ScalarExpr> },
    /// The rows made of one row of each input, where the rows agree on every
    /// group of `(input, column)` pairs.
    Join { inputs: Vec<RelationExpr>, variables: Vec<Vec<(usize, usize)>> },
    /// The rows of the input, each once.
    Distinct { input: Box<RelationExpr> },
    /// The rows of both relations.
    Union { left: Box<RelationExpr>, right: Box<RelationExpr> },
}

/// The names that an expression refers to and does not itself bind.
pub open spec fn free_names(e: RelationExpr) -> Set<Seq<char>>
    decreases e, 0nat,
{
    match e {
        RelationExpr::Get { name, .. } => set![name@],
        RelationExpr::Let { name, value, body } => free_names(*value).union(
            free_names(*body).remove(name@),
        ),
        RelationExpr::Project { input, .. } => free_names(*input),
        RelationExpr::Filter { input, .. } => free_names(*input),
        RelationExpr::Join { inputs, .. } => free_names_among(inputs, inputs@.len()),
        RelationExpr::Distinct { input } => free_names(*input),
        RelationExpr::Union { left, right } => free_names(*left).union(free_names(*right)),
    }
}

/// The names that the first `upto` of the expressions refer to and do not
/// bind.
pub open spec fn free_names_among(inputs: Vec<RelationExpr>, upto: nat) -> Set<Seq<char>>
    decreases inputs, upto,
{
    if upto == 0 || upto > inputs@.len() {
        Set::empty()
    } else {
        free_names_among(inputs, (upto - 1) as nat).union(free_names(inputs[upto - 1]))
    }
}

/// A list of names without a given name, the others in their order.
pub open spec fn without(names: Seq<Seq<char>>, name: Seq<char>) -> Seq<Seq<char>>
    decreases names.len(),
{
    if names.len() == 0 {
        names
    } else if names.last() == name {
        without(names.drop_last(), name)
    } else {
        without(names.drop_last(), name).push(names.last())
    }
}

/// The names that an expression refers to and does not itself bind, one for
/// each place that refers to it, in the order of the places: of a `Let` the
/// value before the body, of a `Join` the inputs in their order, of a
/// `Union` the left before the right.
pub open spec fn free_uses(e: RelationExpr) -> Seq<Seq<char>>
    decreases e, 0nat,
{
    match e {
        RelationExpr::Get { name, .. } => seq![name@],
        RelationExpr::Let { name, value, body } => free_uses(*value) + without(
            free_uses(*body),
            name@,
        ),
        RelationExpr::Project { input, .. } => free_uses(*input),
        RelationExpr::Filter { input, .. } => free_uses(*input),
        RelationExpr::Join { inputs, .. } => free_uses_among(inputs, inputs@.len()),
        RelationExpr::Distinct { input } => free_uses(*input),
        RelationExpr::Union { left, right } => free_uses(*left) + free_uses(*right),
    }
}

/// The names that the first `upto` of the expressions refer to and do not
/// bind, one for each place, in the order of the places.
pub open spec fn free_uses_among(inputs: Vec<RelationExpr>, upto: nat) -> Seq<Seq<char>>
    decreases inputs, upto,
{
    if upto == 0 || upto > inputs@.len() {
        Seq::empty()
    } else {
        free_uses_among(inputs, (upto - 1) as nat) + free_uses(inputs[upto - 1])
    }
}

/// A list without a name holds the other names of the list and no more.
pub proof fn lemma_without_names(names: Seq<Seq<char>>, name: Seq<char>)
    ensures
        without(names, name).to_set() == names.to_set().remove(name),
    decreases names.len(),
{
    let rest = without(names, name);
    if names.len() > 0 {
        let front = names.drop_last();
        let kept = without(front, name);
        lemma_without_names(front, name);
        assert forall|n: Seq<char>| rest.to_set().contains(n) <==> names.to_set().remove(
            name,
        ).contains(n) by {
            if rest.contains(n) {
                let i = choose|i: int| 0 <= i < rest.len() && rest[i] == n;
                if i < kept.len() {
                    assert(kept.to_set().contains(n));
                }
            }
            if names.contains(n) && n != name {
                let k = choose|k: int| 0 <= k < names.len() && names[k] == n;
                if k < front.len() {
                    assert(front[k] == n);
                    assert(front.to_set().remove(name).contains(n));
                    let i = choose|i: int| 0 <= i < kept.len() && kept[i] == n;
                    assert(rest[i] == n);
                } else {
                    assert(rest[rest.len() - 1] == n);
                }
            }
        }
    }
}

/// Two lists one behind the other hold the names of both.
pub proof fn lemma_names_of_both(left: Seq<Seq<char>>, right: Seq<Seq<char>>)
    ensures
        (left + right).to_set() == left.to_set().union(right.to_set()),
{
    let both = left + right;
    assert forall|n: Seq<char>| both.to_set().contains(n) <==> left.to_set().union(
        right.to_set(),
    ).contains(n) by {
        if left.contains(n) {
            let i = choose|i: int| 0 <= i < left.len() && left[i] == n;
            assert(both[i] == n);
        }
        if right.contains(n) {
            let i = choose|i: int| 0 <= i < right.len() && right[i] == n;
            assert(both[left.len() + i] == n);
        }
    }
}

/// The names that an expression depends upon are those of the places that
/// refer to a name that it does not bind.
pub proof fn lemma_free_uses_are_free_names(e: RelationExpr)
    ensures
        free_uses(e).to_set() == free_names(e),
    decreases e, 0nat,
{
    match e {
        RelationExpr::Get { name, .. } => {
            assert(seq![name@][0] == name@);
        },
        RelationExpr::Let { name, value, body } => {
            lemma_free_uses_are_free_names(*value);
            lemma_free_uses_are_free_names(*body);
            lemma_without_names(free_uses(*body), name@);
            lemma_names_of_both(free_uses(*value), without(free_uses(*body), name@));
        },
        RelationExpr::Project { input, .. } => {
            lemma_free_uses_are_free_names(*input);
        },
        RelationExpr::Filter { input, .. } => {
            lemma_free_uses_are_free_names(*input);
        },
        RelationExpr::Join { inputs, .. } => {
            lemma_free_uses_among(inputs, inputs@.len());
        },
        RelationExpr::Distinct { input } => {
            lemma_free_uses_are_free_names(*input);
        },
        RelationExpr::Union { left, right } => {
            lemma_free_uses_are_free_names(*left);
            lemma_free_uses_are_free_names(*right);
            lemma_names_of_both(free_uses(*left), free_uses(*right));
        },
    }
}

/// The names that the first of a list of expressions depend upon are those
/// of the places in them that refer to a name that they do not bind.
pub proof fn lemma_free_uses_among(inputs: Vec<RelationExpr>, upto: nat)
    ensures
        free_uses_among(inputs, upto).to_set() == free_names_among(inputs, upto),
    decreases inputs, upto,
{
    if upto == 0 || upto > inputs@.len() {
    } else {
        lemma_free_uses_among(inputs, (upto - 1) as nat);
        lemma_free_uses_are_free_names(inputs[upto - 1]);
        lemma_names_of_both(
            free_uses_among(inputs, (upto - 1) as nat),
            free_uses(inputs[upto - 1]),
        );
    }
}

/// The names in a list, as sequences of characters.
pub open spec fn texts(names: Seq<&str>) -> Seq<Seq<char>> {
    Seq::new(names.len(), |i: int| names[i]@)
}

/// The set of the names in a list.
pub open spec fn names_in(names: Seq<&str>) -> Set<Seq<char>> {
    Set::new(|n: Seq<char>| exists|i: int| 0 <= i < names.len() && (#[trigger] names[i])@ == n)
}

/// A list with one more name holds that name and those it held.
pub proof fn lemma_names_in_push(names: Seq<&str>, name: &str)
    ensures
        names_in(names.push(name)) == names_in(names).insert(name@),
{
    let longer = names.push(name);
    assert forall|n: Seq<char>| names_in(longer).contains(n) <==> names_in(names).insert(
        name@,
    ).contains(n) by {
        if names_in(names).contains(n) {
            let i = choose|i: int| 0 <= i < names.len() && (#[trigger] names[i])@ == n;
            assert(longer[i]@ == n);
        }
        if n == name@ {
            assert(longer[names.len() as int]@ == n);
        }
    }
}

impl RelationExpr {
    /// The rows of this relation, each once.
    pub fn distinct(self) -> (e: Self)
        ensures
            e == (RelationExpr::Distinct { input: Box::new(self) }),
    {
        RelationExpr::Distinct { input: Box::new(self) }
    }

    /// Collects the names of the dataflows that this expression depends
    /// upon: every name that it refers to and no enclosing `Let` binds. The
    /// names are added behind those that `out` holds, one for each place
    /// that refers to it.
    pub fn unbound_uses<'a>(&'a self, out: &mut Vec<&'a str>)
        ensures
            texts(final(out)@) == texts(old(out)@) + free_uses(*self),
            names_in(final(out)@) == names_in(old(out)@).union(free_names(*self)),
        decreases self,
    {
        let ghost before = out@;
        match self {
            RelationExpr::Get { name, .. } => {
                let name = name.as_str();
                proof {
                    lemma_names_in_push(out@, name);
                }
                out.push(name);
            },
            RelationExpr::Let { name, value, body } => {
                let name = name.as_str();
                value.unbound_uses(out);
                let ghost middle = out@;
                let mut inner: Vec<&'a str> = Vec::new();
                body.unbound_uses(&mut inner);
                let mut i: usize = 0;
                while i < inner.len()
                    invariant
                        i <= inner.len(),
                        names_in(out@) == names_in(middle).union(
                            names_in(inner@.take(i as int)).remove(name@),
                        ),
                        texts(out@) == texts(middle) + without(
                            texts(inner@.take(i as int)),
                            name@,
                        ),
                    decreases inner.len() - i,
                {
                    let ghost prefix = inner@.take(i as int);
                    let ghost longer = inner@.take(i + 1);
                    let ghost so_far = out@;
                    proof {
                        assert(longer =~= prefix.push(inner@[i as int]));
                        lemma_names_in_push(prefix, inner@[i as int]);
                        assert(texts(longer).drop_last() =~= texts(prefix));
                    }
                    if !same_text(inner[i], name) {
                        proof {
                            lemma_names_in_push(out@, inner@[i as int]);
                        }
                        out.push(inner[i]);
                        assert(texts(out@) =~= texts(so_far).push(inner@[i as int]@));
                    }
                    i = i + 1;
                }
                assert(inner@.take(i as int) =~= inner@);
            },
            RelationExpr::Project { input, .. } => {
                input.unbound_uses(out);
            },
            RelationExpr::Filter { input, .. } => {
                input.unbound_uses(out);
            },
            RelationExpr::Join { inputs, .. } => {
                let mut i: usize = 0;
                while i < inputs.len()
                    invariant
                        i <= inputs.len(),
                        *self is Join,
                        self->inputs == *inputs,
                        names_in(out@) == names_in(before).union(
                            free_names_among(*inputs, i as nat),
                        ),
                        texts(out@) == texts(before) + free_uses_among(*inputs, i as nat),
                    decreases inputs.len() - i,
                {
                    inputs[i].unbound_uses(out);
                    i = i + 1;
                }
            },
            RelationExpr::Distinct { input } => {
                input.unbound_uses(out);
            },
            RelationExpr::Union { left, right } => {
                left.unbound_uses(out);
                right.unbound_uses(out);
            },
        }
    }
}

impl Clone for RelationExpr {
    fn clone(&self) -> (res: Self)
        decreases self,
    {
        match self {
            RelationExpr::Get { name, typ } => RelationExpr::Get {
                name: name.clone(),
                typ: typ.clone(),
            },
            RelationExpr::Let { name, value, body } => RelationExpr::Let {
                name: name.clone(),
                value: Box::new((&**value).clone()),
                body: Box::new((&**body).clone()),
            },
            RelationExpr::Project { input, outputs } => RelationExpr::Project {
                input: Box::new((&**input).clone()),
                outputs: outputs.clone(),
            },
            RelationExpr::Filter { input, predicates } => RelationExpr::Filter {
                input: Box::new((&**input).clone()),
                predicates: predicates.clone(),
            },
            RelationExpr::Join { inputs, variables } => {
                let mut copies: Vec<RelationExpr> = Vec::new();
                let mut i: usize = 0;
                while i < inputs.len()
                    invariant
                        i <= inputs.len(),
                        *self is Join,
                        self->inputs == *inputs,
                    decreases inputs.len() - i,
                {
                    copies.push(inputs[i].clone());
                    i = i + 1;
                }
                RelationExpr::Join { inputs: copies, variables: variables.clone() }
            },
            RelationExpr::Distinct { input } => RelationExpr::Distinct {
                input: Box::new((&**input).clone()),
            },
            RelationExpr::Union { left, right } => RelationExpr::Union {
                left: Box::new((&**left).clone()),
                right: Box::new((&**right).clone()),
            },
        }
    }
}

} // verus!
