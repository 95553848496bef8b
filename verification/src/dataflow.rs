//! Dataflows: the named sources, sinks and views that the engine runs.

use crate::connector::{SinkConnector, SourceConnector};
use crate::datum::same_text;
use crate::frontier::{admits, admits_at, is_tightening, tightens};
use crate::relation::{
    free_names, lemma_names_in_push, names_in, RelationDesc, RelationExpr, RelationType,
};
use crate::time::Timestamp;
use vstd::prelude::*;
use vstd::view::View as _;

verus! {

/// A source materializes data. It typically represents an external source of
/// data, like a topic from Apache Kafka.
#[derive(Clone, Debug, PartialEq, Eq)]
pub struct Source {
    pub name: String,
    pub connector: SourceConnector,
    pub desc: RelationDesc,
}

/// A sink sends the rows of one dataflow somewhere else.
#[derive(Debug, PartialEq, Eq)]
pub struct Sink {
    pub name: String,
    /// The dataflow that the sink reads, and the description of its rows.
    pub from: (String, RelationDesc),
    pub connector: SinkConnector,
}

impl Clone for Sink {
    fn clone(&self) -> (res: Self) {
        Sink {
            name: self.name.clone(),
            from: (self.from.0.clone(), self.from.1.clone()),
            connector: self.connector.clone(),
        }
    }
}

/// A view transforms one dataflow into another.
#[derive(Clone, Debug, PartialEq, Eq)]
pub struct View {
    pub name: String,
    /// The raw SQL used to create this view.
    pub raw_sql: String,
    pub relation_expr: RelationExpr,
    pub desc: RelationDesc,
    /// Indicates if sources can be advanced to a supplied frontier.
    /// Outputs will only be correct from this frontier onward.
    pub as_of: Option<Vec<Timestamp>>,
}

/// A named stream of data.
#[derive(Clone, Debug, PartialEq, Eq)]
pub enum Dataflow {
    Source(Source),
    Sink(Sink),
    View(View),
}

/// The answer to a question about the shape of a sink's rows: a sink sends
/// rows on and has none of its own.
#[derive(Clone, Copy, Debug, PartialEq, Eq)]
pub struct SinkHasNoShape;

/// The answer to an as-of frontier that would loosen the one in place.
#[derive(Clone, Copy, Debug, PartialEq, Eq)]
pub struct AsOfLoosened;

impl View {
    /// Whether the view may take a new as-of frontier: it states none yet,
    /// or the new one admits no time that the one in place does not.
    pub open spec fn may_take(&self, as_of: Seq<Timestamp>) -> bool {
        match self.as_of {
            None => true,
            Some(in_place) => tightens(in_place@, as_of),
        }
    }

    /// Whether the output of the view can be relied on at a time: whether
    /// the time is at or beyond every element of the as-of frontier. There
    /// is no answer where the view states no as-of: that is left to the
    /// engine.
    pub fn admits(&self, time: Timestamp) -> (r: Option<bool>)
        ensures
            match self.as_of {
                None => r is None,
                Some(as_of) => r == Some(admits(as_of@, time)),
            },
    {
        match &self.as_of {
            None => None,
            Some(as_of) => Some(admits_at(as_of.as_slice(), time)),
        }
    }

    /// Gives the view a new as-of frontier, which must not loosen the one in
    /// place. A frontier that would is refused, and the view stays as it is.
    pub fn tighten_as_of(&mut self, as_of: Vec<Timestamp>) -> (res: Result<(), AsOfLoosened>)
        ensures
            res is Ok <==> old(self).may_take(as_of@),
            final(self).as_of == if res is Ok {
                Some(as_of)
            } else {
                old(self).as_of
            },
            final(self).name == old(self).name,
            final(self).raw_sql == old(self).raw_sql,
            final(self).relation_expr == old(self).relation_expr,
            final(self).desc == old(self).desc,
    {
        let allowed = match &self.as_of {
            None => true,
            Some(in_place) => is_tightening(in_place.as_slice(), as_of.as_slice()),
        };
        if allowed {
            self.as_of = Some(as_of);
            Ok(())
        } else {
            Err(AsOfLoosened)
        }
    }
}

/// Whether no name stands twice in a list.
pub open spec fn distinct_names(names: Seq<&str>) -> bool {
    forall|i: int, j: int| 0 <= i < j < names.len() ==> names[i]@ != names[j]@
}

impl Dataflow {
    /// The name of the dataflow.
    pub open spec fn name_view(&self) -> Seq<char> {
        match self {
            Dataflow::Source(src) => src.name@,
            Dataflow::Sink(sink) => sink.name@,
            Dataflow::View(view) => view.name@,
        }
    }

    /// The description of the rows of a source or a view.
    pub open spec fn shape(&self) -> RelationDesc
        recommends
            !(self is Sink),
    {
        match self {
            Dataflow::Source(src) => src.desc,
            Dataflow::Sink(sink) => sink.from.1,
            Dataflow::View(view) => view.desc,
        }
    }

    /// The names of the dataflows that this one depends upon: none for a
    /// source, the one that it reads for a sink, and for a view every name
    /// that its expression refers to and does not bind.
    pub open spec fn dependencies(&self) -> Set<Seq<char>> {
        match self {
            Dataflow::Source(_) => Set::empty(),
            Dataflow::Sink(sink) => set![sink.from.0@],
            Dataflow::View(view) => free_names(view.relation_expr),
        }
    }

    /// Reports the name of this dataflow.
    pub fn name(&self) -> (name: &str)
        ensures
            name@ == self.name_view(),
    {
        match self {
            Dataflow::Source(src) => src.name.as_str(),
            Dataflow::Sink(sink) => sink.name.as_str(),
            Dataflow::View(view) => view.name.as_str(),
        }
    }

    /// Reports the description of the datums produced by this dataflow,
    /// which must not be a sink.
    pub fn desc(&self) -> (desc: &RelationDesc)
        requires
            !(self is Sink),
        ensures
            *desc == self.shape(),
    {
        match self {
            Dataflow::Source(src) => &src.desc,
            Dataflow::Sink(sink) => &sink.from.1,
            Dataflow::View(view) => &view.desc,
        }
    }

    /// Reports the type of the datums produced by this dataflow, which must
    /// not be a sink.
    pub fn typ(&self) -> (typ: &RelationType)
        requires
            !(self is Sink),
        ensures
            *typ == self.shape().typ,
    {
        match self {
            Dataflow::Source(src) => src.desc.typ(),
            Dataflow::Sink(sink) => sink.from.1.typ(),
            Dataflow::View(view) => view.desc.typ(),
        }
    }

    /// Reports the description of the datums produced by this dataflow, or
    /// that it is a sink and produces none.
    pub fn checked_desc(&self) -> (res: Result<&RelationDesc, SinkHasNoShape>)
        ensures
            res is Err <==> self is Sink,
            res matches Ok(desc) ==> *desc == self.shape(),
    {
        match self {
            Dataflow::Sink(_) => Err(SinkHasNoShape),
            _ => Ok(self.desc()),
        }
    }

    /// Reports the type of the datums produced by this dataflow, or that it
    /// is a sink and produces none.
    pub fn checked_typ(&self) -> (res: Result<&RelationType, SinkHasNoShape>)
        ensures
            res is Err <==> self is Sink,
            res matches Ok(typ) ==> *typ == self.shape().typ,
    {
        match self {
            Dataflow::Sink(_) => Err(SinkHasNoShape),
            _ => Ok(self.typ()),
        }
    }

    /// Collects the names of the dataflows that this dataflow depends upon,
    /// each once.
    pub fn uses(&self) -> (out: Vec<&str>)
        ensures
            names_in(out@) == self.dependencies(),
            distinct_names(out@),
    {
        let mut out: Vec<&str> = Vec::new();
        match self {
            Dataflow::Source(_) => {},
            Dataflow::Sink(sink) => {
                let from = sink.from.0.as_str();
                proof {
                    lemma_names_in_push(out@, from);
                }
                out.push(from);
            },
            Dataflow::View(view) => {
                view.relation_expr.unbound_uses(&mut out);
            },
        }
        each_once(out)
    }
}

/// Whether a name stands in a list.
fn holds_name(names: &Vec<&str>, name: &str) -> (r: bool)
    ensures
        r == names_in(names@).contains(name@),
{
    let mut i: usize = 0;
    while i < names.len()
        invariant
            i <= names.len(),
            forall|j: int| 0 <= j < i ==> (#[trigger] names@[j])@ != name@,
        decreases names.len() - i,
    {
        if same_text(names[i], name) {
            return true;
        }
        i = i + 1;
    }
    false
}

/// The names of a list, each once, in the order in which they first stand.
fn each_once<'a>(names: Vec<&'a str>) -> (out: Vec<&'a str>)
    ensures
        names_in(out@) == names_in(names@),
        distinct_names(out@),
{
    let mut out: Vec<&'a str> = Vec::new();
    let mut i: usize = 0;
    while i < names.len()
        invariant
            i <= names.len(),
            names_in(out@) == names_in(names@.take(i as int)),
            distinct_names(out@),
        decreases names.len() - i,
    {
        let name = names[i];
        let ghost prefix = names@.take(i as int);
        proof {
            assert(names@.take(i + 1) =~= prefix.push(name));
            lemma_names_in_push(prefix, name);
            lemma_names_in_push(out@, name);
        }
        if !holds_name(&out, name) {
            let ghost before = out@;
            out.push(name);
            assert forall|a: int, b: int| 0 <= a < b < out@.len() implies out@[a]@ != out@[b]@ by {
                if b == before.len() {
                    assert(before[a]@ != name@);
                } else {
                    assert(before[a]@ != before[b]@);
                }
            }
        }
        i = i + 1;
    }
    assert(names@.take(i as int) =~= names@);
    out
}

} // verus!
