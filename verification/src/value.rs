//! The tagged value union of the plain document model, and its mathematical
//! model.
//!
//! A [`ConfigValue`] owns its children directly; trees are built strictly top-down,
//! so cycles are impossible. Floats and datetimes are carried as their literal
//! spelling: the library never computes with them, it only stores and renders
//! them.

use vstd::prelude::*;

verus! {

broadcast use vstd::std_specs::vec::group_vec_axioms, vstd::seq::axiom_seq_index_decreases;

/// A configuration value: a scalar, an ordered array, or a table mapping
/// string keys to values (keys unique, insertion order preserved).
///
/// `Float` and `Datetime` hold the literal text of the value (for a float,
/// a decimal literal such as `3.14`); the library treats both as opaque.
#[derive(Debug, PartialEq)]
pub enum ConfigValue {
    Boolean(bool),
    Integer(i64),
    Float(String),
    Str(String),
    Datetime(String),
    Array(Vec<ConfigValue>),
    Table(Vec<(String, ConfigValue)>),
}

/// The mathematical model of a [`ConfigValue`]: the same tree over `Seq` and `int`.
pub enum Node {
    Bool(bool),
    Int(int),
    Float(Seq<char>),
    Str(Seq<char>),
    Datetime(Seq<char>),
    Arr(Seq<Node>),
    Tab(Seq<(Seq<char>, Node)>),
}

impl ConfigValue {
    /// The abstract tree this value stands for.
    pub open spec fn model(self) -> Node
        decreases self,
    {
        match self {
            ConfigValue::Boolean(b) => Node::Bool(b),
            ConfigValue::Integer(i) => Node::Int(i as int),
            ConfigValue::Float(s) => Node::Float(s@),
            ConfigValue::Str(s) => Node::Str(s@),
            ConfigValue::Datetime(s) => Node::Datetime(s@),
            ConfigValue::Array(vs) => Node::Arr(values_model(vs@)),
            ConfigValue::Table(es) => Node::Tab(entries_model(es@)),
        }
    }
}

/// The model of an array body, element by element.
pub open spec fn values_model(vs: Seq<ConfigValue>) -> Seq<Node>
    decreases vs,
{
    if vs.len() == 0 {
        Seq::empty()
    } else {
        seq![vs[0].model()] + values_model(vs.subrange(1, vs.len() as int))
    }
}

/// The model of a table body: each entry as a key sequence and a node.
pub open spec fn entries_model(es: Seq<(String, ConfigValue)>) -> Seq<(Seq<char>, Node)>
    decreases es,
{
    if es.len() == 0 {
        Seq::empty()
    } else {
        seq![(es[0].0@, es[0].1.model())] + entries_model(es.subrange(1, es.len() as int))
    }
}

/// `values_model` maps the sequence pointwise.
pub proof fn lemma_values_model(vs: Seq<ConfigValue>)
    ensures
        values_model(vs).len() == vs.len(),
        forall|i: int| 0 <= i < vs.len() ==> values_model(vs)[i] == #[trigger] vs[i].model(),
    decreases vs,
{
    if vs.len() > 0 {
        let rest = vs.subrange(1, vs.len() as int);
        lemma_values_model(rest);
        assert forall|i: int| 0 <= i < vs.len() implies values_model(vs)[i]
            == #[trigger] vs[i].model() by {
            if i > 0 {
                assert(rest[i - 1] == vs[i]);
            }
        }
    }
}

/// `entries_model` maps the sequence pointwise.
pub proof fn lemma_entries_model(es: Seq<(String, ConfigValue)>)
    ensures
        entries_model(es).len() == es.len(),
        forall|i: int| 0 <= i < es.len() ==> entries_model(es)[i]
            == (#[trigger] es[i].0@, es[i].1.model()),
    decreases es,
{
    if es.len() > 0 {
        let rest = es.subrange(1, es.len() as int);
        lemma_entries_model(rest);
        assert forall|i: int| 0 <= i < es.len() implies entries_model(es)[i]
            == (#[trigger] es[i].0@, es[i].1.model()) by {
            if i > 0 {
                assert(rest[i - 1] == es[i]);
            }
        }
    }
}

} // verus!
