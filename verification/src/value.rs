//! The generic value tree: the common intermediate representation for
//! defaults, file contents, environment overlays and CLI overlays.

use vstd::prelude::*;

verus! {

/// Mathematical model of a value tree.  Objects are finite maps from key to
/// child value, so key order is irrelevant; arrays are sequences.
#[verifier::ext_equal]
pub enum ValueModel {
    Null,
    Bool(bool),
    Int(int),
    /// A floating-point value, kept as its literal text.
    Float(Seq<char>),
    Str(Seq<char>),
    Object(Map<Seq<char>, ValueModel>),
    Array(Seq<ValueModel>),
}

/// A dynamically-typed configuration value.
///
/// Objects are stored as key/value entry lists whose keys are unique (see
/// [`value_wf`]); floats are carried as their literal text, since the tree
/// never computes with them.
#[derive(Debug, PartialEq)]
pub enum ValueTree {
    Null,
    Bool(bool),
    Int(i64),
    Float(String),
    Str(String),
    Object(Vec<(String, ValueTree)>),
    Array(Vec<ValueTree>),
}

/// The set of keys of an object entry list.
pub open spec fn obj_dom(entries: Seq<(String, ValueTree)>) -> Set<Seq<char>> {
    Set::new(|k: Seq<char>| exists|i: int| 0 <= i < entries.len() && entries[i].0@ == k)
}

/// An index at which `k` occurs in `entries`.
pub open spec fn obj_index_of(entries: Seq<(String, ValueTree)>, k: Seq<char>) -> int {
    choose|i: int| 0 <= i < entries.len() && entries[i].0@ == k
}

/// The finite map described by an object entry list.  With unique keys the
/// choice of index is irrelevant.
pub open spec fn entries_map(entries: Seq<(String, ValueTree)>) -> Map<Seq<char>, ValueModel> {
    Map::new(
        |k: Seq<char>| obj_dom(entries).contains(k),
        |k: Seq<char>|
            if obj_dom(entries).contains(k) {
                value_model(entries[obj_index_of(entries, k)].1)
            } else {
                ValueModel::Null
            },
    )
}

/// The model of a value tree.
pub open spec fn value_model(v: ValueTree) -> ValueModel
    decreases v,
{
    match v {
        ValueTree::Null => ValueModel::Null,
        ValueTree::Bool(b) => ValueModel::Bool(b),
        ValueTree::Int(i) => ValueModel::Int(i as int),
        ValueTree::Float(s) => ValueModel::Float(s@),
        ValueTree::Str(s) => ValueModel::Str(s@),
        ValueTree::Object(entries) => ValueModel::Object(
            Map::new(
                |k: Seq<char>| obj_dom(entries@).contains(k),
                |k: Seq<char>|
                    if obj_dom(entries@).contains(k) {
                        value_model(entries@[obj_index_of(entries@, k)].1)
                    } else {
                        ValueModel::Null
                    },
            ),
        ),
        ValueTree::Array(items) => ValueModel::Array(
            Seq::new(
                items@.len(),
                |i: int|
                    if 0 <= i < items@.len() {
                        value_model(items@[i])
                    } else {
                        ValueModel::Null
                    },
            ),
        ),
    }
}

/// The model of an object is the map described by its entries.
pub proof fn lemma_value_model_object(entries: Vec<(String, ValueTree)>)
    ensures
        value_model(ValueTree::Object(entries)) == ValueModel::Object(entries_map(entries@)),
{
    assert(value_model(ValueTree::Object(entries)) is Object);
    let m1 = value_model(ValueTree::Object(entries))->Object_0;
    let m2 = entries_map(entries@);
    assert forall|k: Seq<char>| #![auto] m1.dom().contains(k) implies m2.dom().contains(k)
        && m1[k] == m2[k] by {}
    assert forall|k: Seq<char>| #![auto] m2.dom().contains(k) implies m1.dom().contains(k) by {}
    assert(m1 =~= m2);
}

/// A value models to an object exactly when it is one.
pub proof fn lemma_model_object_shape(v: ValueTree)
    ensures
        (value_model(v) is Object) == (v is Object),
{
    match v {
        ValueTree::Null => {},
        ValueTree::Bool(_) => {},
        ValueTree::Int(_) => {},
        ValueTree::Float(_) => {},
        ValueTree::Str(_) => {},
        ValueTree::Object(_) => {},
        ValueTree::Array(_) => {},
    }
}

impl View for ValueTree {
    type V = ValueModel;

    open spec fn view(&self) -> ValueModel {
        value_model(*self)
    }
}

/// Object keys within one entry list are pairwise distinct.
pub open spec fn keys_unique(entries: Seq<(String, ValueTree)>) -> bool {
    forall|i: int, j: int| 0 <= i < j < entries.len() ==> entries[i].0@ != entries[j].0@
}

/// Well-formedness of a value tree: every object has unique keys.
pub open spec fn value_wf(v: ValueTree) -> bool
    decreases v,
{
    match v {
        ValueTree::Object(entries) => keys_unique(entries@) && forall|i: int|
            0 <= i < entries@.len() ==> value_wf(#[trigger] entries@[i].1),
        ValueTree::Array(items) => forall|i: int|
            0 <= i < items@.len() ==> value_wf(#[trigger] items@[i]),
        _ => true,
    }
}

} // verus!
