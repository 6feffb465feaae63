//! Conversion from a host's native tree into the tree value model.
//!
//! A host value is what a host can hand over without knowing the model: each
//! node by its kind, with what could be read of it. The conversion settles
//! what the model does not know: a value of an unknown kind is null, and a
//! number or a text that could not be read takes its kind's zero.

use crate::value::{lemma_list_view, lemma_object_view, Tree, Value};
use vstd::prelude::*;

verus! {

/// A host value as contracts see it.
#[verifier::ext_equal]
pub enum HostTree {
    Null,
    Bool(bool),
    Int(Option<i64>),
    Float(Option<u64>),
    Text(Option<Seq<char>>),
    List(Seq<HostTree>),
    Dict(Seq<(Option<Seq<char>>, HostTree)>),
    Other,
}

/// A node of a host's native tree, by its kind.
#[derive(Debug, PartialEq, Eq)]
pub enum HostValue {
    /// The host's null.
    Null,
    Bool(bool),
    /// An integer, or `None` for one that does not fit 64 bits.
    Int(Option<i64>),
    /// A number that is not an integer, as the 64 bits of its IEEE-754
    /// binary64 encoding, or `None` where it could not be read.
    Float(Option<u64>),
    /// Text, or `None` where it could not be read.
    Text(Option<String>),
    /// An ordered collection.
    List(Vec<HostValue>),
    /// A key-value mapping in the host's iteration order; a key that is not
    /// text is `None`.
    Dict(Vec<(Option<String>, HostValue)>),
    /// A value of any other kind.
    Other,
}

/// The host tree that a host value stands for.
pub open spec fn host_tree_of(v: HostValue) -> HostTree
    decreases v,
{
    match v {
        HostValue::Null => HostTree::Null,
        HostValue::Bool(b) => HostTree::Bool(b),
        HostValue::Int(i) => HostTree::Int(i),
        HostValue::Float(bits) => HostTree::Float(bits),
        HostValue::Text(s) => HostTree::Text(
            match s {
                Some(text) => Some(text@),
                None => None,
            },
        ),
        HostValue::List(items) => HostTree::List(
            Seq::new(
                items.len() as nat,
                |i: int|
                    if 0 <= i < items.len() {
                        host_tree_of(items[i])
                    } else {
                        HostTree::Null
                    },
            ),
        ),
        HostValue::Dict(entries) => HostTree::Dict(
            Seq::new(
                entries.len() as nat,
                |i: int|
                    if 0 <= i < entries.len() {
                        (key_model(entries[i].0), host_tree_of(entries[i].1))
                    } else {
                        (None, HostTree::Null)
                    },
            ),
        ),
        HostValue::Other => HostTree::Other,
    }
}

/// A key as contracts see it.
pub open spec fn key_model(key: Option<String>) -> Option<Seq<char>> {
    match key {
        Some(text) => Some(text@),
        None => None,
    }
}

impl View for HostValue {
    type V = HostTree;

    open spec fn view(&self) -> HostTree {
        host_tree_of(*self)
    }
}

/// The text of a key: the key where it is text, else the empty text.
pub open spec fn key_text(key: Option<Seq<char>>) -> Seq<char> {
    match key {
        Some(text) => text,
        None => Seq::empty(),
    }
}

/// The tree that a host tree converts to.
///
/// Null is null; a boolean, an integer, a float and a text keep their kind
/// and value; a list and a mapping are converted child by child, in the
/// host's order; a value of any other kind is null. An integer that does not
/// fit is 0, a float that could not be read is 0.0, a text that could not be
/// read is empty, and a key that is not text is the empty text.
pub open spec fn converted(host: HostTree) -> Tree
    decreases host,
{
    match host {
        HostTree::Null => Tree::Null,
        HostTree::Bool(b) => Tree::Bool(b),
        HostTree::Int(Some(i)) => Tree::Int(i),
        HostTree::Int(None) => Tree::Int(0),
        HostTree::Float(Some(bits)) => Tree::Float(bits),
        HostTree::Float(None) => Tree::Float(0),
        HostTree::Text(text) => Tree::Str(key_text(text)),
        HostTree::List(items) => Tree::List(
            Seq::new(
                items.len(),
                |i: int|
                    if 0 <= i < items.len() {
                        converted(items[i])
                    } else {
                        Tree::Null
                    },
            ),
        ),
        HostTree::Dict(entries) => Tree::Object(
            Seq::new(
                entries.len(),
                |i: int|
                    if 0 <= i < entries.len() {
                        (key_text(entries[i].0), converted(entries[i].1))
                    } else {
                        (Seq::empty(), Tree::Null)
                    },
            ),
        ),
        HostTree::Other => Tree::Null,
    }
}

/// The text of an optional text: a copy of the text, or the empty text.
fn text_or_empty(text: &Option<String>) -> (out: String)
    ensures
        out@ == key_text(key_model(*text)),
{
    match text {
        Some(s) => s.clone(),
        None => String::new(),
    }
}

/// Converts a host value into a tree of the model, once and in full.
#[verifier::loop_isolation(false)]
pub fn py_to_value(obj: &HostValue) -> (value: Value)
    ensures
        value@ == converted(obj@),
    decreases obj,
{
    match obj {
        HostValue::Null => Value::Null,
        HostValue::Bool(b) => Value::Bool(*b),
        HostValue::Int(i) => Value::Int(
            match i {
                Some(n) => *n,
                None => 0,
            },
        ),
        HostValue::Float(f) => Value::Float(
            match f {
                Some(bits) => *bits,
                None => 0,
            },
        ),
        HostValue::Text(s) => Value::Str(text_or_empty(s)),
        HostValue::List(list) => {
            let mut items: Vec<Value> = Vec::with_capacity(list.len());
            let mut i: usize = 0;
            while i < list.len()
                invariant
                    i <= list.len(),
                    items.len() == i,
                    forall|j: int| 0 <= j < i ==> (#[trigger] items[j])@ == converted(list[j]@),
                decreases list.len() - i,
            {
                items.push(py_to_value(&list[i]));
                i += 1;
            }
            proof {
                lemma_list_view(items);
                assert(items.deep_view() =~= converted(obj@)->List_0);
            }
            Value::List(items)
        },
        HostValue::Dict(dict) => {
            let mut entries: Vec<(String, Value)> = Vec::with_capacity(dict.len());
            let mut i: usize = 0;
            while i < dict.len()
                invariant
                    i <= dict.len(),
                    entries.len() == i,
                    forall|j: int|
                        0 <= j < i ==> (#[trigger] entries[j]).deep_view() == (
                            key_text(key_model(dict[j].0)),
                            converted(dict[j].1@),
                        ),
                decreases dict.len() - i,
            {
                let key = text_or_empty(&dict[i].0);
                entries.push((key, py_to_value(&dict[i].1)));
                i += 1;
            }
            proof {
                lemma_object_view(entries);
                assert(entries.deep_view() =~= converted(obj@)->Object_0);
            }
            Value::Object(entries)
        },
        HostValue::Other => Value::Null,
    }
}

} // verus!
