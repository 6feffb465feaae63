//! The tree value model: a closed tagged union for JSON-like data, and the
//! mathematical tree that every contract of this crate is stated over.

use vstd::prelude::*;

verus! {

/// The mathematical tree that a [`Value`] stands for: text is a sequence of
/// characters, and the children of a list or an object form a sequence.
#[verifier::ext_equal]
pub enum Tree {
    Null,
    Bool(bool),
    Int(i64),
    /// An IEEE-754 binary64 number, given by its 64 bits.
    Float(u64),
    Str(Seq<char>),
    List(Seq<Tree>),
    Object(Seq<(Seq<char>, Tree)>),
}

/// A location in a tree, as contracts see it: the keys from the root down.
pub type PathModel = Seq<Seq<char>>;

/// A flat record as contracts see it: columns in insertion order.
pub type RowModel = Seq<(Seq<char>, Tree)>;

/// A host-independent JSON-like tree.
///
/// The keys of an object keep the order in which they were recorded and need
/// not be unique. A floating-point number is carried as the 64 bits of its
/// IEEE-754 binary64 encoding, so a tree holds integers and text only.
#[derive(Debug, PartialEq, Eq)]
pub enum Value {
    Null,
    Bool(bool),
    Int(i64),
    Float(u64),
    Str(String),
    List(Vec<Value>),
    Object(Vec<(String, Value)>),
}

/// A location in a tree: the keys from the root down. Array elements add no
/// segment, so every element of a list sits at the path of the list.
pub type JsonPath = Vec<String>;

/// One flattened record: (column name, value) pairs in insertion order.
pub type Row = Vec<(String, Value)>;

/// The tree that a value stands for.
pub open spec fn tree_of(v: Value) -> Tree
    decreases v,
{
    match v {
        Value::Null => Tree::Null,
        Value::Bool(b) => Tree::Bool(b),
        Value::Int(i) => Tree::Int(i),
        Value::Float(bits) => Tree::Float(bits),
        Value::Str(s) => Tree::Str(s@),
        Value::List(items) => Tree::List(
            Seq::new(
                items.len() as nat,
                |i: int|
                    if 0 <= i < items.len() {
                        tree_of(items[i])
                    } else {
                        Tree::Null
                    },
            ),
        ),
        Value::Object(entries) => Tree::Object(
            Seq::new(
                entries.len() as nat,
                |i: int|
                    if 0 <= i < entries.len() {
                        (entries[i].0@, tree_of(entries[i].1))
                    } else {
                        (Seq::empty(), Tree::Null)
                    },
            ),
        ),
    }
}

impl View for Value {
    type V = Tree;

    open spec fn view(&self) -> Tree {
        tree_of(*self)
    }
}

impl DeepView for Value {
    type V = Tree;

    open spec fn deep_view(&self) -> Tree {
        self@
    }
}

/// A list stands for the list of the trees of its items.
pub proof fn lemma_list_view(items: Vec<Value>)
    ensures
        Value::List(items)@ == Tree::List(items.deep_view()),
{
    assert(Value::List(items)@->List_0 =~= items.deep_view());
}

/// An object stands for the sequence of its keys, each with the tree of its child.
pub proof fn lemma_object_view(entries: Vec<(String, Value)>)
    ensures
        Value::Object(entries)@ == Tree::Object(entries.deep_view()),
{
    assert(Value::Object(entries)@->Object_0 =~= entries.deep_view());
}

/// Whether a tree is a boolean, a number or text: a leaf that is not null.
pub open spec fn is_scalar_tree(t: Tree) -> bool {
    t is Bool || t is Int || t is Float || t is Str
}

impl Value {
    /// Whether this is a boolean, a number or text: a leaf that is not null.
    pub fn is_scalar(&self) -> (r: bool)
        ensures
            r == is_scalar_tree(self@),
    {
        match self {
            Value::Bool(_) | Value::Int(_) | Value::Float(_) | Value::Str(_) => true,
            _ => false,
        }
    }
}

impl Clone for Value {
    /// A deep copy: the copy stands for the same tree.
    #[verifier::loop_isolation(false)]
    fn clone(&self) -> (res: Self)
        ensures
            res@ == self@,
        decreases self,
    {
        match self {
            Value::Null => Value::Null,
            Value::Bool(b) => Value::Bool(*b),
            Value::Int(i) => Value::Int(*i),
            Value::Float(bits) => Value::Float(*bits),
            Value::Str(s) => Value::Str(s.clone()),
            Value::List(items) => {
                let mut out: Vec<Value> = Vec::with_capacity(items.len());
                let mut i: usize = 0;
                while i < items.len()
                    invariant
                        i <= items.len(),
                        out.len() == i,
                        forall|j: int| 0 <= j < i ==> out[j]@ == items[j]@,
                    decreases items.len() - i,
                {
                    out.push(items[i].clone());
                    i += 1;
                }
                proof {
                    lemma_list_view(out);
                    lemma_list_view(*items);
                    assert(out.deep_view() =~= items.deep_view());
                }
                Value::List(out)
            },
            Value::Object(entries) => {
                let mut out: Vec<(String, Value)> = Vec::with_capacity(entries.len());
                let mut i: usize = 0;
                while i < entries.len()
                    invariant
                        i <= entries.len(),
                        out.len() == i,
                        forall|j: int|
                            0 <= j < i ==> out[j].0@ == entries[j].0@ && out[j].1@ == entries[j].1@,
                    decreases entries.len() - i,
                {
                    out.push((entries[i].0.clone(), entries[i].1.clone()));
                    i += 1;
                }
                proof {
                    lemma_object_view(out);
                    lemma_object_view(*entries);
                    assert(out.deep_view() =~= entries.deep_view());
                }
                Value::Object(out)
            },
        }
    }
}

} // verus!

