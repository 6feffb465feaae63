//! A depth-first walk over a tree that tracks the current path and reports
//! every node to a visitor.

use crate::value::{
    is_scalar_tree, lemma_list_view, lemma_object_view, JsonPath, PathModel, Tree, Value,
};
use vstd::prelude::*;

verus! {

/// What a visitor answers when a walk enters an object or a list.
#[derive(Clone, Copy, Debug, PartialEq, Eq, Structural)]
pub enum VisitorAction {
    /// Descend into the children.
    Continue,
    /// Skip the children.
    Stop,
}

/// A visitor of the nodes of a tree.
///
/// A visitor's view is its state as contracts see it. For each callback a
/// spec function gives the state after the call, from the state before and
/// the arguments; the callback's contract is that it moves the state so. A
/// walk is then a function of the visitor's initial state and the tree.
pub trait JsonVisitor: View + Sized {
    /// The state after an object is entered, and whether the walk descends.
    spec fn after_enter_object(state: Self::V, path: PathModel, value: Tree) -> (
        Self::V,
        VisitorAction,
    );

    /// The state after a list is entered, and whether the walk descends.
    spec fn after_enter_array(state: Self::V, path: PathModel, value: Tree) -> (
        Self::V,
        VisitorAction,
    );

    /// The state after an object or a list is left.
    spec fn after_leave(state: Self::V, path: PathModel) -> Self::V;

    /// The state after a boolean, a number or text is visited.
    spec fn after_scalar(state: Self::V, path: PathModel, value: Tree) -> Self::V;

    /// The state after a null is visited.
    spec fn after_null(state: Self::V, path: PathModel) -> Self::V;

    /// Called at an object, before its children.
    fn enter_object(&mut self, path: &JsonPath, value: &Value) -> (action: VisitorAction)
        requires
            value@ is Object,
        ensures
            (final(self)@, action) == Self::after_enter_object(
                old(self)@,
                path.deep_view(),
                value@,
            ),
    ;

    /// Called at a list, before its elements.
    fn enter_array(&mut self, path: &JsonPath, value: &Value) -> (action: VisitorAction)
        requires
            value@ is List,
        ensures
            (final(self)@, action) == Self::after_enter_array(
                old(self)@,
                path.deep_view(),
                value@,
            ),
    ;

    /// Called once for each object or list that was entered, after its
    /// children were walked or skipped.
    fn leave(&mut self, path: &JsonPath)
        ensures
            final(self)@ == Self::after_leave(old(self)@, path.deep_view()),
    ;

    /// Called at a boolean, a number or text.
    fn on_scalar(&mut self, path: &JsonPath, value: &Value)
        requires
            is_scalar_tree(value@),
        ensures
            final(self)@ == Self::after_scalar(old(self)@, path.deep_view(), value@),
    ;

    /// Called at a null.
    fn on_null(&mut self, path: &JsonPath)
        ensures
            final(self)@ == Self::after_null(old(self)@, path.deep_view()),
    ;
}

/// The state of a visitor after a walk of `node`, which sits at `path`.
///
/// An object or a list is entered; if the visitor answers `Continue` its
/// children are walked in order, each entry of an object at the path extended
/// by its key, each element of a list at the path of the list; then the node
/// is left. A scalar or a null is reported as such.
pub open spec fn visit<V: JsonVisitor>(state: V::V, path: PathModel, node: Tree) -> V::V
    decreases node, 0nat,
{
    match node {
        Tree::Null => V::after_null(state, path),
        Tree::Object(entries) => {
            let (entered, action) = V::after_enter_object(state, path, node);
            let inside = if action is Continue {
                visit_entries::<V>(entered, path, entries, entries.len())
            } else {
                entered
            };
            V::after_leave(inside, path)
        },
        Tree::List(items) => {
            let (entered, action) = V::after_enter_array(state, path, node);
            let inside = if action is Continue {
                visit_items::<V>(entered, path, items, items.len())
            } else {
                entered
            };
            V::after_leave(inside, path)
        },
        _ => V::after_scalar(state, path, node),
    }
}

/// The state after the first `n` entries of an object were walked in order.
pub open spec fn visit_entries<V: JsonVisitor>(
    state: V::V,
    path: PathModel,
    entries: Seq<(Seq<char>, Tree)>,
    n: nat,
) -> V::V
    decreases entries, n,
{
    if n == 0 || n > entries.len() {
        state
    } else {
        visit::<V>(
            visit_entries::<V>(state, path, entries, (n - 1) as nat),
            path.push(entries[n - 1].0),
            entries[n - 1].1,
        )
    }
}

/// The state after the first `n` elements of a list were walked in order.
pub open spec fn visit_items<V: JsonVisitor>(
    state: V::V,
    path: PathModel,
    items: Seq<Tree>,
    n: nat,
) -> V::V
    decreases items, n,
{
    if n == 0 || n > items.len() {
        state
    } else {
        visit::<V>(visit_items::<V>(state, path, items, (n - 1) as nat), path, items[n - 1])
    }
}

#[verifier::loop_isolation(false)]
fn walk_node<V: JsonVisitor>(node: &Value, path: &mut JsonPath, visitor: &mut V)
    ensures
        final(path).deep_view() == old(path).deep_view(),
        final(visitor)@ == visit::<V>(old(visitor)@, old(path).deep_view(), node@),
    decreases node,
{
    let ghost here = path.deep_view();
    match node {
        Value::Null => {
            visitor.on_null(path);
        },
        Value::Object(entries) => {
            proof {
                lemma_object_view(*entries);
            }
            let action = visitor.enter_object(path, node);
            let ghost entered = visitor@;
            let ghost fields = entries.deep_view();
            if let VisitorAction::Continue = action {
                let mut i: usize = 0;
                while i < entries.len()
                    invariant
                        i <= entries.len(),
                        fields == entries.deep_view(),
                        path.deep_view() == here,
                        visitor@ == visit_entries::<V>(entered, here, fields, i as nat),
                    decreases entries.len() - i,
                {
                    path.push(entries[i].0.clone());
                    assert(path.deep_view() =~= here.push(fields[i as int].0));
                    walk_node(&entries[i].1, path, visitor);
                    let ghost deeper = path.deep_view();
                    path.pop();
                    assert(path.deep_view() =~= deeper.drop_last());
                    i += 1;
                }
            }
            visitor.leave(path);
        },
        Value::List(items) => {
            proof {
                lemma_list_view(*items);
            }
            let action = visitor.enter_array(path, node);
            let ghost entered = visitor@;
            let ghost elements = items.deep_view();
            if let VisitorAction::Continue = action {
                let mut i: usize = 0;
                while i < items.len()
                    invariant
                        i <= items.len(),
                        elements == items.deep_view(),
                        path.deep_view() == here,
                        visitor@ == visit_items::<V>(entered, here, elements, i as nat),
                    decreases items.len() - i,
                {
                    walk_node(&items[i], path, visitor);
                    i += 1;
                }
            }
            visitor.leave(path);
        },
        _ => {
            visitor.on_scalar(path, node);
        },
    }
}

/// Walks a tree depth first, calling the visitor at every node.
///
/// The walk starts at `initial_path`, or at the empty path where none is
/// given.
pub fn walk<V: JsonVisitor>(root: &Value, visitor: &mut V, initial_path: Option<JsonPath>)
    ensures
        final(visitor)@ == visit::<V>(
            old(visitor)@,
            match initial_path {
                Some(path) => path.deep_view(),
                None => Seq::empty(),
            },
            root@,
        ),
{
    let mut path: JsonPath = match initial_path {
        Some(path) => path,
        None => Vec::new(),
    };
    assert(initial_path is None ==> path.deep_view() =~= Seq::empty());
    walk_node(root, &mut path, visitor);
}

} // verus!
