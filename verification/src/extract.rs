//! The frame extractor: a visitor that captures the sub-trees found at
//! configured paths, the frames.

use crate::path::{clone_path, contains_path, last_segment, same_path, terminal_name};
use crate::value::{JsonPath, PathModel, Tree, Value};
use crate::walker::{visit, visit_entries, visit_items, walk, JsonVisitor, VisitorAction};
use vstd::prelude::*;

verus! {

/// The state of a frame extraction as contracts see it.
#[verifier::ext_equal]
pub struct FrameState {
    /// The configured frame paths.
    pub frames: Set<PathModel>,
    /// The paths configured as having nested frames below them.
    pub nested: Set<PathModel>,
    /// The paths marked as captured: frames that the walk is inside of.
    pub captured: Set<PathModel>,
    /// The captures made so far, in the order of the walk: the frame's name
    /// and the captured sub-tree.
    pub log: Seq<(Seq<char>, Tree)>,
}

/// Whether `longer` extends `path` by at least one segment.
pub open spec fn strictly_extends(longer: PathModel, path: PathModel) -> bool {
    longer.len() > path.len() && longer.take(path.len() as int) =~= path
}

/// Whether frames are to be looked for below a frame path: it is configured
/// as having nested frames, or some configured frame path extends it.
pub open spec fn has_nested(state: FrameState, path: PathModel) -> bool {
    state.nested.contains(path) || exists|longer: PathModel|
        state.frames.contains(longer) && #[trigger] strictly_extends(longer, path)
}

/// Whether a node at this path is captured: the path is a frame path and is
/// not marked as captured.
pub open spec fn captures_here(state: FrameState, path: PathModel) -> bool {
    !state.captured.contains(path) && state.frames.contains(path)
}

/// The state with one more capture in the log.
pub open spec fn with_capture(state: FrameState, path: PathModel, value: Tree) -> FrameState {
    FrameState { log: state.log.push((terminal_name(path), value)), ..state }
}

/// What entering an object or a list does. A node at an unmarked frame path
/// is captured. If no frame is to be looked for below, the walk stops at this
/// frame boundary; else the path is marked as captured and the walk goes on.
/// Any other node is walked through.
pub open spec fn entered(state: FrameState, path: PathModel, value: Tree) -> (
    FrameState,
    VisitorAction,
) {
    if captures_here(state, path) {
        let kept = with_capture(state, path, value);
        if has_nested(state, path) {
            (FrameState { captured: kept.captured.insert(path), ..kept }, VisitorAction::Continue)
        } else {
            (kept, VisitorAction::Stop)
        }
    } else {
        (state, VisitorAction::Continue)
    }
}

/// What leaving an object or a list does: the mark of its path is cleared.
pub open spec fn left(state: FrameState, path: PathModel) -> FrameState {
    FrameState { captured: state.captured.remove(path), ..state }
}

/// What visiting a scalar does: at an unmarked frame path it is captured.
pub open spec fn scalar_seen(state: FrameState, path: PathModel, value: Tree) -> FrameState {
    if captures_here(state, path) {
        with_capture(state, path, value)
    } else {
        state
    }
}

/// The visitor that extracts frames: it holds the configured paths, the
/// paths marked as captured, and the captures made so far.
pub struct FrameExtractorVisitor {
    frame_paths: Vec<JsonPath>,
    nested_frame_paths: Vec<JsonPath>,
    frame_data: Vec<(String, Value)>,
    captured: Vec<JsonPath>,
}

impl View for FrameExtractorVisitor {
    type V = FrameState;

    closed spec fn view(&self) -> FrameState {
        FrameState {
            frames: self.frame_paths.deep_view().to_set(),
            nested: self.nested_frame_paths.deep_view().to_set(),
            captured: self.captured.deep_view().to_set(),
            log: self.frame_data.deep_view(),
        }
    }
}

/// Whether `longer` extends `path` by at least one segment.
fn extends_path(longer: &JsonPath, path: &JsonPath) -> (r: bool)
    ensures
        r == strictly_extends(longer.deep_view(), path.deep_view()),
{
    if longer.len() <= path.len() {
        return false;
    }
    let mut i: usize = 0;
    while i < path.len()
        invariant
            i <= path.len() < longer.len(),
            forall|j: int| 0 <= j < i ==> longer[j]@ == path[j]@,
        decreases path.len() - i,
    {
        if longer[i] != path[i] {
            assert(longer.deep_view().take(path.len() as int)[i as int]
                != path.deep_view()[i as int]);
            return false;
        }
        i += 1;
    }
    true
}

/// A pushed sequence holds what the sequence held, and the pushed item.
proof fn lemma_push_contains<A>(s: Seq<A>, item: A, q: A)
    ensures
        s.push(item).contains(q) <==> (s.contains(q) || q == item),
{
    let longer = s.push(item);
    if s.contains(q) {
        let i = choose|i: int| 0 <= i < s.len() && s[i] == q;
        assert(longer[i] == q);
    }
    if q == item {
        assert(longer[s.len() as int] == q);
    }
    if longer.contains(q) {
        let i = choose|i: int| 0 <= i < longer.len() && longer[i] == q;
        assert(i < s.len() ==> s[i] == q);
    }
}

/// Removes every occurrence of a path.
fn remove_path(paths: &mut Vec<JsonPath>, path: &JsonPath)
    ensures
        final(paths).deep_view().to_set() == old(paths).deep_view().to_set().remove(
            path.deep_view(),
        ),
{
    let ghost start = paths.deep_view();
    let ghost target = path.deep_view();
    let mut kept: Vec<JsonPath> = Vec::new();
    while paths.len() > 0
        invariant
            target == path.deep_view(),
            forall|q: PathModel|
                (kept.deep_view().contains(q) || (paths.deep_view().contains(q) && q != target))
                    <==> (start.contains(q) && q != target),
        decreases paths.len(),
    {
        let ghost before = paths.deep_view();
        let ghost held = kept.deep_view();
        let last = paths.pop().unwrap();
        let ghost rest = paths.deep_view();
        assert(before =~= rest.push(last.deep_view()));
        let keep = !same_path(&last, path);
        if keep {
            kept.push(last);
            assert(kept.deep_view() =~= held.push(last.deep_view()));
        }
        proof {
            let now = kept.deep_view();
            assert forall|q: PathModel|
                (now.contains(q) || (rest.contains(q) && q != target)) <==> (start.contains(q)
                    && q != target) by {
                lemma_push_contains(rest, last.deep_view(), q);
                lemma_push_contains(held, last.deep_view(), q);
                assert((held.contains(q) || (before.contains(q) && q != target)) <==> (
                start.contains(q) && q != target));
            }
        }
    }
    *paths = kept;
}

impl FrameExtractorVisitor {
    /// A visitor for the given frame paths that has captured nothing yet.
    pub fn new(frame_paths: Vec<JsonPath>, nested_frame_paths: Vec<JsonPath>) -> (visitor: Self)
        ensures
            visitor@ == initial_state(frame_paths.deep_view(), nested_frame_paths.deep_view()),
    {
        FrameExtractorVisitor {
            frame_paths,
            nested_frame_paths,
            frame_data: Vec::new(),
            captured: Vec::new(),
        }
    }

    fn is_frame_at(&self, path: &JsonPath) -> (r: bool)
        ensures
            r == self@.frames.contains(path.deep_view()),
    {
        contains_path(&self.frame_paths, path)
    }

    fn has_nested_frame(&self, path: &JsonPath) -> (r: bool)
        ensures
            r == has_nested(self@, path.deep_view()),
    {
        if contains_path(&self.nested_frame_paths, path) {
            return true;
        }
        let ghost frames = self.frame_paths.deep_view();
        let mut i: usize = 0;
        while i < self.frame_paths.len()
            invariant
                i <= self.frame_paths.len(),
                frames == self.frame_paths.deep_view(),
                forall|j: int| 0 <= j < i ==> !strictly_extends(frames[j], path.deep_view()),
            decreases self.frame_paths.len() - i,
        {
            if extends_path(&self.frame_paths[i], path) {
                assert(frames.contains(frames[i as int]));
                return true;
            }
            i += 1;
        }
        false
    }

    fn is_captured(&self, path: &JsonPath) -> (r: bool)
        ensures
            r == self@.captured.contains(path.deep_view()),
    {
        contains_path(&self.captured, path)
    }

    fn capture(&mut self, path: &JsonPath, value: &Value)
        ensures
            final(self)@ == with_capture(old(self)@, path.deep_view(), value@),
    {
        let name = last_segment(path);
        self.frame_data.push((name, value.clone()));
    }

    fn try_enter(&mut self, path: &JsonPath, value: &Value) -> (action: VisitorAction)
        ensures
            (final(self)@, action) == entered(old(self)@, path.deep_view(), value@),
    {
        if !self.is_captured(path) && self.is_frame_at(path) {
            let nested = self.has_nested_frame(path);
            self.capture(path, value);
            if !nested {
                return VisitorAction::Stop;
            }
            let ghost before = self.captured.deep_view();
            self.captured.push(clone_path(path));
            assert(self.captured.deep_view() =~= before.push(path.deep_view()));
            assert(self.captured.deep_view().to_set() =~= before.to_set().insert(
                path.deep_view(),
            )) by {
                assert forall|q: PathModel|
                    self.captured.deep_view().contains(q) <==> (before.contains(q) || q
                        == path.deep_view()) by {
                    let now = self.captured.deep_view();
                    if before.contains(q) {
                        let i = choose|i: int| 0 <= i < before.len() && before[i] == q;
                        assert(now[i] == q);
                    }
                    assert(now[now.len() - 1] == path.deep_view());
                }
            }
        }
        VisitorAction::Continue
    }
}

impl JsonVisitor for FrameExtractorVisitor {
    open spec fn after_enter_object(state: FrameState, path: PathModel, value: Tree) -> (
        FrameState,
        VisitorAction,
    ) {
        entered(state, path, value)
    }

    open spec fn after_enter_array(state: FrameState, path: PathModel, value: Tree) -> (
        FrameState,
        VisitorAction,
    ) {
        entered(state, path, value)
    }

    open spec fn after_leave(state: FrameState, path: PathModel) -> FrameState {
        left(state, path)
    }

    open spec fn after_scalar(state: FrameState, path: PathModel, value: Tree) -> FrameState {
        scalar_seen(state, path, value)
    }

    open spec fn after_null(state: FrameState, path: PathModel) -> FrameState {
        state
    }

    fn enter_object(&mut self, path: &JsonPath, value: &Value) -> (action: VisitorAction) {
        self.try_enter(path, value)
    }

    fn enter_array(&mut self, path: &JsonPath, value: &Value) -> (action: VisitorAction) {
        self.try_enter(path, value)
    }

    fn leave(&mut self, path: &JsonPath) {
        remove_path(&mut self.captured, path);
    }

    fn on_scalar(&mut self, path: &JsonPath, value: &Value) {
        if !self.is_captured(path) && self.is_frame_at(path) {
            self.capture(path, value);
        }
    }

    fn on_null(&mut self, path: &JsonPath) {
    }
}

/// The state in which an extraction starts: nothing marked, nothing captured.
pub open spec fn initial_state(frames: Seq<PathModel>, nested: Seq<PathModel>) -> FrameState {
    FrameState {
        frames: frames.to_set(),
        nested: nested.to_set(),
        captured: Set::empty(),
        log: Seq::empty(),
    }
}

/// The sub-trees among the first `n` captures that were captured under a name,
/// in the order of capture.
pub open spec fn values_named(log: Seq<(Seq<char>, Tree)>, n: nat, name: Seq<char>) -> Seq<Tree>
    decreases n,
{
    if n == 0 || n > log.len() {
        Seq::empty()
    } else {
        let before = values_named(log, (n - 1) as nat, name);
        if log[n - 1].0 == name {
            before.push(log[n - 1].1)
        } else {
            before
        }
    }
}

/// The frames of a tree: for each configured frame path, in order, its last
/// segment as the frame's name and the sub-trees that a walk from the empty
/// path captured under that name, in the order of the walk.
pub open spec fn extracted(data: Tree, frames: Seq<PathModel>, nested: Seq<PathModel>) -> Seq<
    (Seq<char>, Seq<Tree>),
> {
    let log = visit::<FrameExtractorVisitor>(initial_state(frames, nested), Seq::empty(), data).log;
    Seq::new(
        frames.len(),
        |i: int| (terminal_name(frames[i]), values_named(log, log.len(), terminal_name(frames[i]))),
    )
}

/// The sub-trees that were captured under a name, in the order of capture.
fn collect_named(log: &Vec<(String, Value)>, name: &String) -> (values: Vec<Value>)
    ensures
        values.deep_view() == values_named(log.deep_view(), log.len() as nat, name@),
{
    let mut values: Vec<Value> = Vec::new();
    let mut i: usize = 0;
    while i < log.len()
        invariant
            i <= log.len(),
            values.deep_view() == values_named(log.deep_view(), i as nat, name@),
        decreases log.len() - i,
    {
        if log[i].0 == *name {
            values.push(log[i].1.clone());
        }
        i += 1;
    }
    values
}

/// Extracts the frames of a tree.
///
/// The result holds one entry for each configured frame path, in the order
/// given: the path's last segment as the frame's name (the empty text for an
/// empty path) and the sub-trees captured under that name. A frame that the
/// tree does not hold has an entry without values.
pub fn extract_frames(
    data: &Value,
    frame_paths: Vec<JsonPath>,
    nested_frame_paths: Vec<JsonPath>,
) -> (result: Vec<(String, Vec<Value>)>)
    ensures
        result.deep_view() == extracted(
            data@,
            frame_paths.deep_view(),
            nested_frame_paths.deep_view(),
        ),
{
    let ghost frames = frame_paths.deep_view();
    let mut names: Vec<String> = Vec::with_capacity(frame_paths.len());
    let mut i: usize = 0;
    while i < frame_paths.len()
        invariant
            i <= frame_paths.len(),
            frames == frame_paths.deep_view(),
            names.len() == i,
            forall|j: int| 0 <= j < i ==> (#[trigger] names[j])@ == terminal_name(frames[j]),
        decreases frame_paths.len() - i,
    {
        names.push(last_segment(&frame_paths[i]));
        i += 1;
    }
    let mut visitor = FrameExtractorVisitor::new(frame_paths, nested_frame_paths);
    walk(data, &mut visitor, None);
    let ghost log = visitor.frame_data.deep_view();
    let mut result: Vec<(String, Vec<Value>)> = Vec::with_capacity(names.len());
    let mut k: usize = 0;
    while k < names.len()
        invariant
            k <= names.len(),
            names.len() == frames.len(),
            log == visitor.frame_data.deep_view(),
            result.len() == k,
            forall|j: int|
                0 <= j < names.len() ==> (#[trigger] names[j])@ == terminal_name(frames[j]),
            forall|j: int|
                0 <= j < k ==> (#[trigger] result[j]).deep_view() == (
                    terminal_name(frames[j]),
                    values_named(log, log.len(), terminal_name(frames[j])),
                ),
        decreases names.len() - k,
    {
        let values = collect_named(&visitor.frame_data, &names[k]);
        result.push((names[k].clone(), values));
        k += 1;
    }
    result
}

/// Whether one state follows another in a walk: the configuration is the
/// same, and the log has only grown at its end.
pub open spec fn follows(end: FrameState, start: FrameState) -> bool {
    &&& end.frames == start.frames
    &&& end.nested == start.nested
    &&& start.log.len() <= end.log.len()
    &&& end.log.take(start.log.len() as int) =~= start.log
}

/// A walk keeps what was captured before it, in order, and changes neither
/// the frame paths nor the paths configured as having nested frames.
pub proof fn lemma_walk_keeps_captures(state: FrameState, path: PathModel, node: Tree)
    ensures
        follows(visit::<FrameExtractorVisitor>(state, path, node), state),
    decreases node, 0nat,
{
    match node {
        Tree::Object(entries) => {
            let (inside, action) = entered(state, path, node);
            if action is Continue {
                lemma_entries_keep_captures(inside, path, entries, entries.len());
            }
        },
        Tree::List(items) => {
            let (inside, action) = entered(state, path, node);
            if action is Continue {
                lemma_items_keep_captures(inside, path, items, items.len());
            }
        },
        _ => {},
    }
}

proof fn lemma_entries_keep_captures(
    state: FrameState,
    path: PathModel,
    entries: Seq<(Seq<char>, Tree)>,
    n: nat,
)
    requires
        n <= entries.len(),
    ensures
        follows(visit_entries::<FrameExtractorVisitor>(state, path, entries, n), state),
    decreases entries, n,
{
    if n > 0 {
        lemma_entries_keep_captures(state, path, entries, (n - 1) as nat);
        let before = visit_entries::<FrameExtractorVisitor>(state, path, entries, (n - 1) as nat);
        lemma_walk_keeps_captures(before, path.push(entries[n - 1].0), entries[n - 1].1);
    }
}

proof fn lemma_items_keep_captures(state: FrameState, path: PathModel, items: Seq<Tree>, n: nat)
    requires
        n <= items.len(),
    ensures
        follows(visit_items::<FrameExtractorVisitor>(state, path, items, n), state),
    decreases items, n,
{
    if n > 0 {
        lemma_items_keep_captures(state, path, items, (n - 1) as nat);
        let before = visit_items::<FrameExtractorVisitor>(state, path, items, (n - 1) as nat);
        lemma_walk_keeps_captures(before, path, items[n - 1]);
    }
}

/// A frame without nested frames is a boundary. Where a walk meets a node
/// that is not null at an unmarked frame path below which no frame is to be
/// looked for, it captures that node and nothing else: no descendant is
/// visited, and the state is otherwise as before.
pub proof fn lemma_frame_boundary(state: FrameState, path: PathModel, node: Tree)
    requires
        !(node is Null),
        captures_here(state, path),
        !has_nested(state, path),
    ensures
        visit::<FrameExtractorVisitor>(state, path, node) == with_capture(state, path, node),
{
    let end = visit::<FrameExtractorVisitor>(state, path, node);
    if node is Object || node is List {
        assert(end == left(with_capture(state, path, node), path));
        assert(end.captured =~= state.captured);
    }
}

/// A frame is captured whatever was captured above it. Where a walk meets a
/// node that is not null at an unmarked frame path, the node is the next
/// capture, under the last segment of its path, whichever paths are marked
/// and whatever the log holds: the capture of an enclosing frame marks the
/// enclosing frame's path only.
pub proof fn lemma_frame_is_captured(state: FrameState, path: PathModel, node: Tree)
    requires
        captures_here(state, path),
        !(node is Null),
    ensures
        follows(visit::<FrameExtractorVisitor>(state, path, node), state),
        visit::<FrameExtractorVisitor>(state, path, node).log.len() > state.log.len(),
        visit::<FrameExtractorVisitor>(state, path, node).log[state.log.len() as int] == (
            terminal_name(path),
            node,
        ),
{
    let end = visit::<FrameExtractorVisitor>(state, path, node);
    let first = with_capture(state, path, node);
    lemma_walk_keeps_captures(state, path, node);
    match node {
        Tree::Object(entries) => {
            let (inside, action) = entered(state, path, node);
            assert(inside.log == first.log);
            if action is Continue {
                lemma_entries_keep_captures(inside, path, entries, entries.len());
                let deep = visit_entries::<FrameExtractorVisitor>(
                    inside,
                    path,
                    entries,
                    entries.len(),
                );
                assert(deep.log.take(inside.log.len() as int)[state.log.len() as int]
                    == inside.log[state.log.len() as int]);
            }
        },
        Tree::List(items) => {
            let (inside, action) = entered(state, path, node);
            assert(inside.log == first.log);
            if action is Continue {
                lemma_items_keep_captures(inside, path, items, items.len());
                let deep = visit_items::<FrameExtractorVisitor>(inside, path, items, items.len());
                assert(deep.log.take(inside.log.len() as int)[state.log.len() as int]
                    == inside.log[state.log.len() as int]);
            }
        },
        _ => {},
    }
}

/// Entering a node marks at most the node's own path.
pub proof fn lemma_enter_marks_own_path(
    state: FrameState,
    path: PathModel,
    node: Tree,
    other: PathModel,
)
    requires
        other != path,
    ensures
        entered(state, path, node).0.captured.contains(other) == state.captured.contains(other),
        entered(state, path, node).0.frames == state.frames,
{
}

} // verus!
