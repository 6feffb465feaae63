//! The normalization engine: flattens a tree into flat rows. Objects extend
//! the path, lists multiply the rows, and leaves become columns.

use crate::path::{cached_name, column_name, contains_path, NameCache};
use crate::value::{
    lemma_list_view, lemma_object_view, JsonPath, PathModel, Row, RowModel, Tree, Value,
};
use vstd::arithmetic::div_mod::lemma_fundamental_div_mod_converse;
use vstd::prelude::*;
use vstd::string::*;

verus! {

/// How a tree is flattened.
pub struct NormalizeOpts {
    /// Joins the segments of a path into a column name.
    pub separator: String,
    /// The column name of a path whose joined name is empty.
    pub fallback: String,
    /// Where present, only values at exactly these paths become columns.
    pub selection_set: Option<Vec<JsonPath>>,
}

/// Options as contracts see them; the selection is a set of paths.
pub struct OptsModel {
    pub separator: Seq<char>,
    pub fallback: Seq<char>,
    pub selection: Option<Set<PathModel>>,
}

impl View for NormalizeOpts {
    type V = OptsModel;

    open spec fn view(&self) -> OptsModel {
        OptsModel {
            separator: self.separator@,
            fallback: self.fallback@,
            selection: match self.selection_set {
                Some(paths) => Some(paths.deep_view().to_set()),
                None => None,
            },
        }
    }
}

/// Whether a value at this path becomes a column: always without a
/// selection, else only where the exact path is selected.
pub open spec fn selected(opts: OptsModel, path: PathModel) -> bool {
    match opts.selection {
        None => true,
        Some(paths) => paths.contains(path),
    }
}

/// Every row extended by one column.
pub open spec fn with_column(rows: Seq<RowModel>, name: Seq<char>, value: Tree) -> Seq<RowModel> {
    Seq::new(rows.len(), |r: int| rows[r].push((name, value)))
}

/// The cross-join of two row sets: for every row of the first, in order, and
/// every row of the second, in order, the first row's columns followed by the
/// second's.
pub open spec fn cross_joined(rows: Seq<RowModel>, other: Seq<RowModel>) -> Seq<RowModel> {
    Seq::new(
        rows.len() * other.len(),
        |k: int| rows[k / (other.len() as int)] + other[k % (other.len() as int)],
    )
}

/// The rows that result from merging `node`, which sits at `path`, into `rows`.
///
/// An object merges its entries in order, each at the path extended by its
/// key. A list is flattened on its own and cross-joined with `rows`, unless it
/// yields no rows, in which case `rows` stay as they are. A scalar or a null
/// adds a column to every row if its path is selected.
pub open spec fn flattened_into(
    rows: Seq<RowModel>,
    node: Tree,
    path: PathModel,
    opts: OptsModel,
) -> Seq<RowModel>
    decreases node, 0nat,
{
    match node {
        Tree::Object(entries) => entries_flattened_into(rows, entries, entries.len(), path, opts),
        Tree::List(items) => {
            let sub = items_flattened(items, items.len(), path, opts);
            if sub.len() == 0 {
                rows
            } else {
                cross_joined(rows, sub)
            }
        },
        _ => if selected(opts, path) {
            with_column(rows, column_name(path, opts.separator, opts.fallback), node)
        } else {
            rows
        },
    }
}

/// The rows after the first `n` entries of an object were merged in order.
pub open spec fn entries_flattened_into(
    rows: Seq<RowModel>,
    entries: Seq<(Seq<char>, Tree)>,
    n: nat,
    path: PathModel,
    opts: OptsModel,
) -> Seq<RowModel>
    decreases entries, n,
{
    if n == 0 || n > entries.len() {
        rows
    } else {
        flattened_into(
            entries_flattened_into(rows, entries, (n - 1) as nat, path, opts),
            entries[n - 1].1,
            path.push(entries[n - 1].0),
            opts,
        )
    }
}

/// The rows of the first `n` elements of a list, one after another: each
/// element that is not null flattened on its own at the path of the list.
pub open spec fn items_flattened(
    items: Seq<Tree>,
    n: nat,
    path: PathModel,
    opts: OptsModel,
) -> Seq<RowModel>
    decreases items, n,
{
    if n == 0 || n > items.len() {
        Seq::empty()
    } else {
        let before = items_flattened(items, (n - 1) as nat, path, opts);
        if items[n - 1] is Null {
            before
        } else {
            before + flattened(items[n - 1], path, opts)
        }
    }
}

/// The rows of a tree that sits at `path`: the tree merged into one row
/// without columns.
pub open spec fn flattened(node: Tree, path: PathModel, opts: OptsModel) -> Seq<RowModel>
    decreases node, 1nat,
{
    flattened_into(seq![Seq::empty()], node, path, opts)
}

/// Whether a value at this path becomes a column.
pub fn should_include(path: &JsonPath, selection_set: &Option<Vec<JsonPath>>) -> (r: bool)
    ensures
        r == match selection_set {
            None => true,
            Some(paths) => paths.deep_view().contains(path.deep_view()),
        },
{
    match selection_set {
        None => true,
        Some(paths) => contains_path(paths, path),
    }
}

/// The columns of one row followed by those of another.
fn merge_rows(left: &Row, right: &Row) -> (merged: Row)
    ensures
        merged.deep_view() == left.deep_view() + right.deep_view(),
{
    let mut merged: Row = Vec::new();
    let mut i: usize = 0;
    while i < left.len()
        invariant
            i <= left.len(),
            merged.len() == i,
            forall|k: int| 0 <= k < i ==> (#[trigger] merged[k]).deep_view() == left[k].deep_view(),
        decreases left.len() - i,
    {
        merged.push((left[i].0.clone(), left[i].1.clone()));
        i += 1;
    }
    let mut j: usize = 0;
    while j < right.len()
        invariant
            j <= right.len(),
            merged.len() == left.len() + j,
            forall|k: int|
                0 <= k < left.len() ==> (#[trigger] merged[k]).deep_view() == left[k].deep_view(),
            forall|k: int|
                0 <= k < j ==> (#[trigger] merged[left.len() + k]).deep_view()
                    == right[k].deep_view(),
        decreases right.len() - j,
    {
        merged.push((right[j].0.clone(), right[j].1.clone()));
        j += 1;
    }
    assert(merged.deep_view() =~= left.deep_view() + right.deep_view()) by {
        assert forall|k: int| 0 <= k < merged.len() implies merged.deep_view()[k] == (
        left.deep_view() + right.deep_view())[k] by {
            if k >= left.len() {
                assert(merged[left.len() + (k - left.len())].deep_view() == right[k
                    - left.len()].deep_view());
            }
        }
    }
    merged
}

/// Replaces `rows` by their cross-join with `other`.
pub fn cross_join(rows: &mut Vec<Row>, other: &Vec<Row>)
    ensures
        final(rows).deep_view() == cross_joined(old(rows).deep_view(), other.deep_view()),
{
    let mut result: Vec<Row> = Vec::new();
    let ghost left = rows.deep_view();
    let ghost right = other.deep_view();
    let ghost m = other.len() as int;
    let mut i: usize = 0;
    while i < rows.len()
        invariant
            i <= rows.len(),
            left == rows.deep_view(),
            right == other.deep_view(),
            m == other.len(),
            result.len() == i * m,
            forall|k: int|
                0 <= k < result.len() ==> (#[trigger] result.deep_view()[k]) == left[k / m]
                    + right[k % m],
        decreases rows.len() - i,
    {
        let mut j: usize = 0;
        while j < other.len()
            invariant
                i < rows.len(),
                j <= other.len(),
                left == rows.deep_view(),
                right == other.deep_view(),
                m == other.len(),
                result.len() == i * m + j,
                forall|k: int|
                    0 <= k < result.len() ==> (#[trigger] result.deep_view()[k]) == left[k / m]
                        + right[k % m],
            decreases other.len() - j,
        {
            let merged = merge_rows(&rows[i], &other[j]);
            let ghost before = result.deep_view();
            result.push(merged);
            proof {
                let k = i * m + j;
                lemma_fundamental_div_mod_converse(k, m, i as int, j as int);
                assert(result.deep_view() =~= before.push(merged.deep_view()));
            }
            j += 1;
        }
        assert((i + 1) * m == i * m + m) by (nonlinear_arith);
        i += 1;
    }
    *rows = result;
}

/// Appends one column to every row.
fn push_column(rows: &mut Vec<Row>, name: &String, value: &Value)
    ensures
        final(rows).deep_view() == with_column(old(rows).deep_view(), name@, value@),
{
    let ghost before = rows.deep_view();
    let mut r: usize = 0;
    while r < rows.len()
        invariant
            r <= rows.len(),
            rows.len() == before.len(),
            forall|k: int|
                0 <= k < r ==> (#[trigger] rows[k]).deep_view() == before[k].push(
                    (name@, value@),
                ),
            forall|k: int| r <= k < rows.len() ==> (#[trigger] rows[k]).deep_view() == before[k],
        decreases rows.len() - r,
    {
        let row: &mut Row = &mut rows[r];
        row.push((name.clone(), value.clone()));
        r += 1;
    }
}

/// Merges a value, which sits at the path on the stack, into `rows`.
#[verifier::loop_isolation(false)]
fn normalize_into(
    rows: &mut Vec<Row>,
    val: &Value,
    opts: &NormalizeOpts,
    path_stack: &mut JsonPath,
    name_cache: &mut NameCache,
)
    ensures
        final(rows).deep_view() == flattened_into(
            old(rows).deep_view(),
            val@,
            old(path_stack).deep_view(),
            opts@,
        ),
        final(path_stack).deep_view() == old(path_stack).deep_view(),
    decreases val, 0nat,
{
    let ghost here = path_stack.deep_view();
    let ghost start = rows.deep_view();
    match val {
        Value::Object(entries) => {
            proof {
                lemma_object_view(*entries);
            }
            let ghost fields = entries.deep_view();
            let mut i: usize = 0;
            while i < entries.len()
                invariant
                    i <= entries.len(),
                    fields == entries.deep_view(),
                    path_stack.deep_view() == here,
                    rows.deep_view() == entries_flattened_into(
                        start,
                        fields,
                        i as nat,
                        here,
                        opts@,
                    ),
                decreases entries.len() - i,
            {
                path_stack.push(entries[i].0.clone());
                assert(path_stack.deep_view() =~= here.push(fields[i as int].0));
                normalize_into(rows, &entries[i].1, opts, path_stack, name_cache);
                let ghost deeper = path_stack.deep_view();
                path_stack.pop();
                assert(path_stack.deep_view() =~= deeper.drop_last());
                i += 1;
            }
        },
        Value::List(items) => {
            proof {
                lemma_list_view(*items);
            }
            let ghost elements = items.deep_view();
            let mut all_sub_rows: Vec<Row> = Vec::new();
            let mut i: usize = 0;
            while i < items.len()
                invariant
                    i <= items.len(),
                    elements == items.deep_view(),
                    path_stack.deep_view() == here,
                    all_sub_rows.deep_view() == items_flattened(elements, i as nat, here, opts@),
                decreases items.len() - i,
            {
                let is_null = match &items[i] {
                    Value::Null => true,
                    _ => false,
                };
                if !is_null {
                    let mut sub = normalize_value(&items[i], opts, path_stack, name_cache);
                    let ghost before = all_sub_rows.deep_view();
                    let ghost added = sub.deep_view();
                    all_sub_rows.append(&mut sub);
                    assert(all_sub_rows.deep_view() =~= before + added);
                }
                i += 1;
            }
            if !all_sub_rows.is_empty() {
                cross_join(rows, &all_sub_rows);
            }
        },
        _ => {
            if should_include(path_stack, &opts.selection_set) {
                let name = cached_name(path_stack, &opts.separator, &opts.fallback, name_cache);
                push_column(rows, &name, val);
            }
        },
    }
}

/// Flattens a tree, which sits at the path on the stack, into rows.
///
/// The path stack is left as it was found. The name cache only saves work:
/// the rows are the same with any cache.
pub fn normalize_value(
    val: &Value,
    opts: &NormalizeOpts,
    path_stack: &mut JsonPath,
    name_cache: &mut NameCache,
) -> (rows: Vec<Row>)
    ensures
        rows.deep_view() == flattened(val@, old(path_stack).deep_view(), opts@),
        final(path_stack).deep_view() == old(path_stack).deep_view(),
    decreases val, 1nat,
{
    let mut rows: Vec<Row> = Vec::new();
    rows.push(Vec::new());
    assert(rows.deep_view() =~~= seq![Seq::<(Seq<char>, Tree)>::empty()]);
    normalize_into(&mut rows, val, opts, path_stack, name_cache);
    rows
}

/// The options that a separator, a fallback and an optional selection stand for.
pub open spec fn options(
    separator: Seq<char>,
    fallback: Seq<char>,
    selection_set: Option<Vec<JsonPath>>,
) -> OptsModel {
    OptsModel {
        separator,
        fallback,
        selection: match selection_set {
            Some(paths) => Some(paths.deep_view().to_set()),
            None => None,
        },
    }
}

/// The rows of the first `n` trees of a batch, one tree after another, each
/// flattened on its own from the empty path.
pub open spec fn batch_flattened(objects: Seq<Tree>, n: nat, opts: OptsModel) -> Seq<RowModel>
    decreases n,
{
    if n == 0 || n > objects.len() {
        Seq::empty()
    } else {
        batch_flattened(objects, (n - 1) as nat, opts) + flattened(
            objects[n - 1],
            Seq::empty(),
            opts,
        )
    }
}

/// Flattens every tree of a batch and concatenates the rows, in order. One
/// path stack and one name cache serve the whole batch.
pub fn normalize_batch(objects: &Vec<Value>, opts: &NormalizeOpts) -> (rows: Vec<Row>)
    ensures
        rows.deep_view() == batch_flattened(objects.deep_view(), objects.len() as nat, opts@),
{
    let mut path_stack: JsonPath = Vec::new();
    let mut name_cache = NameCache::new();
    let mut all_rows: Vec<Row> = Vec::new();
    let mut i: usize = 0;
    while i < objects.len()
        invariant
            i <= objects.len(),
            path_stack.deep_view() == Seq::<Seq<char>>::empty(),
            all_rows.deep_view() == batch_flattened(objects.deep_view(), i as nat, opts@),
        decreases objects.len() - i,
    {
        let mut rows = normalize_value(&objects[i], opts, &mut path_stack, &mut name_cache);
        let ghost before = all_rows.deep_view();
        let ghost added = rows.deep_view();
        all_rows.append(&mut rows);
        assert(all_rows.deep_view() =~= before + added);
        i += 1;
    }
    all_rows
}

/// The options for a separator, a fallback and an optional selection.
pub fn prepare(separator: &str, fallback: &str, selection_set: Option<Vec<JsonPath>>) -> (opts:
    NormalizeOpts)
    ensures
        opts@ == options(separator@, fallback@, selection_set),
        opts.selection_set == selection_set,
{
    NormalizeOpts {
        separator: String::from_str(separator),
        fallback: String::from_str(fallback),
        selection_set,
    }
}

/// The factor by which merging a tree multiplies the number of rows: the
/// product of the factors of an object's children; for a list the sum of the
/// factors of its elements that are not null, or 1 where that sum is 0; and 1
/// for a scalar or a null.
pub open spec fn multiplier(node: Tree) -> nat
    decreases node, 0nat,
{
    match node {
        Tree::Object(entries) => entries_multiplier(entries, entries.len()),
        Tree::List(items) => {
            let sum = items_multiplier(items, items.len());
            if sum == 0 {
                1
            } else {
                sum
            }
        },
        _ => 1,
    }
}

/// The product of the factors of the first `n` children of an object.
pub open spec fn entries_multiplier(entries: Seq<(Seq<char>, Tree)>, n: nat) -> nat
    decreases entries, n,
{
    if n == 0 || n > entries.len() {
        1
    } else {
        entries_multiplier(entries, (n - 1) as nat) * multiplier(entries[n - 1].1)
    }
}

/// The sum of the factors of those of the first `n` elements of a list that
/// are not null.
pub open spec fn items_multiplier(items: Seq<Tree>, n: nat) -> nat
    decreases items, n,
{
    if n == 0 || n > items.len() {
        0
    } else {
        let before = items_multiplier(items, (n - 1) as nat);
        if items[n - 1] is Null {
            before
        } else {
            before + multiplier(items[n - 1])
        }
    }
}

/// The number of rows. Merging a tree into rows multiplies their number by
/// the tree's factor, whatever the path and the options; so a tree flattens
/// into as many rows as its factor says: for an object, the product over its
/// arrays of the number of rows that the array's elements flatten into, an
/// array without such rows counting as 1.
pub proof fn lemma_row_count(rows: Seq<RowModel>, node: Tree, path: PathModel, opts: OptsModel)
    ensures
        flattened_into(rows, node, path, opts).len() == rows.len() * multiplier(node),
        flattened(node, path, opts).len() == multiplier(node),
    decreases node, 1nat,
{
    let one: Seq<RowModel> = seq![Seq::empty()];
    assert(one.len() == 1);
    lemma_row_count_into(rows, node, path, opts);
    lemma_row_count_into(one, node, path, opts);
}

proof fn lemma_row_count_into(rows: Seq<RowModel>, node: Tree, path: PathModel, opts: OptsModel)
    ensures
        flattened_into(rows, node, path, opts).len() == rows.len() * multiplier(node),
    decreases node, 0nat,
{
    let out = flattened_into(rows, node, path, opts);
    let factor = multiplier(node);
    match node {
        Tree::Object(entries) => {
            lemma_row_count_entries(rows, entries, entries.len(), path, opts);
            assert(factor == entries_multiplier(entries, entries.len()));
        },
        Tree::List(items) => {
            lemma_row_count_items(items, items.len(), path, opts);
            let sub = items_flattened(items, items.len(), path, opts);
            if sub.len() == 0 {
                assert(out == rows);
                assert(factor == 1);
            } else {
                assert(out == cross_joined(rows, sub));
                assert(factor == sub.len());
            }
        },
        _ => {
            assert(out.len() == rows.len());
            assert(factor == 1);
        },
    }
    assert(out.len() == rows.len() * factor) by (nonlinear_arith)
        requires
            (factor == 1 && out.len() == rows.len()) || out.len() == rows.len() * factor,
    ;
}

proof fn lemma_row_count_entries(
    rows: Seq<RowModel>,
    entries: Seq<(Seq<char>, Tree)>,
    n: nat,
    path: PathModel,
    opts: OptsModel,
)
    requires
        n <= entries.len(),
    ensures
        entries_flattened_into(rows, entries, n, path, opts).len() == rows.len()
            * entries_multiplier(entries, n),
    decreases entries, n,
{
    if n > 0 {
        lemma_row_count_entries(rows, entries, (n - 1) as nat, path, opts);
        let before = entries_flattened_into(rows, entries, (n - 1) as nat, path, opts);
        lemma_row_count_into(before, entries[n - 1].1, path.push(entries[n - 1].0), opts);
        let a = rows.len();
        let b = entries_multiplier(entries, (n - 1) as nat);
        let c = multiplier(entries[n - 1].1);
        assert((a * b) * c == a * (b * c)) by (nonlinear_arith);
    } else {
        assert(entries_multiplier(entries, n) == 1);
    }
}

proof fn lemma_row_count_items(items: Seq<Tree>, n: nat, path: PathModel, opts: OptsModel)
    requires
        n <= items.len(),
    ensures
        items_flattened(items, n, path, opts).len() == items_multiplier(items, n),
    decreases items, n,
{
    if n > 0 {
        lemma_row_count_items(items, (n - 1) as nat, path, opts);
        if !(items[n - 1] is Null) {
            let one: Seq<RowModel> = seq![Seq::empty()];
            assert(one.len() == 1);
            lemma_row_count_into(one, items[n - 1], path, opts);
            assert(flattened(items[n - 1], path, opts) == flattened_into(
                one,
                items[n - 1],
                path,
                opts,
            ));
        }
    }
}

/// The elements of a list that are not null, in order.
pub open spec fn without_nulls(items: Seq<Tree>) -> Seq<Tree> {
    items.filter(|item: Tree| !(item is Null))
}

/// The rows of the first `n` elements of a list depend on those elements only.
proof fn lemma_items_flattened_prefix(
    items: Seq<Tree>,
    other: Seq<Tree>,
    n: nat,
    path: PathModel,
    opts: OptsModel,
)
    requires
        n <= items.len(),
        n <= other.len(),
        forall|i: int| 0 <= i < n ==> items[i] == other[i],
    ensures
        items_flattened(items, n, path, opts) == items_flattened(other, n, path, opts),
    decreases n,
{
    if n > 0 {
        lemma_items_flattened_prefix(items, other, (n - 1) as nat, path, opts);
    }
}

proof fn lemma_nulls_dropped(items: Seq<Tree>, path: PathModel, opts: OptsModel)
    ensures
        items_flattened(items, items.len(), path, opts) == items_flattened(
            without_nulls(items),
            without_nulls(items).len(),
            path,
            opts,
        ),
    decreases items.len(),
{
    reveal(Seq::filter);
    if items.len() > 0 {
        let keeps = |item: Tree| !(item is Null);
        let shorter = items.drop_last();
        let n = (items.len() - 1) as nat;
        lemma_nulls_dropped(shorter, path, opts);
        lemma_items_flattened_prefix(items, shorter, n, path, opts);
        let kept = without_nulls(shorter);
        assert(without_nulls(items) == if keeps(items.last()) {
            kept.push(items.last())
        } else {
            kept
        });
        if !(items.last() is Null) {
            let longer = kept.push(items.last());
            lemma_items_flattened_prefix(longer, kept, kept.len(), path, opts);
        }
    }
}

/// Null elements of a list are dropped: a list is merged as the list of its
/// elements that are not null is.
pub proof fn lemma_null_elements_are_dropped(
    rows: Seq<RowModel>,
    items: Seq<Tree>,
    path: PathModel,
    opts: OptsModel,
)
    ensures
        flattened_into(rows, Tree::List(items), path, opts) == flattened_into(
            rows,
            Tree::List(without_nulls(items)),
            path,
            opts,
        ),
{
    lemma_nulls_dropped(items, path, opts);
}

/// An empty array contributes nothing: merging it leaves the rows as they are.
pub proof fn lemma_empty_array_contributes_nothing(
    rows: Seq<RowModel>,
    path: PathModel,
    opts: OptsModel,
)
    ensures
        flattened_into(rows, Tree::List(Seq::empty()), path, opts) == rows,
{
}

/// A bare scalar or null takes the fallback name: flattened from the empty
/// path, it gives one row with one column, named by the fallback, unless a
/// selection leaves the empty path out.
pub proof fn lemma_bare_leaf_takes_the_fallback(leaf: Tree, opts: OptsModel)
    requires
        !(leaf is Object),
        !(leaf is List),
        selected(opts, Seq::empty()),
    ensures
        flattened(leaf, Seq::empty(), opts) == seq![seq![(opts.fallback, leaf)]],
{
    let one: Seq<RowModel> = seq![Seq::empty()];
    let name = column_name(Seq::empty(), opts.separator, opts.fallback);
    assert(name == opts.fallback);
    assert(flattened(leaf, Seq::empty(), opts) == with_column(one, name, leaf));
    assert(with_column(one, name, leaf) =~~= seq![seq![(opts.fallback, leaf)]]);
}

/// Whether a name is the column name of a selected path, where there is a
/// selection.
pub open spec fn names_selected_path(name: Seq<char>, opts: OptsModel) -> bool {
    opts.selection matches Some(paths) ==> exists|path: PathModel|
        #[trigger] paths.contains(path) && name == column_name(path, opts.separator, opts.fallback)
}

/// Every column of every row is named after a selected path.
pub open spec fn columns_selected(rows: Seq<RowModel>, opts: OptsModel) -> bool {
    forall|r: int, c: int|
        0 <= r < rows.len() && 0 <= c < rows[r].len() ==> names_selected_path(
            #[trigger] rows[r][c].0,
            opts,
        )
}

/// A selection restricts what is emitted to its exact paths: every column of
/// a flattened tree is named after a selected path.
pub proof fn lemma_only_selected_paths_emit(node: Tree, path: PathModel, opts: OptsModel)
    ensures
        columns_selected(flattened(node, path, opts), opts),
{
    let one: Seq<RowModel> = seq![Seq::empty()];
    lemma_selected_into(one, node, path, opts);
}

/// Merging a tree into rows adds only columns that are named after selected
/// paths.
pub proof fn lemma_merge_adds_selected_paths_only(
    rows: Seq<RowModel>,
    node: Tree,
    path: PathModel,
    opts: OptsModel,
)
    requires
        columns_selected(rows, opts),
    ensures
        columns_selected(flattened_into(rows, node, path, opts), opts),
{
    lemma_selected_into(rows, node, path, opts);
}

proof fn lemma_selected_into(rows: Seq<RowModel>, node: Tree, path: PathModel, opts: OptsModel)
    requires
        columns_selected(rows, opts),
    ensures
        columns_selected(flattened_into(rows, node, path, opts), opts),
    decreases node, 0nat,
{
    let out = flattened_into(rows, node, path, opts);
    match node {
        Tree::Object(entries) => {
            lemma_selected_entries(rows, entries, entries.len(), path, opts);
        },
        Tree::List(items) => {
            lemma_selected_items(items, items.len(), path, opts);
            let sub = items_flattened(items, items.len(), path, opts);
            if sub.len() > 0 {
                assert forall|r: int, c: int|
                    0 <= r < out.len() && 0 <= c < out[r].len() implies names_selected_path(
                    #[trigger] out[r][c].0,
                    opts,
                ) by {
                    let m = sub.len() as int;
                    let left = rows[r / m];
                    let right = sub[r % m];
                    assert(0 <= r / m < rows.len()) by (nonlinear_arith)
                        requires
                            0 <= r < rows.len() * m,
                            m > 0,
                    ;
                    assert(0 <= r % m < m) by (nonlinear_arith)
                        requires
                            0 <= r,
                            m > 0,
                    ;
                    assert(out[r] == left + right);
                    if c < left.len() {
                        assert(out[r][c] == left[c]);
                    } else {
                        assert(out[r][c] == right[c - left.len()]);
                    }
                }
            }
        },
        _ => {
            if selected(opts, path) {
                let name = column_name(path, opts.separator, opts.fallback);
                assert(names_selected_path(name, opts)) by {
                    if let Some(paths) = opts.selection {
                        assert(paths.contains(path));
                    }
                }
                assert forall|r: int, c: int|
                    0 <= r < out.len() && 0 <= c < out[r].len() implies names_selected_path(
                    #[trigger] out[r][c].0,
                    opts,
                ) by {
                    assert(out[r] == rows[r].push((name, node)));
                    if c < rows[r].len() {
                        assert(out[r][c] == rows[r][c]);
                    }
                }
            }
        },
    }
}

proof fn lemma_selected_entries(
    rows: Seq<RowModel>,
    entries: Seq<(Seq<char>, Tree)>,
    n: nat,
    path: PathModel,
    opts: OptsModel,
)
    requires
        columns_selected(rows, opts),
        n <= entries.len(),
    ensures
        columns_selected(entries_flattened_into(rows, entries, n, path, opts), opts),
    decreases entries, n,
{
    if n > 0 {
        lemma_selected_entries(rows, entries, (n - 1) as nat, path, opts);
        let before = entries_flattened_into(rows, entries, (n - 1) as nat, path, opts);
        lemma_selected_into(before, entries[n - 1].1, path.push(entries[n - 1].0), opts);
    }
}

proof fn lemma_selected_items(items: Seq<Tree>, n: nat, path: PathModel, opts: OptsModel)
    requires
        n <= items.len(),
    ensures
        columns_selected(items_flattened(items, n, path, opts), opts),
    decreases items, n,
{
    if n > 0 {
        lemma_selected_items(items, (n - 1) as nat, path, opts);
        let before = items_flattened(items, (n - 1) as nat, path, opts);
        let out = items_flattened(items, n, path, opts);
        if !(items[n - 1] is Null) {
            let one: Seq<RowModel> = seq![Seq::empty()];
            lemma_selected_into(one, items[n - 1], path, opts);
            let added = flattened(items[n - 1], path, opts);
            assert(out == before + added);
            assert forall|r: int, c: int|
                0 <= r < out.len() && 0 <= c < out[r].len() implies names_selected_path(
                #[trigger] out[r][c].0,
                opts,
            ) by {
                if r < before.len() {
                    assert(out[r] == before[r]);
                } else {
                    assert(out[r] == added[r - before.len()]);
                }
            }
        }
    }
}

} // verus!
