//! The columnar materializer: rows as records (one mapping from column name
//! to value per row) and as columns (one sequence of values per column name).

use crate::flatten::{
    batch_flattened, flattened, normalize_batch, normalize_value, options, prepare,
};
use crate::path::NameCache;
use crate::value::{JsonPath, Row, RowModel, Tree, Value};
use vstd::prelude::*;

verus! {

/// The column names of a row, in order.
pub open spec fn names(row: RowModel) -> Seq<Seq<char>> {
    Seq::new(row.len(), |c: int| row[c].0)
}

/// Whether a row has the column names of the first row, in the same order.
pub open spec fn matches_first(rows: Seq<RowModel>, r: int) -> bool {
    names(rows[r]) =~= names(rows[0])
}

/// Every row has the same column names in the same order.
pub open spec fn uniform_layout(rows: Seq<RowModel>) -> bool {
    forall|r: int| 0 <= r < rows.len() ==> #[trigger] matches_first(rows, r)
}

/// Why a row set cannot be laid out as one table.
#[derive(Clone, Copy, Debug, PartialEq, Eq)]
pub enum TableError {
    /// The row at this index is the first whose column names, in order,
    /// differ from those of the first row.
    LayoutMismatch { row: usize },
}

/// Whether a result reports the first row that breaks the layout, or success
/// where none does.
pub open spec fn reports_layout<T>(rows: Seq<RowModel>, res: Result<T, TableError>) -> bool {
    match res {
        Ok(_) => uniform_layout(rows),
        Err(TableError::LayoutMismatch { row }) => {
            &&& 0 < row < rows.len()
            &&& !matches_first(rows, row as int)
            &&& forall|r: int| 0 <= r < row ==> #[trigger] matches_first(rows, r)
        },
    }
}

/// Whether two rows have the same column names in the same order.
pub fn same_names(a: &Row, b: &Row) -> (r: bool)
    ensures
        r == (names(a.deep_view()) =~= names(b.deep_view())),
{
    if a.len() != b.len() {
        return false;
    }
    let mut c: usize = 0;
    while c < a.len()
        invariant
            c <= a.len(),
            a.len() == b.len(),
            forall|k: int| 0 <= k < c ==> a[k].0@ == b[k].0@,
        decreases a.len() - c,
    {
        if a[c].0 != b[c].0 {
            assert(names(a.deep_view())[c as int] != names(b.deep_view())[c as int]);
            return false;
        }
        c += 1;
    }
    true
}

/// Checks that every row has the column names of the first, in order.
pub fn check_layout(rows: &Vec<Row>) -> (res: Result<(), TableError>)
    ensures
        reports_layout(rows.deep_view(), res),
{
    let ghost table = rows.deep_view();
    let mut r: usize = 1;
    while r < rows.len()
        invariant
            1 <= r,
            table == rows.deep_view(),
            forall|k: int| 0 <= k < r && k < rows.len() ==> #[trigger] matches_first(table, k),
        decreases rows.len() - r,
    {
        if !same_names(&rows[r], &rows[0]) {
            return Err(TableError::LayoutMismatch { row: r });
        }
        r += 1;
    }
    Ok(())
}

/// The names that a sequence of kept positions stands for.
pub open spec fn slot_names(names: Seq<Seq<char>>, slots: Seq<int>) -> Seq<Seq<char>> {
    Seq::new(slots.len(), |k: int| names[slots[k]])
}

/// The positions that a mapping keeps of the first `n` columns: one position
/// for each distinct name, in the order in which the names first appear, and
/// for each name the position of its last column among the `n`.
pub open spec fn slots(names: Seq<Seq<char>>, n: nat) -> Seq<int>
    decreases n,
{
    if n == 0 || n > names.len() {
        Seq::empty()
    } else {
        let before = slots(names, (n - 1) as nat);
        match slot_names(names, before).index_of_first(names[n - 1]) {
            Some(k) => before.update(k, n - 1),
            None => before.push(n - 1),
        }
    }
}

/// The positions that a mapping keeps of a row's columns.
pub open spec fn row_slots(row: RowModel) -> Seq<int> {
    slots(names(row), row.len())
}

/// Every kept position is a position among the first `n` columns.
pub proof fn lemma_slots_in_range(names: Seq<Seq<char>>, n: nat)
    requires
        n <= names.len(),
    ensures
        slots(names, n).len() <= n,
        forall|k: int| 0 <= k < slots(names, n).len() ==> 0 <= #[trigger] slots(names, n)[k] < n,
    decreases n,
{
    if n > 0 {
        lemma_slots_in_range(names, (n - 1) as nat);
        let before = slots(names, (n - 1) as nat);
        slot_names(names, before).index_of_first_ensures(names[n - 1]);
    }
}

/// A row as a mapping from column name to value: each distinct name once, in
/// the order of first appearance, with the value of its last column.
pub open spec fn record_of(row: RowModel) -> RowModel {
    let kept = row_slots(row);
    Seq::new(kept.len(), |k: int| row[kept[k]])
}

/// Every row as a mapping.
pub open spec fn records_of(rows: Seq<RowModel>) -> Seq<RowModel> {
    Seq::new(rows.len(), |r: int| record_of(rows[r]))
}

/// The values of one column position, one per row.
pub open spec fn column_values(rows: Seq<RowModel>, c: int) -> Seq<Tree> {
    Seq::new(rows.len(), |r: int| rows[r][c].1)
}

/// A row set as a mapping from column name to the column's values, one per
/// row: each distinct name of the first row once, in the order of first
/// appearance, with the values of its last column. No rows give no columns.
pub open spec fn columns_of(rows: Seq<RowModel>) -> Seq<(Seq<char>, Seq<Tree>)> {
    if rows.len() == 0 {
        Seq::empty()
    } else {
        let kept = row_slots(rows[0]);
        Seq::new(kept.len(), |k: int| (rows[0][kept[k]].0, column_values(rows, kept[k])))
    }
}

fn find_slot(row: &Row, kept: &Vec<usize>, name: &String) -> (found: Option<usize>)
    requires
        forall|k: int| 0 <= k < kept.len() ==> kept[k] < row.len(),
    ensures
        found matches Some(k) ==> k < kept.len() && row[kept[k as int] as int].0@ == name@,
        found matches Some(k) ==> forall|j: int| 0 <= j < k ==> row[kept[j] as int].0@ != name@,
        found is None ==> forall|j: int| 0 <= j < kept.len() ==> row[kept[j] as int].0@ != name@,
{
    let mut k: usize = 0;
    while k < kept.len()
        invariant
            k <= kept.len(),
            forall|k: int| 0 <= k < kept.len() ==> kept[k] < row.len(),
            forall|j: int| 0 <= j < k ==> row[kept[j] as int].0@ != name@,
        decreases kept.len() - k,
    {
        if row[kept[k]].0 == *name {
            return Some(k);
        }
        k += 1;
    }
    None
}

/// The positions that a mapping keeps of a row's columns.
fn layout_slots(row: &Row) -> (kept: Vec<usize>)
    ensures
        kept.len() == row_slots(row.deep_view()).len(),
        forall|k: int| 0 <= k < kept.len() ==> kept[k] == row_slots(row.deep_view())[k],
        forall|k: int| 0 <= k < kept.len() ==> kept[k] < row.len(),
{
    let ghost cells = row.deep_view();
    let ghost all = names(cells);
    let mut kept: Vec<usize> = Vec::new();
    let mut c: usize = 0;
    while c < row.len()
        invariant
            c <= row.len(),
            cells == row.deep_view(),
            all == names(cells),
            kept.len() == slots(all, c as nat).len(),
            forall|k: int| 0 <= k < kept.len() ==> kept[k] == slots(all, c as nat)[k],
            forall|k: int| 0 <= k < kept.len() ==> kept[k] < c,
        decreases row.len() - c,
    {
        let found = find_slot(row, &kept, &row[c].0);
        proof {
            let before = slots(all, c as nat);
            let held = slot_names(all, before);
            let name = all[c as int];
            held.index_of_first_ensures(name);
            assert forall|j: int| 0 <= j < held.len() implies held[j] == row[kept[j] as int].0@ by {
                assert(before[j] == kept[j]);
            }
            match found {
                Some(k) => {
                    assert(held[k as int] == name);
                    assert(held.index_of_first(name) == Some(k as int));
                },
                None => {
                    assert(held.index_of_first(name) is None);
                },
            }
        }
        match found {
            Some(k) => {
                kept.set(k, c);
            },
            None => {
                kept.push(c);
            },
        }
        c += 1;
    }
    kept
}

/// Turns a row into a mapping from column name to value.
pub fn to_record(row: &Row) -> (record: Row)
    ensures
        record.deep_view() == record_of(row.deep_view()),
{
    let kept = layout_slots(row);
    let mut record: Row = Vec::with_capacity(kept.len());
    let mut k: usize = 0;
    while k < kept.len()
        invariant
            k <= kept.len(),
            record.len() == k,
            kept.len() == row_slots(row.deep_view()).len(),
            forall|j: int| 0 <= j < kept.len() ==> kept[j] == row_slots(row.deep_view())[j],
            forall|j: int| 0 <= j < kept.len() ==> kept[j] < row.len(),
            forall|j: int|
                0 <= j < k ==> (#[trigger] record[j]).deep_view()
                    == row.deep_view()[kept[j] as int],
        decreases kept.len() - k,
    {
        let c = kept[k];
        record.push((row[c].0.clone(), row[c].1.clone()));
        k += 1;
    }
    record
}

/// Turns rows into records: one mapping from column name to value per row.
pub fn to_records(rows: &Vec<Row>) -> (records: Vec<Row>)
    ensures
        records.deep_view() == records_of(rows.deep_view()),
{
    let mut records: Vec<Row> = Vec::with_capacity(rows.len());
    let mut r: usize = 0;
    while r < rows.len()
        invariant
            r <= rows.len(),
            records.len() == r,
            forall|j: int|
                0 <= j < r ==> (#[trigger] records[j]).deep_view() == record_of(
                    rows[j].deep_view(),
                ),
        decreases rows.len() - r,
    {
        records.push(to_record(&rows[r]));
        r += 1;
    }
    records
}

/// The values of one column position, one per row.
fn collect_column(rows: &Vec<Row>, c: usize) -> (values: Vec<Value>)
    requires
        forall|r: int| 0 <= r < rows.len() ==> c < (#[trigger] rows[r]).len(),
    ensures
        values.deep_view() == column_values(rows.deep_view(), c as int),
{
    let mut values: Vec<Value> = Vec::with_capacity(rows.len());
    let mut r: usize = 0;
    while r < rows.len()
        invariant
            r <= rows.len(),
            values.len() == r,
            forall|r: int| 0 <= r < rows.len() ==> c < (#[trigger] rows[r]).len(),
            forall|j: int| 0 <= j < r ==> (#[trigger] values[j])@ == rows[j][c as int].1@,
        decreases rows.len() - r,
    {
        values.push(rows[r][c].1.clone());
        r += 1;
    }
    values
}

/// Turns rows into columns: a mapping from column name to the column's
/// values, one per row. The layout is that of the first row; a row with other
/// column names, or in another order, is reported.
pub fn to_columns(rows: &Vec<Row>) -> (res: Result<Vec<(String, Vec<Value>)>, TableError>)
    ensures
        reports_layout(rows.deep_view(), res),
        res matches Ok(columns) ==> columns.deep_view() == columns_of(rows.deep_view()),
{
    match check_layout(rows) {
        Err(e) => {
            return Err(e);
        },
        Ok(_) => {},
    }
    let mut columns: Vec<(String, Vec<Value>)> = Vec::new();
    if rows.len() == 0 {
        return Ok(columns);
    }
    let ghost table = rows.deep_view();
    let kept = layout_slots(&rows[0]);
    let mut k: usize = 0;
    while k < kept.len()
        invariant
            k <= kept.len(),
            rows.len() > 0,
            table == rows.deep_view(),
            uniform_layout(table),
            columns.len() == k,
            kept.len() == row_slots(table[0]).len(),
            forall|j: int| 0 <= j < kept.len() ==> kept[j] == row_slots(table[0])[j],
            forall|j: int| 0 <= j < kept.len() ==> kept[j] < rows[0].len(),
            forall|j: int|
                0 <= j < k ==> (#[trigger] columns[j]).deep_view() == (
                    table[0][kept[j] as int].0,
                    column_values(table, kept[j] as int),
                ),
        decreases kept.len() - k,
    {
        let c = kept[k];
        assert forall|r: int| 0 <= r < rows.len() implies c < (#[trigger] rows[r]).len() by {
            assert(matches_first(table, r));
            assert(names(table[r]).len() == names(table[0]).len());
        }
        let values = collect_column(rows, c);
        columns.push((rows[0][c].0.clone(), values));
        k += 1;
    }
    Ok(columns)
}

/// Flattens a tree into records: one mapping from column name to value per
/// row, the tree taken from the empty path.
pub fn normalize(
    obj: &Value,
    separator: &str,
    fallback: &str,
    selection_set: Option<Vec<JsonPath>>,
) -> (records: Vec<Row>)
    ensures
        records.deep_view() == records_of(
            flattened(obj@, Seq::empty(), options(separator@, fallback@, selection_set)),
        ),
{
    let opts = prepare(separator, fallback, selection_set);
    let mut path_stack: JsonPath = Vec::new();
    let mut name_cache = NameCache::new();
    assert(path_stack.deep_view() =~= Seq::<Seq<char>>::empty());
    let rows = normalize_value(obj, &opts, &mut path_stack, &mut name_cache);
    to_records(&rows)
}

/// Flattens a tree into columns: a mapping from column name to the column's
/// values, one per row. Rows that differ in their column names, as an array
/// of unlike elements yields them, are reported.
pub fn normalize_columnar(
    obj: &Value,
    separator: &str,
    fallback: &str,
    selection_set: Option<Vec<JsonPath>>,
) -> (res: Result<Vec<(String, Vec<Value>)>, TableError>)
    ensures
        reports_layout(
            flattened(obj@, Seq::empty(), options(separator@, fallback@, selection_set)),
            res,
        ),
        res matches Ok(columns) ==> columns.deep_view() == columns_of(
            flattened(obj@, Seq::empty(), options(separator@, fallback@, selection_set)),
        ),
{
    let opts = prepare(separator, fallback, selection_set);
    let mut path_stack: JsonPath = Vec::new();
    let mut name_cache = NameCache::new();
    assert(path_stack.deep_view() =~= Seq::<Seq<char>>::empty());
    let rows = normalize_value(obj, &opts, &mut path_stack, &mut name_cache);
    to_columns(&rows)
}

/// Flattens every tree of a batch and merges the rows into columns. The
/// layout is that of the first row of the batch; a tree whose rows have other
/// column names is reported with the index of its first such row among all.
pub fn normalize_columnar_batch(
    objects: &Vec<Value>,
    separator: &str,
    fallback: &str,
    selection_set: Option<Vec<JsonPath>>,
) -> (res: Result<Vec<(String, Vec<Value>)>, TableError>)
    ensures
        reports_layout(
            batch_flattened(
                objects.deep_view(),
                objects.len() as nat,
                options(separator@, fallback@, selection_set),
            ),
            res,
        ),
        res matches Ok(columns) ==> columns.deep_view() == columns_of(
            batch_flattened(
                objects.deep_view(),
                objects.len() as nat,
                options(separator@, fallback@, selection_set),
            ),
        ),
{
    let opts = prepare(separator, fallback, selection_set);
    let rows = normalize_batch(objects, &opts);
    to_columns(&rows)
}

/// Records and columns describe the same table. For rows of one layout, every
/// record has the columns' names in the columns' order, every column has one
/// value per row, and the value of a record under a name is the value of
/// that name's column at the record's row.
pub proof fn lemma_records_match_columns(rows: Seq<RowModel>)
    requires
        uniform_layout(rows),
    ensures
        records_of(rows).len() == rows.len(),
        forall|r: int|
            0 <= r < rows.len() ==> (#[trigger] records_of(rows)[r]).len() == columns_of(
                rows,
            ).len(),
        forall|k: int|
            0 <= k < columns_of(rows).len() ==> (#[trigger] columns_of(rows)[k]).1.len()
                == rows.len(),
        forall|r: int, k: int|
            0 <= r < rows.len() && 0 <= k < columns_of(rows).len() ==> #[trigger] records_of(
                rows,
            )[r][k] == (columns_of(rows)[k].0, (#[trigger] columns_of(rows)[k]).1[r]),
{
    if rows.len() > 0 {
        let kept = row_slots(rows[0]);
        lemma_slots_in_range(names(rows[0]), rows[0].len());
        assert forall|r: int| 0 <= r < rows.len() implies row_slots(rows[r]) == kept
            && rows[r].len() == rows[0].len() by {
            assert(matches_first(rows, r));
            assert(names(rows[r]).len() == names(rows[0]).len());
        }
        assert forall|r: int, k: int|
            0 <= r < rows.len() && 0 <= k < columns_of(rows).len() implies #[trigger] records_of(
            rows,
        )[r][k] == (columns_of(rows)[k].0, (#[trigger] columns_of(rows)[k]).1[r]) by {
            assert(matches_first(rows, r));
            let c = kept[k];
            assert(names(rows[r])[c] == names(rows[0])[c]);
        }
    }
}

/// A record is a mapping: no two of its entries have the same name.
pub proof fn lemma_record_names_distinct(row: RowModel)
    ensures
        forall|j: int, k: int|
            0 <= j < k < record_of(row).len() ==> (#[trigger] record_of(row)[j]).0 != (
            #[trigger] record_of(row)[k]).0,
{
    lemma_slot_names_distinct(names(row), row.len());
    lemma_slots_in_range(names(row), row.len());
    let kept = row_slots(row);
    assert forall|j: int, k: int| 0 <= j < k < record_of(row).len() implies (
    #[trigger] record_of(row)[j]).0 != (#[trigger] record_of(row)[k]).0 by {
        assert(slot_names(names(row), kept)[j] != slot_names(names(row), kept)[k]);
    }
}

/// A record holds, for every column name of its row, the value of the last
/// column of that name.
pub proof fn lemma_record_keeps_last(row: RowModel, c: int)
    requires
        0 <= c < row.len(),
        forall|later: int| c < later < row.len() ==> row[later].0 != row[c].0,
    ensures
        record_of(row).contains(row[c]),
{
    lemma_slots_hold_last(names(row), row.len(), c);
    let kept = row_slots(row);
    let k = choose|k: int| 0 <= k < kept.len() && kept[k] == c;
    assert(record_of(row)[k] == row[c]);
}

/// The kept positions stand for pairwise distinct names.
pub proof fn lemma_slot_names_distinct(names: Seq<Seq<char>>, n: nat)
    requires
        n <= names.len(),
    ensures
        forall|j: int, k: int|
            0 <= j < k < slots(names, n).len() ==> (#[trigger] slot_names(
                names,
                slots(names, n),
            )[j]) != (#[trigger] slot_names(names, slots(names, n))[k]),
    decreases n,
{
    if n > 0 {
        lemma_slot_names_distinct(names, (n - 1) as nat);
        lemma_slots_in_range(names, (n - 1) as nat);
        let before = slots(names, (n - 1) as nat);
        let held = slot_names(names, before);
        let name = names[n - 1];
        held.index_of_first_ensures(name);
        let after = slots(names, n);
        let now = slot_names(names, after);
        assert forall|j: int, k: int| 0 <= j < k < after.len() implies (#[trigger] now[j]) != (
        #[trigger] now[k]) by {
            match held.index_of_first(name) {
                Some(at) => {
                    assert(now[j] == held[j]);
                    assert(now[k] == held[k]);
                },
                None => {
                    if k == before.len() {
                        assert(now[j] == held[j]);
                        assert(held.contains(held[j]));
                    } else {
                        assert(now[j] == held[j]);
                        assert(now[k] == held[k]);
                    }
                },
            }
        }
    }
}

/// The last column of each name among the first `n` is a kept position.
pub proof fn lemma_slots_hold_last(names: Seq<Seq<char>>, n: nat, c: int)
    requires
        n <= names.len(),
        0 <= c < n,
        forall|later: int| c < later < n ==> names[later] != names[c],
    ensures
        exists|k: int| 0 <= k < slots(names, n).len() && slots(names, n)[k] == c,
    decreases n,
{
    let before = slots(names, (n - 1) as nat);
    let held = slot_names(names, before);
    let name = names[n - 1];
    let after = slots(names, n);
    held.index_of_first_ensures(name);
    lemma_slots_in_range(names, (n - 1) as nat);
    if c == n - 1 {
        match held.index_of_first(name) {
            Some(at) => {
                assert(after[at] == c);
            },
            None => {
                assert(after[before.len() as int] == c);
            },
        }
    } else {
        lemma_slots_hold_last(names, (n - 1) as nat, c);
        let k = choose|k: int| 0 <= k < before.len() && before[k] == c;
        match held.index_of_first(name) {
            Some(at) => {
                assert(after[k] == c);
            },
            None => {
                assert(after[k] == c);
            },
        }
    }
}

} // verus!
