//! Typed columns: the kind that a column's values agree on, and the dense,
//! null-aware buffer of that kind.

use crate::columnar::{check_layout, matches_first, names, reports_layout, TableError};
use crate::flatten::{batch_flattened, normalize_batch, options, prepare};
use crate::numeric::{decimal, float_bits_of_int, int_to_float_bits, int_to_text};
use crate::value::{JsonPath, Row, RowModel, Tree, Value};
use vstd::prelude::*;
use vstd::string::*;

verus! {

/// The scalar kind of a typed column.
#[derive(Clone, Copy, Debug, PartialEq, Eq, Structural)]
pub enum ColumnType {
    Bool,
    Int,
    Float,
    Text,
    /// No value of this column is set: the column is all null.
    Null,
    /// A kind that no buffer exists for; such a column is built all null.
    Unknown,
}

/// The kind that a cell counts as when a column's type is detected: none for
/// null, and text for a list or an object as for a string.
pub open spec fn cell_kind(cell: Tree) -> Option<ColumnType> {
    match cell {
        Tree::Null => None,
        Tree::Bool(_) => Some(ColumnType::Bool),
        Tree::Int(_) => Some(ColumnType::Int),
        Tree::Float(_) => Some(ColumnType::Float),
        Tree::Str(_) => Some(ColumnType::Text),
        Tree::List(_) => Some(ColumnType::Text),
        Tree::Object(_) => Some(ColumnType::Text),
    }
}

/// Whether some row holds a cell of this kind in the column.
pub open spec fn observes(rows: Seq<RowModel>, col: int, kind: ColumnType) -> bool {
    exists|r: int| 0 <= r < rows.len() && cell_kind((#[trigger] rows[r])[col].1) == Some(kind)
}

/// The type of a column, from the kinds observed in it: the one kind where
/// there is only one, `Float` for integers and floats together, `Null` where
/// every cell is null, and `Text` for any other mixture.
pub open spec fn detected_type(rows: Seq<RowModel>, col: int) -> ColumnType {
    let b = observes(rows, col, ColumnType::Bool);
    let i = observes(rows, col, ColumnType::Int);
    let f = observes(rows, col, ColumnType::Float);
    let t = observes(rows, col, ColumnType::Text);
    if !b && !i && !f && !t {
        ColumnType::Null
    } else if b && !i && !f && !t {
        ColumnType::Bool
    } else if i && !b && !f && !t {
        ColumnType::Int
    } else if f && !b && !t {
        ColumnType::Float
    } else {
        ColumnType::Text
    }
}

/// Every row has a cell in the column.
pub open spec fn column_in_rows(rows: Seq<RowModel>, col: int) -> bool {
    forall|r: int| 0 <= r < rows.len() ==> 0 <= col < (#[trigger] rows[r]).len()
}

/// What the model of a table says of one cell.
proof fn lemma_cell_model(rows: Vec<Row>, r: int, c: int)
    requires
        0 <= r < rows.len(),
        0 <= c < rows[r].len(),
    ensures
        rows.deep_view().len() == rows.len(),
        rows.deep_view()[r] == rows[r].deep_view(),
        rows.deep_view()[r].len() == rows[r].len(),
        rows.deep_view()[r][c] == (rows[r][c].0@, rows[r][c].1@),
{
}

/// What the model of a table says of its rows' lengths.
proof fn lemma_table_model(rows: Vec<Row>)
    ensures
        rows.deep_view().len() == rows.len(),
        forall|r: int|
            0 <= r < rows.len() ==> (#[trigger] rows.deep_view()[r]).len() == rows[r].len()
                && rows.deep_view()[r] == rows[r].deep_view(),
{
}

/// Detects the type of a column by scanning every row.
pub fn detect_column_type(rows: &Vec<Row>, col_idx: usize) -> (dtype: ColumnType)
    requires
        column_in_rows(rows.deep_view(), col_idx as int),
    ensures
        dtype == detected_type(rows.deep_view(), col_idx as int),
{
    let mut has_bool = false;
    let mut has_int = false;
    let mut has_float = false;
    let mut has_str = false;
    let ghost table = rows.deep_view();
    let ghost col = col_idx as int;
    proof {
        lemma_table_model(*rows);
    }
    let mut r: usize = 0;
    while r < rows.len()
        invariant
            r <= rows.len(),
            table == rows.deep_view(),
            col == col_idx as int,
            column_in_rows(table, col),
            has_bool == observes(table.take(r as int), col, ColumnType::Bool),
            has_int == observes(table.take(r as int), col, ColumnType::Int),
            has_float == observes(table.take(r as int), col, ColumnType::Float),
            has_str == observes(table.take(r as int), col, ColumnType::Text),
        decreases rows.len() - r,
    {
        proof {
            lemma_table_model(*rows);
            lemma_cell_model(*rows, r as int, col);
            let after = table.take(r as int + 1);
            assert(after[r as int] == table[r as int]);
        }
        match &rows[r][col_idx].1 {
            Value::Null => {},
            Value::Bool(_) => {
                has_bool = true;
            },
            Value::Int(_) => {
                has_int = true;
            },
            Value::Float(_) => {
                has_float = true;
            },
            _ => {
                has_str = true;
            },
        }
        r += 1;
    }
    assert(table.take(rows.len() as int) =~= table);
    if !has_bool && !has_int && !has_float && !has_str {
        ColumnType::Null
    } else if has_bool && !has_int && !has_float && !has_str {
        ColumnType::Bool
    } else if has_int && !has_bool && !has_float && !has_str {
        ColumnType::Int
    } else if has_float && !has_bool && !has_str {
        ColumnType::Float
    } else {
        ColumnType::Text
    }
}

/// A cell of a text column, as contracts see it.
pub enum TextModel {
    Text(Seq<char>),
    /// A float still to be rendered, given by its 64 bits.
    Float(u64),
}

/// A cell of a text column.
///
/// Text, or a float that flowed into the column. The float is handed on as
/// its 64 bits: its canonical decimal form is the caller's to render.
#[derive(Debug, PartialEq, Eq)]
pub enum TextCell {
    Text(String),
    Float(u64),
}

impl DeepView for TextCell {
    type V = TextModel;

    open spec fn deep_view(&self) -> TextModel {
        match self {
            TextCell::Text(s) => TextModel::Text(s@),
            TextCell::Float(bits) => TextModel::Float(*bits),
        }
    }
}

/// A typed column as contracts see it: one cell per row, `None` for null.
#[verifier::ext_equal]
pub enum ColumnModel {
    Bool(Seq<Option<bool>>),
    Int(Seq<Option<i64>>),
    Float(Seq<Option<u64>>),
    Text(Seq<Option<TextModel>>),
    Null(nat),
}

/// A dense, null-aware buffer of one scalar kind: one cell per row, `None`
/// for a null cell. A float cell holds the 64 bits of the number. An all-null
/// column holds only its length.
#[derive(Debug, PartialEq, Eq)]
pub enum TypedColumn {
    Bool(Vec<Option<bool>>),
    Int(Vec<Option<i64>>),
    Float(Vec<Option<u64>>),
    Text(Vec<Option<TextCell>>),
    Null(usize),
}

impl View for TypedColumn {
    type V = ColumnModel;

    open spec fn view(&self) -> ColumnModel {
        match self {
            TypedColumn::Bool(cells) => ColumnModel::Bool(cells@),
            TypedColumn::Int(cells) => ColumnModel::Int(cells@),
            TypedColumn::Float(cells) => ColumnModel::Float(cells@),
            TypedColumn::Text(cells) => ColumnModel::Text(cells.deep_view()),
            TypedColumn::Null(len) => ColumnModel::Null(*len as nat),
        }
    }
}

/// The cell of a value in a boolean column: the boolean, else null.
pub open spec fn bool_cell(cell: Tree) -> Option<bool> {
    match cell {
        Tree::Bool(b) => Some(b),
        _ => None,
    }
}

/// The cell of a value in an integer column: the integer, else null.
pub open spec fn int_cell(cell: Tree) -> Option<i64> {
    match cell {
        Tree::Int(i) => Some(i),
        _ => None,
    }
}

/// The cell of a value in a float column: the float, an integer converted to
/// the nearest float, else null.
pub open spec fn float_cell(cell: Tree) -> Option<u64> {
    match cell {
        Tree::Float(bits) => Some(bits),
        Tree::Int(i) => Some(float_bits_of_int(i as int) as u64),
        _ => None,
    }
}

/// The cell of a value in a text column: text as it is, an integer in its
/// decimal form, a boolean as `True` or `False`, a float still to be
/// rendered, and null for null, a list or an object.
pub open spec fn text_cell(cell: Tree) -> Option<TextModel> {
    match cell {
        Tree::Str(s) => Some(TextModel::Text(s)),
        Tree::Int(i) => Some(TextModel::Text(decimal(i as int))),
        Tree::Float(bits) => Some(TextModel::Float(bits)),
        Tree::Bool(b) => Some(
            TextModel::Text(
                if b {
                    "True"@
                } else {
                    "False"@
                },
            ),
        ),
        _ => None,
    }
}

/// The typed buffer of a column: each row's cell, coerced to the given type.
pub open spec fn typed_column(rows: Seq<RowModel>, col: int, dtype: ColumnType) -> ColumnModel {
    match dtype {
        ColumnType::Bool => ColumnModel::Bool(
            Seq::new(rows.len(), |r: int| bool_cell(rows[r][col].1)),
        ),
        ColumnType::Int => ColumnModel::Int(
            Seq::new(rows.len(), |r: int| int_cell(rows[r][col].1)),
        ),
        ColumnType::Float => ColumnModel::Float(
            Seq::new(rows.len(), |r: int| float_cell(rows[r][col].1)),
        ),
        ColumnType::Text => ColumnModel::Text(
            Seq::new(rows.len(), |r: int| text_cell(rows[r][col].1)),
        ),
        ColumnType::Null => ColumnModel::Null(rows.len()),
        ColumnType::Unknown => ColumnModel::Null(rows.len()),
    }
}

fn bool_cells(rows: &Vec<Row>, col_idx: usize) -> (cells: Vec<Option<bool>>)
    requires
        column_in_rows(rows.deep_view(), col_idx as int),
    ensures
        cells@ == Seq::new(
            rows.deep_view().len(),
            |r: int| bool_cell(rows.deep_view()[r][col_idx as int].1),
        ),
{
    let mut cells: Vec<Option<bool>> = Vec::with_capacity(rows.len());
    let ghost table = rows.deep_view();
    let mut r: usize = 0;
    while r < rows.len()
        invariant
            r <= rows.len(),
            table == rows.deep_view(),
            column_in_rows(table, col_idx as int),
            cells.len() == r,
            forall|k: int| 0 <= k < r ==> cells[k] == bool_cell(table[k][col_idx as int].1),
        decreases rows.len() - r,
    {
        proof {
            lemma_table_model(*rows);
            lemma_cell_model(*rows, r as int, col_idx as int);
        }
        let cell = match &rows[r][col_idx].1 {
            Value::Bool(b) => Some(*b),
            _ => None,
        };
        cells.push(cell);
        r += 1;
    }
    proof {
        lemma_table_model(*rows);
    }
    cells
}

fn int_cells(rows: &Vec<Row>, col_idx: usize) -> (cells: Vec<Option<i64>>)
    requires
        column_in_rows(rows.deep_view(), col_idx as int),
    ensures
        cells@ == Seq::new(
            rows.deep_view().len(),
            |r: int| int_cell(rows.deep_view()[r][col_idx as int].1),
        ),
{
    let mut cells: Vec<Option<i64>> = Vec::with_capacity(rows.len());
    let ghost table = rows.deep_view();
    let mut r: usize = 0;
    while r < rows.len()
        invariant
            r <= rows.len(),
            table == rows.deep_view(),
            column_in_rows(table, col_idx as int),
            cells.len() == r,
            forall|k: int| 0 <= k < r ==> cells[k] == int_cell(table[k][col_idx as int].1),
        decreases rows.len() - r,
    {
        proof {
            lemma_table_model(*rows);
            lemma_cell_model(*rows, r as int, col_idx as int);
        }
        let cell = match &rows[r][col_idx].1 {
            Value::Int(i) => Some(*i),
            _ => None,
        };
        cells.push(cell);
        r += 1;
    }
    proof {
        lemma_table_model(*rows);
    }
    cells
}

fn float_cells(rows: &Vec<Row>, col_idx: usize) -> (cells: Vec<Option<u64>>)
    requires
        column_in_rows(rows.deep_view(), col_idx as int),
    ensures
        cells@ == Seq::new(
            rows.deep_view().len(),
            |r: int| float_cell(rows.deep_view()[r][col_idx as int].1),
        ),
{
    let mut cells: Vec<Option<u64>> = Vec::with_capacity(rows.len());
    let ghost table = rows.deep_view();
    let mut r: usize = 0;
    while r < rows.len()
        invariant
            r <= rows.len(),
            table == rows.deep_view(),
            column_in_rows(table, col_idx as int),
            cells.len() == r,
            forall|k: int| 0 <= k < r ==> cells[k] == float_cell(table[k][col_idx as int].1),
        decreases rows.len() - r,
    {
        proof {
            lemma_table_model(*rows);
            lemma_cell_model(*rows, r as int, col_idx as int);
        }
        let cell = match &rows[r][col_idx].1 {
            Value::Float(bits) => Some(*bits),
            Value::Int(i) => Some(int_to_float_bits(*i)),
            _ => None,
        };
        cells.push(cell);
        r += 1;
    }
    proof {
        lemma_table_model(*rows);
    }
    cells
}

fn text_cells(rows: &Vec<Row>, col_idx: usize) -> (cells: Vec<Option<TextCell>>)
    requires
        column_in_rows(rows.deep_view(), col_idx as int),
    ensures
        cells.deep_view() == Seq::new(
            rows.deep_view().len(),
            |r: int| text_cell(rows.deep_view()[r][col_idx as int].1),
        ),
{
    let mut cells: Vec<Option<TextCell>> = Vec::with_capacity(rows.len());
    let ghost table = rows.deep_view();
    let mut r: usize = 0;
    while r < rows.len()
        invariant
            r <= rows.len(),
            table == rows.deep_view(),
            column_in_rows(table, col_idx as int),
            cells.len() == r,
            forall|k: int|
                0 <= k < r ==> (#[trigger] cells[k]).deep_view() == text_cell(
                    table[k][col_idx as int].1,
                ),
        decreases rows.len() - r,
    {
        proof {
            lemma_table_model(*rows);
            lemma_cell_model(*rows, r as int, col_idx as int);
        }
        let cell = match &rows[r][col_idx].1 {
            Value::Str(s) => Some(TextCell::Text(s.clone())),
            Value::Int(i) => Some(TextCell::Text(int_to_text(*i))),
            Value::Float(bits) => Some(TextCell::Float(*bits)),
            Value::Bool(b) => Some(
                TextCell::Text(
                    if *b {
                        String::from_str("True")
                    } else {
                        String::from_str("False")
                    },
                ),
            ),
            _ => None,
        };
        cells.push(cell);
        r += 1;
    }
    proof {
        lemma_table_model(*rows);
    }
    cells
}

/// Builds the typed buffer of a column.
///
/// A cell of the column's kind is kept; a null cell stays null; an integer
/// in a float column becomes the nearest float; in a text column a boolean or
/// a number is rendered as text; any other cell becomes null.
pub fn build_column_array(rows: &Vec<Row>, col_idx: usize, dtype: ColumnType) -> (column:
    TypedColumn)
    requires
        column_in_rows(rows.deep_view(), col_idx as int),
    ensures
        column@ == typed_column(rows.deep_view(), col_idx as int, dtype),
{
    proof {
        lemma_table_model(*rows);
    }
    match dtype {
        ColumnType::Bool => TypedColumn::Bool(bool_cells(rows, col_idx)),
        ColumnType::Int => TypedColumn::Int(int_cells(rows, col_idx)),
        ColumnType::Float => TypedColumn::Float(float_cells(rows, col_idx)),
        ColumnType::Text => TypedColumn::Text(text_cells(rows, col_idx)),
        ColumnType::Null => TypedColumn::Null(rows.len()),
        ColumnType::Unknown => TypedColumn::Null(rows.len()),
    }
}

impl DeepView for ColumnType {
    type V = ColumnType;

    open spec fn deep_view(&self) -> ColumnType {
        *self
    }
}

/// A typed columnar batch as contracts see it.
pub struct BatchModel {
    pub schema: Seq<(Seq<char>, ColumnType)>,
    pub columns: Seq<ColumnModel>,
    pub num_rows: nat,
}

/// A typed columnar batch: the schema, one (name, type) pair per column in
/// discovery order; for each column its typed buffer; and the number of rows,
/// which a batch without columns has too.
#[derive(Debug, PartialEq, Eq)]
pub struct TypedBatch {
    pub schema: Vec<(String, ColumnType)>,
    pub columns: Vec<TypedColumn>,
    pub num_rows: usize,
}

impl View for TypedBatch {
    type V = BatchModel;

    open spec fn view(&self) -> BatchModel {
        BatchModel {
            schema: self.schema.deep_view(),
            columns: Seq::new(self.columns.len() as nat, |c: int| self.columns[c]@),
            num_rows: self.num_rows as nat,
        }
    }
}

/// The typed batch of a row set: no columns for no rows, else one column for
/// each column of the first row, named as there, of the type detected over
/// all rows, with the buffer of that type.
pub open spec fn typed_batch(rows: Seq<RowModel>) -> BatchModel {
    if rows.len() == 0 {
        BatchModel { schema: Seq::empty(), columns: Seq::empty(), num_rows: 0 }
    } else {
        BatchModel {
            num_rows: rows.len(),
            schema: Seq::new(rows[0].len(), |c: int| (rows[0][c].0, detected_type(rows, c))),
            columns: Seq::new(
                rows[0].len(),
                |c: int| typed_column(rows, c, detected_type(rows, c)),
            ),
        }
    }
}

/// Turns rows into a typed columnar batch. The layout is that of the first
/// row; a row with other column names, or in another order, is reported.
pub fn rows_to_record_batch(rows: &Vec<Row>) -> (res: Result<TypedBatch, TableError>)
    ensures
        reports_layout(rows.deep_view(), res),
        res matches Ok(batch) ==> batch@ == typed_batch(rows.deep_view()),
{
    match check_layout(rows) {
        Err(e) => {
            return Err(e);
        },
        Ok(_) => {},
    }
    let mut schema: Vec<(String, ColumnType)> = Vec::new();
    let mut columns: Vec<TypedColumn> = Vec::new();
    if rows.len() == 0 {
        let batch = TypedBatch { schema, columns, num_rows: 0 };
        assert(batch@.schema =~= Seq::empty());
        assert(batch@.columns =~= Seq::empty());
        return Ok(batch);
    }
    let ghost table = rows.deep_view();
    proof {
        lemma_table_model(*rows);
        assert forall|c: int| 0 <= c < table[0].len() implies column_in_rows(table, c) by {
            assert forall|r: int| 0 <= r < table.len() implies 0 <= c < (
            #[trigger] table[r]).len() by {
                assert(matches_first(table, r));
                assert(names(table[r]).len() == names(table[0]).len());
            }
        }
    }
    let num_cols = rows[0].len();
    let mut col_idx: usize = 0;
    while col_idx < num_cols
        invariant
            col_idx <= num_cols,
            rows.len() > 0,
            num_cols == rows[0].len(),
            table == rows.deep_view(),
            table[0].len() == num_cols,
            forall|c: int| 0 <= c < table[0].len() ==> column_in_rows(table, c),
            schema.len() == col_idx,
            columns.len() == col_idx,
            forall|c: int|
                0 <= c < col_idx ==> (#[trigger] schema[c]).deep_view() == (
                    table[0][c].0,
                    detected_type(table, c),
                ),
            forall|c: int|
                0 <= c < col_idx ==> (#[trigger] columns[c])@ == typed_column(
                    table,
                    c,
                    detected_type(table, c),
                ),
        decreases num_cols - col_idx,
    {
        proof {
            lemma_cell_model(*rows, 0, col_idx as int);
        }
        let dtype = detect_column_type(rows, col_idx);
        schema.push((rows[0][col_idx].0.clone(), dtype));
        columns.push(build_column_array(rows, col_idx, dtype));
        col_idx += 1;
    }
    let batch = TypedBatch { schema, columns, num_rows: rows.len() };
    assert(batch@.schema =~= typed_batch(table).schema);
    assert(batch@.columns =~= typed_batch(table).columns);
    Ok(batch)
}

/// Flattens every tree of a batch and turns the rows into a typed columnar
/// batch. A tree whose rows have other column names than the first row of
/// the batch is reported with the index of its first such row among all.
pub fn normalize_arrow_batch(
    objects: &Vec<Value>,
    separator: &str,
    fallback: &str,
    selection_set: Option<Vec<JsonPath>>,
) -> (res: Result<TypedBatch, TableError>)
    ensures
        reports_layout(
            batch_flattened(
                objects.deep_view(),
                objects.len() as nat,
                options(separator@, fallback@, selection_set),
            ),
            res,
        ),
        res matches Ok(batch) ==> batch@ == typed_batch(
            batch_flattened(
                objects.deep_view(),
                objects.len() as nat,
                options(separator@, fallback@, selection_set),
            ),
        ),
{
    let opts = prepare(separator, fallback, selection_set);
    let all_rows = normalize_batch(objects, &opts);
    rows_to_record_batch(&all_rows)
}

/// Whether some row of a row set holds a cell of this kind in the column
/// depends only on which rows the set holds.
proof fn lemma_observes_by_membership(rows: Seq<RowModel>, col: int, kind: ColumnType)
    ensures
        observes(rows, col, kind) <==> exists|row: RowModel|
            #[trigger] rows.contains(row) && cell_kind(row[col].1) == Some(kind),
{
    if observes(rows, col, kind) {
        let r = choose|r: int|
            0 <= r < rows.len() && cell_kind((#[trigger] rows[r])[col].1) == Some(kind);
        assert(rows.contains(rows[r]));
    }
    if exists|row: RowModel| #[trigger] rows.contains(row) && cell_kind(row[col].1) == Some(kind) {
        let row = choose|row: RowModel|
            #[trigger] rows.contains(row) && cell_kind(row[col].1) == Some(kind);
        let r = choose|r: int| 0 <= r < rows.len() && rows[r] == row;
        assert(cell_kind(rows[r][col].1) == Some(kind));
    }
}

/// The detected type of a column does not depend on the order of the rows:
/// two row sets that hold the same rows, each as often, give the same type.
pub proof fn lemma_detected_type_ignores_row_order(
    rows: Seq<RowModel>,
    permuted: Seq<RowModel>,
    col: int,
)
    requires
        rows.to_multiset() == permuted.to_multiset(),
    ensures
        detected_type(rows, col) == detected_type(permuted, col),
{
    rows.to_multiset_ensures();
    permuted.to_multiset_ensures();
    assert forall|row: RowModel| rows.contains(row) <==> permuted.contains(row) by {
        assert(rows.contains(row) <==> rows.to_multiset().count(row) > 0);
        assert(permuted.contains(row) <==> permuted.to_multiset().count(row) > 0);
    }
    assert forall|kind: ColumnType| observes(rows, col, kind) == observes(permuted, col, kind) by {
        lemma_observes_by_membership(rows, col, kind);
        lemma_observes_by_membership(permuted, col, kind);
    }
}

} // verus!
