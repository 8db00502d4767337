//! Tables in memory: named, typed columns and rows of cells.

use vstd::prelude::*;
use crate::dates::{cast_day, day_cast};
use crate::doubles::{double_of, to_double};
use crate::numbers::{float_finite, float_truncated, whole_part, FloatBits};
use crate::rows::Number;
use crate::text::same_text;

verus! {

/// The type of a column.
#[derive(Debug, PartialEq, Eq)]
pub enum DataType {
    Text,
    Float64,
    Float32,
    Int64,
    Int32,
    Date,
    Boolean,
    /// A type the library only carries along, by its name.
    Other(String),
}

/// What a [`DataType`] says.
pub enum DataTypeView {
    Text,
    Float64,
    Float32,
    Int64,
    Int32,
    Date,
    Boolean,
    Other(Seq<char>),
}

/// One cell of a table.
#[derive(Debug, PartialEq, Eq)]
pub enum Cell {
    Null,
    Text(String),
    /// A value of a floating point column, in double precision.
    Float(FloatBits),
    /// A value of a whole number column.
    Int(i64),
    /// Days since the first of January 1970.
    Date(i32),
    Bool(bool),
    /// A value of a type the library only carries along, by a handle.
    Opaque(u64),
}

/// What a [`Cell`] says.
pub enum CellView {
    Null,
    Text(Seq<char>),
    Float(FloatBits),
    Int(i64),
    Date(i32),
    Bool(bool),
    Opaque(u64),
}

impl View for DataType {
    type V = DataTypeView;

    open spec fn view(&self) -> DataTypeView {
        match self {
            DataType::Text => DataTypeView::Text,
            DataType::Float64 => DataTypeView::Float64,
            DataType::Float32 => DataTypeView::Float32,
            DataType::Int64 => DataTypeView::Int64,
            DataType::Int32 => DataTypeView::Int32,
            DataType::Date => DataTypeView::Date,
            DataType::Boolean => DataTypeView::Boolean,
            DataType::Other(name) => DataTypeView::Other(name@),
        }
    }
}

impl View for Cell {
    type V = CellView;

    open spec fn view(&self) -> CellView {
        match self {
            Cell::Null => CellView::Null,
            Cell::Text(s) => CellView::Text(s@),
            Cell::Float(n) => CellView::Float(*n),
            Cell::Int(i) => CellView::Int(*i),
            Cell::Date(d) => CellView::Date(*d),
            Cell::Bool(b) => CellView::Bool(*b),
            Cell::Opaque(h) => CellView::Opaque(*h),
        }
    }
}

impl Clone for DataType {
    fn clone(&self) -> (r: Self)
        ensures
            r@ == self@,
    {
        match self {
            DataType::Text => DataType::Text,
            DataType::Float64 => DataType::Float64,
            DataType::Float32 => DataType::Float32,
            DataType::Int64 => DataType::Int64,
            DataType::Int32 => DataType::Int32,
            DataType::Date => DataType::Date,
            DataType::Boolean => DataType::Boolean,
            DataType::Other(name) => DataType::Other(name.clone()),
        }
    }
}

impl Clone for Cell {
    fn clone(&self) -> (r: Self)
        ensures
            r@ == self@,
    {
        match self {
            Cell::Null => Cell::Null,
            Cell::Text(s) => Cell::Text(s.clone()),
            Cell::Float(n) => Cell::Float(*n),
            Cell::Int(i) => Cell::Int(*i),
            Cell::Date(d) => Cell::Date(*d),
            Cell::Bool(b) => Cell::Bool(*b),
            Cell::Opaque(h) => Cell::Opaque(*h),
        }
    }
}

/// Whether a cell can stand in a column of a type. Every column takes nulls.
pub open spec fn fits(dtype: DataTypeView, cell: CellView) -> bool {
    match cell {
        CellView::Null => true,
        CellView::Text(_) => dtype is Text,
        CellView::Float(_) => dtype is Float64 || dtype is Float32,
        CellView::Int(i) => dtype is Int64 || (dtype is Int32 && i32::MIN <= i <= i32::MAX),
        CellView::Date(_) => dtype is Date,
        CellView::Bool(_) => dtype is Boolean,
        CellView::Opaque(_) => dtype is Other,
    }
}

impl DataType {
    /// Whether two columns have the same type.
    pub fn same(&self, other: &DataType) -> (r: bool)
        ensures
            r == (self@ == other@),
    {
        match (self, other) {
            (DataType::Text, DataType::Text) => true,
            (DataType::Float64, DataType::Float64) => true,
            (DataType::Float32, DataType::Float32) => true,
            (DataType::Int64, DataType::Int64) => true,
            (DataType::Int32, DataType::Int32) => true,
            (DataType::Date, DataType::Date) => true,
            (DataType::Boolean, DataType::Boolean) => true,
            (DataType::Other(a), DataType::Other(b)) => same_text(a.as_str(), b.as_str()),
            _ => false,
        }
    }
}

impl Cell {
    /// Whether the cell can stand in a column of this type.
    pub fn fits_in(&self, dtype: &DataType) -> (r: bool)
        ensures
            r == fits(dtype@, self@),
    {
        match self {
            Cell::Null => true,
            Cell::Text(_) => matches!(dtype, DataType::Text),
            Cell::Float(_) => matches!(dtype, DataType::Float64 | DataType::Float32),
            Cell::Int(i) => match dtype {
                DataType::Int64 => true,
                DataType::Int32 => -0x8000_0000 <= *i && *i <= 0x7fff_ffff,
                _ => false,
            },
            Cell::Date(_) => matches!(dtype, DataType::Date),
            Cell::Bool(_) => matches!(dtype, DataType::Boolean),
            Cell::Opaque(_) => matches!(dtype, DataType::Other(_)),
        }
    }

    /// Whether the cell holds exactly this text.
    pub fn is_text(&self, text: &str) -> (r: bool)
        ensures
            r == (self@ == CellView::Text(text@)),
    {
        match self {
            Cell::Text(s) => same_text(s.as_str(), text),
            _ => false,
        }
    }
}

/// One column: its name and type.
#[derive(Debug, PartialEq, Eq)]
pub struct Column {
    pub name: String,
    pub dtype: DataType,
}

/// What a [`Column`] says.
pub struct ColumnView {
    pub name: Seq<char>,
    pub dtype: DataTypeView,
}

impl View for Column {
    type V = ColumnView;

    open spec fn view(&self) -> ColumnView {
        ColumnView { name: self.name@, dtype: self.dtype@ }
    }
}

impl Clone for Column {
    fn clone(&self) -> (r: Self)
        ensures
            r@ == self@,
    {
        Column { name: self.name.clone(), dtype: self.dtype.clone() }
    }
}

impl Column {
    /// A column of a name and type.
    pub fn of(name: &str, dtype: DataType) -> (r: Self)
        ensures
            r@ == (ColumnView { name: name@, dtype: dtype@ }),
    {
        Column { name: name.to_owned(), dtype }
    }
}

/// What the columns of a list say.
pub open spec fn column_views(columns: Seq<Column>) -> Seq<ColumnView> {
    Seq::new(columns.len(), |i: int| columns[i]@)
}

/// What the cells of a list say.
pub open spec fn cell_views(cells: Seq<Cell>) -> Seq<CellView> {
    Seq::new(cells.len(), |i: int| cells[i]@)
}

/// What a [`Table`] holds.
#[verifier::ext_equal]
pub struct TableView {
    pub columns: Seq<ColumnView>,
    pub rows: Seq<Seq<CellView>>,
}

/// Whether no two columns share a name.
pub open spec fn names_differ(columns: Seq<ColumnView>) -> bool {
    forall|i: int, j: int|
        0 <= i < j < columns.len() ==> (#[trigger] columns[i]).name != (#[trigger] columns[j]).name
}

/// Whether a row has one cell per column, each of the column's type.
pub open spec fn row_fits(columns: Seq<ColumnView>, row: Seq<CellView>) -> bool {
    &&& row.len() == columns.len()
    &&& forall|c: int| 0 <= c < columns.len() ==> fits(columns[c].dtype, #[trigger] row[c])
}

impl TableView {
    /// Whether the names differ and every row fits the columns.
    pub open spec fn wf(self) -> bool {
        &&& names_differ(self.columns)
        &&& forall|r: int| 0 <= r < self.rows.len() ==> row_fits(self.columns, #[trigger] self.rows[r])
    }

    /// Whether there is a column of this name.
    pub open spec fn has_column(self, name: Seq<char>) -> bool {
        exists|c: int| 0 <= c < self.columns.len() && (#[trigger] self.columns[c]).name == name
    }

    /// Where the column of this name stands.
    pub open spec fn column_of(self, name: Seq<char>) -> int {
        choose|c: int| 0 <= c < self.columns.len() && (#[trigger] self.columns[c]).name == name
    }

    /// The cell of a row in the column of this name.
    pub open spec fn at(self, row: int, name: Seq<char>) -> CellView {
        self.rows[row][self.column_of(name)]
    }

    /// The table with one cell replaced.
    pub open spec fn with_cell(self, row: int, column: int, cell: CellView) -> TableView {
        TableView {
            columns: self.columns,
            rows: self.rows.update(row, self.rows[row].update(column, cell)),
        }
    }

    /// The table with one row replaced.
    pub open spec fn with_row(self, row: int, cells: Seq<CellView>) -> TableView {
        TableView { columns: self.columns, rows: self.rows.update(row, cells) }
    }

    /// The table with one row more at its end.
    pub open spec fn with_new_row(self, cells: Seq<CellView>) -> TableView {
        TableView { columns: self.columns, rows: self.rows.push(cells) }
    }

    /// The table without one row.
    pub open spec fn without_row(self, row: int) -> TableView {
        TableView { columns: self.columns, rows: self.rows.remove(row) }
    }

    /// The table with one column more at its end, the same cell in every row.
    pub open spec fn with_column(self, column: ColumnView, cell: CellView) -> TableView {
        TableView {
            columns: self.columns.push(column),
            rows: self.rows.map_values(|row: Seq<CellView>| row.push(cell)),
        }
    }

    /// The table with one column of another type, each of its cells changed.
    pub open spec fn with_column_as(
        self,
        column: int,
        dtype: DataTypeView,
        change: spec_fn(CellView) -> CellView,
    ) -> TableView {
        TableView {
            columns: self.columns.update(
                column,
                ColumnView { name: self.columns[column].name, dtype },
            ),
            rows: self.rows.map_values(
                |row: Seq<CellView>| row.update(column, change(row[column])),
            ),
        }
    }

    /// The table without one column.
    pub open spec fn without_column(self, column: int) -> TableView {
        TableView {
            columns: self.columns.remove(column),
            rows: self.rows.map_values(|row: Seq<CellView>| row.remove(column)),
        }
    }
}

/// The column of a name is where it was found, since no name occurs twice.
pub proof fn lemma_column_of(table: TableView, c: int)
    requires
        names_differ(table.columns),
        0 <= c < table.columns.len(),
    ensures
        table.has_column(table.columns[c].name),
        table.column_of(table.columns[c].name) == c,
{
    let d = table.column_of(table.columns[c].name);
    assert(table.columns[c].name == table.columns[c].name);
    assert(0 <= d < table.columns.len() && table.columns[d].name == table.columns[c].name);
    if d < c {
        assert(table.columns[d].name != table.columns[c].name);
    } else if c < d {
        assert(table.columns[c].name != table.columns[d].name);
    }
}

/// A table: columns with distinct names, and rows with one fitting cell per
/// column.
#[derive(Debug, PartialEq, Eq)]
pub struct Table {
    columns: Vec<Column>,
    rows: Vec<Vec<Cell>>,
}

impl View for Table {
    type V = TableView;

    closed spec fn view(&self) -> TableView {
        TableView {
            columns: column_views(self.columns@),
            rows: Seq::new(self.rows@.len(), |r: int| cell_views(self.rows@[r]@)),
        }
    }
}

impl Table {
    /// The names differ and the rows fit.
    #[verifier::type_invariant]
    pub open spec fn is_regular(self) -> bool {
        self@.wf()
    }

    /// A table with these columns and no rows, if the names differ.
    pub fn empty(columns: Vec<Column>) -> (r: Option<Table>)
        ensures
            match r {
                Some(table) => table@ == (TableView {
                    columns: column_views(columns@),
                    rows: Seq::empty(),
                }) && names_differ(column_views(columns@)),
                None => !names_differ(column_views(columns@)),
            },
    {
        if !names_are_distinct(&columns) {
            return None;
        }
        Some(Table::with_columns(columns))
    }

    /// A table with these columns and no rows.
    pub fn with_columns(columns: Vec<Column>) -> (r: Table)
        requires
            names_differ(column_views(columns@)),
        ensures
            r@ == (TableView { columns: column_views(columns@), rows: Seq::empty() }),
    {
        let rows: Vec<Vec<Cell>> = Vec::new();
        assert(Seq::new(rows@.len(), |r: int| cell_views(rows@[r]@)) =~= Seq::empty());
        Table { columns, rows }
    }

    /// A table with these columns and rows, if the names differ and every row
    /// fits.
    pub fn of(columns: Vec<Column>, rows: Vec<Vec<Cell>>) -> (r: Option<Table>)
        ensures
            ({
                let view = TableView {
                    columns: column_views(columns@),
                    rows: Seq::new(rows@.len(), |i: int| cell_views(rows@[i]@)),
                };
                match r {
                    Some(table) => table@ == view && view.wf(),
                    None => !view.wf(),
                }
            }),
    {
        let ghost view = TableView {
            columns: column_views(columns@),
            rows: Seq::new(rows@.len(), |i: int| cell_views(rows@[i]@)),
        };
        if !names_are_distinct(&columns) {
            return None;
        }
        let mut i: usize = 0;
        while i < rows.len()
            invariant
                i <= rows.len(),
                view.columns == column_views(columns@),
                view.rows == Seq::new(rows@.len(), |i: int| cell_views(rows@[i]@)),
                forall|k: int| 0 <= k < i ==> row_fits(view.columns, #[trigger] view.rows[k]),
            decreases rows.len() - i,
        {
            if !cells_fit(&columns, &rows[i]) {
                assert(!row_fits(view.columns, view.rows[i as int]));
                return None;
            }
            i = i + 1;
        }
        Some(Table { columns, rows })
    }

    /// The number of columns.
    pub fn width(&self) -> (r: usize)
        ensures
            r == self@.columns.len(),
    {
        self.columns.len()
    }

    /// The number of rows.
    pub fn height(&self) -> (r: usize)
        ensures
            r == self@.rows.len(),
    {
        self.rows.len()
    }

    /// The column at a position.
    pub fn column_at(&self, column: usize) -> (r: &Column)
        requires
            column < self@.columns.len(),
        ensures
            r@ == self@.columns[column as int],
    {
        &self.columns[column]
    }

    /// The cell at a row and column.
    pub fn cell_at(&self, row: usize, column: usize) -> (r: &Cell)
        requires
            row < self@.rows.len(),
            column < self@.columns.len(),
        ensures
            r@ == self@.rows[row as int][column as int],
            fits(self@.columns[column as int].dtype, r@),
    {
        proof {
            use_type_invariant(self);
            assert(row_fits(self@.columns, self@.rows[row as int]));
        }
        &self.rows[row][column]
    }

    /// Where the column of a name stands.
    pub fn find_column(&self, name: &str) -> (r: Option<usize>)
        ensures
            match r {
                Some(c) => c < self@.columns.len() && self@.columns[c as int].name == name@
                    && self@.has_column(name@) && self@.column_of(name@) == c,
                None => !self@.has_column(name@),
            },
    {
        proof {
            use_type_invariant(self);
        }
        let mut c: usize = 0;
        while c < self.columns.len()
            invariant
                c <= self.columns.len(),
                self@.wf(),
                forall|k: int| 0 <= k < c ==> (#[trigger] self@.columns[k]).name != name@,
            decreases self.columns.len() - c,
        {
            assert(self@.columns[c as int] == self.columns@[c as int]@);
            if same_text(self.columns[c].name.as_str(), name) {
                proof {
                    lemma_column_of(self@, c as int);
                }
                return Some(c);
            }
            c = c + 1;
        }
        None
    }

    /// Whether there is a column of a name.
    pub fn has_column(&self, name: &str) -> (r: bool)
        ensures
            r == self@.has_column(name@),
    {
        self.find_column(name).is_some()
    }

    /// Add a row at the end.
    pub fn push_row(&mut self, cells: Vec<Cell>)
        requires
            row_fits(old(self)@.columns, cell_views(cells@)),
        ensures
            final(self)@ == old(self)@.with_new_row(cell_views(cells@)),
    {
        proof {
            use_type_invariant(&*self);
        }
        let ghost before = self@;
        let ghost added = cell_views(cells@);
        let mut rows: Vec<Vec<Cell>> = Vec::new();
        core::mem::swap(&mut self.rows, &mut rows);
        rows.push(cells);
        proof {
            let view = Seq::new(rows@.len(), |r: int| cell_views(rows@[r]@));
            assert(view =~= before.rows.push(added));
            assert forall|r: int| 0 <= r < view.len() implies row_fits(
                before.columns,
                #[trigger] view[r],
            ) by {
                if r < before.rows.len() {
                    assert(view[r] == before.rows[r]);
                }
            }
        }
        self.rows = rows;
    }

    /// Replace a row.
    pub fn set_row(&mut self, row: usize, cells: Vec<Cell>)
        requires
            row < old(self)@.rows.len(),
            row_fits(old(self)@.columns, cell_views(cells@)),
        ensures
            final(self)@ == old(self)@.with_row(row as int, cell_views(cells@)),
    {
        proof {
            use_type_invariant(&*self);
        }
        let ghost before = self@;
        let ghost put = cell_views(cells@);
        let mut rows: Vec<Vec<Cell>> = Vec::new();
        core::mem::swap(&mut self.rows, &mut rows);
        rows.set(row, cells);
        proof {
            let view = Seq::new(rows@.len(), |r: int| cell_views(rows@[r]@));
            assert(view =~= before.rows.update(row as int, put));
            assert forall|r: int| 0 <= r < view.len() implies row_fits(
                before.columns,
                #[trigger] view[r],
            ) by {
                if r != row {
                    assert(view[r] == before.rows[r]);
                }
            }
        }
        self.rows = rows;
    }

    /// Remove a row.
    pub fn remove_row(&mut self, row: usize)
        requires
            row < old(self)@.rows.len(),
        ensures
            final(self)@ == old(self)@.without_row(row as int),
    {
        proof {
            use_type_invariant(&*self);
        }
        let ghost before = self@;
        let mut rows: Vec<Vec<Cell>> = Vec::new();
        core::mem::swap(&mut self.rows, &mut rows);
        rows.remove(row);
        proof {
            let view = Seq::new(rows@.len(), |r: int| cell_views(rows@[r]@));
            assert(view =~= before.rows.remove(row as int));
            assert forall|r: int| 0 <= r < view.len() implies row_fits(
                before.columns,
                #[trigger] view[r],
            ) by {
                if r < row {
                    assert(view[r] == before.rows[r]);
                } else {
                    assert(view[r] == before.rows[r + 1]);
                }
            }
        }
        self.rows = rows;
    }

    /// Replace a cell.
    pub fn set_cell(&mut self, row: usize, column: usize, cell: Cell)
        requires
            row < old(self)@.rows.len(),
            column < old(self)@.columns.len(),
            fits(old(self)@.columns[column as int].dtype, cell@),
        ensures
            final(self)@ == old(self)@.with_cell(row as int, column as int, cell@),
    {
        proof {
            use_type_invariant(&*self);
            assert(row_fits(self@.columns, self@.rows[row as int]));
        }
        let ghost before = self@;
        let ghost put = cell@;
        let mut cells: Vec<Cell> = clone_cells(&self.rows[row]);
        cells.set(column, cell);
        assert(cell_views(cells@) =~= before.rows[row as int].update(column as int, put));
        self.set_row(row, cells);
    }

    /// Add a column at the end, with the same cell in every row.
    pub fn add_column(&mut self, column: Column, cell: Cell)
        requires
            !old(self)@.has_column(column@.name),
            fits(column@.dtype, cell@),
        ensures
            final(self)@ == old(self)@.with_column(column@, cell@),
    {
        proof {
            use_type_invariant(&*self);
        }
        let ghost before = self@;
        let ghost added = column@;
        let ghost put = cell@;
        let mut columns: Vec<Column> = clone_columns(&self.columns);
        columns.push(column);
        let mut rows: Vec<Vec<Cell>> = Vec::new();
        let mut i: usize = 0;
        while i < self.rows.len()
            invariant
                i <= self.rows.len(),
                before == self@,
                put == cell@,
                rows@.len() == i,
                forall|k: int|
                    0 <= k < i ==> cell_views((#[trigger] rows@[k])@) == before.rows[k].push(put),
            decreases self.rows.len() - i,
        {
            let mut cells = clone_cells(&self.rows[i]);
            let ghost copied = cell_views(cells@);
            cells.push(cell.clone());
            assert(cell_views(cells@) =~= copied.push(put));
            rows.push(cells);
            i = i + 1;
        }
        let ghost after = before.with_column(added, put);
        proof {
            assert(column_views(columns@) =~= after.columns);
            assert(Seq::new(rows@.len(), |r: int| cell_views(rows@[r]@)) =~= after.rows);
            assert forall|a: int, b: int| 0 <= a < b < after.columns.len() implies (
            #[trigger] after.columns[a]).name != (#[trigger] after.columns[b]).name by {
                if b == before.columns.len() {
                    assert(after.columns[a] == before.columns[a]);
                } else {
                    assert(after.columns[a] == before.columns[a]);
                    assert(after.columns[b] == before.columns[b]);
                }
            }
            assert forall|r: int| 0 <= r < after.rows.len() implies row_fits(
                after.columns,
                #[trigger] after.rows[r],
            ) by {
                assert(row_fits(before.columns, before.rows[r]));
            }
        }
        *self = Table { columns, rows };
    }

    /// Turn a column into dates: a number or a truth value is a day count, and a text
    /// is read. What gives no day leaves the cell empty.
    pub fn cast_to_dates(&mut self, column: usize)
        requires
            column < old(self)@.columns.len(),
        ensures
            final(self)@ == old(self)@.with_column_as(
                column as int,
                DataTypeView::Date,
                |cell: CellView| cast_cell(cell),
            ),
    {
        proof {
            use_type_invariant(&*self);
        }
        let ghost before = self@;
        let ghost after = before.with_column_as(
            column as int,
            DataTypeView::Date,
            |cell: CellView| cast_cell(cell),
        );
        let mut columns: Vec<Column> = clone_columns(&self.columns);
        let name = self.columns[column].name.clone();
        columns.set(column, Column { name, dtype: DataType::Date });
        let mut rows: Vec<Vec<Cell>> = Vec::new();
        let mut i: usize = 0;
        while i < self.rows.len()
            invariant
                i <= self.rows.len(),
                before == self@,
                before.wf(),
                column < before.columns.len(),
                after == before.with_column_as(
                    column as int,
                    DataTypeView::Date,
                    |cell: CellView| cast_cell(cell),
                ),
                rows@.len() == i,
                forall|k: int|
                    0 <= k < i ==> cell_views((#[trigger] rows@[k])@) == after.rows[k],
            decreases self.rows.len() - i,
        {
            assert(row_fits(before.columns, before.rows[i as int]));
            let mut cells = clone_cells(&self.rows[i]);
            let ghost copied = cell_views(cells@);
            assert(copied == before.rows[i as int]);
            let day = match &cells[column] {
                Cell::Int(n) => if -0x8000_0000 <= *n && *n <= 0x7fff_ffff {
                    Cell::Date(*n as i32)
                } else {
                    Cell::Null
                },
                Cell::Float(bits) => match whole_part(*bits) {
                    Some(days) => Cell::Date(days),
                    None => Cell::Null,
                },
                Cell::Text(text) => match cast_day(text.as_str()) {
                    Some(days) => Cell::Date(days),
                    None => Cell::Null,
                },
                Cell::Bool(flag) => Cell::Date(
                    if *flag {
                        1
                    } else {
                        0
                    },
                ),
                Cell::Date(days) => Cell::Date(*days),
                _ => Cell::Null,
            };
            assert(day@ == cast_cell(copied[column as int]));
            cells.set(column, day);
            assert(cell_views(cells@) =~= after.rows[i as int]);
            rows.push(cells);
            i = i + 1;
        }
        proof {
            assert(column_views(columns@) =~= after.columns);
            assert(Seq::new(rows@.len(), |r: int| cell_views(rows@[r]@)) =~= after.rows);
            assert forall|a: int, b: int| 0 <= a < b < after.columns.len() implies (
            #[trigger] after.columns[a]).name != (#[trigger] after.columns[b]).name by {
                assert(after.columns[a].name == before.columns[a].name);
                assert(after.columns[b].name == before.columns[b].name);
            }
            assert forall|r: int| 0 <= r < after.rows.len() implies row_fits(
                after.columns,
                #[trigger] after.rows[r],
            ) by {
                assert(row_fits(before.columns, before.rows[r]));
                assert forall|c: int| 0 <= c < after.columns.len() implies fits(
                    after.columns[c].dtype,
                    #[trigger] after.rows[r][c],
                ) by {
                    if c != column {
                        assert(after.rows[r][c] == before.rows[r][c]);
                    }
                }
            }
        }
        *self = Table { columns, rows };
    }

    /// Turn a column of numbers into one of double precision numbers. A whole number
    /// becomes the nearest of these.
    pub fn cast_to_doubles(&mut self, column: usize)
        requires
            column < old(self)@.columns.len(),
            is_number(old(self)@.columns[column as int].dtype),
        ensures
            final(self)@ == old(self)@.with_column_as(
                column as int,
                DataTypeView::Float64,
                |cell: CellView| double_cell(cell),
            ),
    {
        proof {
            use_type_invariant(&*self);
        }
        let ghost before = self@;
        let ghost after = before.with_column_as(
            column as int,
            DataTypeView::Float64,
            |cell: CellView| double_cell(cell),
        );
        let mut columns: Vec<Column> = clone_columns(&self.columns);
        let name = self.columns[column].name.clone();
        columns.set(column, Column { name, dtype: DataType::Float64 });
        let mut rows: Vec<Vec<Cell>> = Vec::new();
        let mut i: usize = 0;
        while i < self.rows.len()
            invariant
                i <= self.rows.len(),
                before == self@,
                before.wf(),
                column < before.columns.len(),
                is_number(before.columns[column as int].dtype),
                after == before.with_column_as(
                    column as int,
                    DataTypeView::Float64,
                    |cell: CellView| double_cell(cell),
                ),
                rows@.len() == i,
                forall|k: int|
                    0 <= k < i ==> cell_views((#[trigger] rows@[k])@) == after.rows[k],
            decreases self.rows.len() - i,
        {
            assert(row_fits(before.columns, before.rows[i as int]));
            let mut cells = clone_cells(&self.rows[i]);
            let ghost copied = cell_views(cells@);
            assert(copied == before.rows[i as int]);
            if let Cell::Int(n) = &cells[column] {
                let double = Cell::Float(to_double(Number::Int(*n)));
                cells.set(column, double);
            }
            assert(cell_views(cells@) =~= after.rows[i as int]);
            rows.push(cells);
            i = i + 1;
        }
        proof {
            assert(column_views(columns@) =~= after.columns);
            assert(Seq::new(rows@.len(), |r: int| cell_views(rows@[r]@)) =~= after.rows);
            assert forall|a: int, b: int| 0 <= a < b < after.columns.len() implies (
            #[trigger] after.columns[a]).name != (#[trigger] after.columns[b]).name by {
                assert(after.columns[a].name == before.columns[a].name);
                assert(after.columns[b].name == before.columns[b].name);
            }
            assert forall|r: int| 0 <= r < after.rows.len() implies row_fits(
                after.columns,
                #[trigger] after.rows[r],
            ) by {
                assert(row_fits(before.columns, before.rows[r]));
                assert forall|c: int| 0 <= c < after.columns.len() implies fits(
                    after.columns[c].dtype,
                    #[trigger] after.rows[r][c],
                ) by {
                    assert(fits(before.columns[c].dtype, before.rows[r][c]));
                    if c != column {
                        assert(after.rows[r][c] == before.rows[r][c]);
                    }
                }
            }
        }
        *self = Table { columns, rows };
    }

    /// Remove a column.
    pub fn drop_column(&mut self, column: usize)
        requires
            column < old(self)@.columns.len(),
        ensures
            final(self)@ == old(self)@.without_column(column as int),
    {
        proof {
            use_type_invariant(&*self);
        }
        let ghost before = self@;
        let mut columns: Vec<Column> = clone_columns(&self.columns);
        columns.remove(column);
        let mut rows: Vec<Vec<Cell>> = Vec::new();
        let mut i: usize = 0;
        while i < self.rows.len()
            invariant
                i <= self.rows.len(),
                before == self@,
                before.wf(),
                column < before.columns.len(),
                rows@.len() == i,
                forall|k: int|
                    0 <= k < i ==> cell_views((#[trigger] rows@[k])@) == before.rows[k].remove(
                        column as int,
                    ),
            decreases self.rows.len() - i,
        {
            assert(row_fits(before.columns, before.rows[i as int]));
            let mut cells = clone_cells(&self.rows[i]);
            let ghost copied = cell_views(cells@);
            assert(copied == before.rows[i as int]);
            cells.remove(column);
            assert(cell_views(cells@) =~= copied.remove(column as int));
            rows.push(cells);
            i = i + 1;
        }
        let ghost after = before.without_column(column as int);
        proof {
            assert(column_views(columns@) =~= after.columns);
            assert(Seq::new(rows@.len(), |r: int| cell_views(rows@[r]@)) =~= after.rows);
            assert forall|a: int, b: int| 0 <= a < b < after.columns.len() implies (
            #[trigger] after.columns[a]).name != (#[trigger] after.columns[b]).name by {
                let x = if a < column {
                    a
                } else {
                    a + 1
                };
                let y = if b < column {
                    b
                } else {
                    b + 1
                };
                assert(after.columns[a] == before.columns[x]);
                assert(after.columns[b] == before.columns[y]);
            }
            assert forall|r: int| 0 <= r < after.rows.len() implies row_fits(
                after.columns,
                #[trigger] after.rows[r],
            ) by {
                assert(row_fits(before.columns, before.rows[r]));
                assert forall|c: int| 0 <= c < after.columns.len() implies fits(
                    after.columns[c].dtype,
                    #[trigger] after.rows[r][c],
                ) by {
                    let x = if c < column {
                        c
                    } else {
                        c + 1
                    };
                    assert(after.rows[r][c] == before.rows[r][x]);
                    assert(after.columns[c] == before.columns[x]);
                }
            }
        }
        *self = Table { columns, rows };
    }

    /// Keep the rows that are flagged, in their order.
    pub fn keep_rows(&mut self, keep: &Vec<bool>)
        requires
            keep@.len() == old(self)@.rows.len(),
        ensures
            final(self)@ == (TableView {
                columns: old(self)@.columns,
                rows: kept(old(self)@.rows, keep@, keep@.len() as int),
            }),
    {
        proof {
            use_type_invariant(&*self);
        }
        let ghost before = self@;
        let columns: Vec<Column> = clone_columns(&self.columns);
        let mut rows: Vec<Vec<Cell>> = Vec::new();
        let mut i: usize = 0;
        assert(Seq::new(rows@.len(), |r: int| cell_views(rows@[r]@)) =~= Seq::empty());
        while i < self.rows.len()
            invariant
                i <= self.rows.len(),
                before == self@,
                before.wf(),
                keep@.len() == before.rows.len(),
                Seq::new(rows@.len(), |r: int| cell_views(rows@[r]@)) == kept(
                    before.rows,
                    keep@,
                    i as int,
                ),
                forall|k: int|
                    0 <= k < rows@.len() ==> row_fits(
                        before.columns,
                        cell_views((#[trigger] rows@[k])@),
                    ),
            decreases self.rows.len() - i,
        {
            if keep[i] {
                let ghost earlier = Seq::new(rows@.len(), |r: int| cell_views(rows@[r]@));
                assert(row_fits(before.columns, before.rows[i as int]));
                rows.push(clone_cells(&self.rows[i]));
                assert(Seq::new(rows@.len(), |r: int| cell_views(rows@[r]@)) =~= earlier.push(
                    before.rows[i as int],
                ));
            }
            i = i + 1;
        }
        *self = Table { columns, rows };
    }

    /// The positions of the rows whose cell in a column holds exactly a text.
    pub fn rows_with_text(&self, column: usize, text: &str) -> (r: Vec<usize>)
        requires
            column < self@.columns.len(),
        ensures
            r@.map_values(|i: usize| i as int) == matching_rows(
                self@.rows,
                column as int,
                text@,
                self@.rows.len() as int,
            ),
    {
        let mut found: Vec<usize> = Vec::new();
        let mut i: usize = 0;
        assert(found@.map_values(|i: usize| i as int) =~= Seq::<int>::empty());
        while i < self.rows.len()
            invariant
                i <= self.rows.len(),
                column < self@.columns.len(),
                found@.map_values(|i: usize| i as int) == matching_rows(
                    self@.rows,
                    column as int,
                    text@,
                    i as int,
                ),
            decreases self.rows.len() - i,
        {
            if self.cell_at(i, column).is_text(text) {
                let ghost before = found@.map_values(|i: usize| i as int);
                found.push(i);
                assert(found@.map_values(|i: usize| i as int) =~= before.push(i as int));
            }
            i = i + 1;
        }
        found
    }
}

/// The day that a cell stands for by its count, if it has one that fits.
pub open spec fn counted_day(cell: CellView) -> CellView {
    match cell {
        CellView::Int(n) => if i32::MIN <= n <= i32::MAX {
            CellView::Date(n as i32)
        } else {
            CellView::Null
        },
        CellView::Date(days) => CellView::Date(days),
        _ => CellView::Null,
    }
}

/// The day that a cell is cast to: a number counts days, without what is behind its
/// point, a truth value counts one or none, and a text is read. A cell that gives none
/// is empty.
pub open spec fn cast_cell(cell: CellView) -> CellView {
    match cell {
        CellView::Float(bits) => if float_finite(bits) && i32::MIN <= float_truncated(bits)
            <= i32::MAX {
            CellView::Date(float_truncated(bits) as i32)
        } else {
            CellView::Null
        },
        CellView::Text(text) => match day_cast(text) {
            Some(days) => CellView::Date(days),
            None => CellView::Null,
        },
        CellView::Bool(flag) => CellView::Date(
            if flag {
                1
            } else {
                0
            },
        ),
        _ => counted_day(cell),
    }
}

/// Whether a column of a type holds numbers.
pub open spec fn is_number(dtype: DataTypeView) -> bool {
    dtype is Float64 || dtype is Float32 || dtype is Int64 || dtype is Int32
}

/// A cell of a column of numbers in double precision.
pub open spec fn double_cell(cell: CellView) -> CellView {
    match cell {
        CellView::Int(n) => CellView::Float(double_of(Number::Int(n))),
        _ => cell,
    }
}

/// Those of the first `n` rows that are flagged.
pub open spec fn kept(rows: Seq<Seq<CellView>>, keep: Seq<bool>, n: int) -> Seq<Seq<CellView>>
    decreases n,
{
    if n <= 0 {
        Seq::empty()
    } else {
        let rest = kept(rows, keep, n - 1);
        if keep[n - 1] {
            rest.push(rows[n - 1])
        } else {
            rest
        }
    }
}

/// The positions, among the first `n` rows, whose cell in a column holds
/// exactly a text.
pub open spec fn matching_rows(
    rows: Seq<Seq<CellView>>,
    column: int,
    text: Seq<char>,
    n: int,
) -> Seq<int>
    decreases n,
{
    if n <= 0 {
        Seq::empty()
    } else {
        let rest = matching_rows(rows, column, text, n - 1);
        if rows[n - 1][column] == CellView::Text(text) {
            rest.push(n - 1)
        } else {
            rest
        }
    }
}

fn clone_columns(columns: &Vec<Column>) -> (r: Vec<Column>)
    ensures
        column_views(r@) == column_views(columns@),
{
    let mut copied: Vec<Column> = Vec::new();
    let mut c: usize = 0;
    while c < columns.len()
        invariant
            c <= columns.len(),
            copied@.len() == c,
            forall|k: int| 0 <= k < c ==> (#[trigger] copied@[k])@ == columns@[k]@,
        decreases columns.len() - c,
    {
        copied.push(columns[c].clone());
        c = c + 1;
    }
    assert(column_views(copied@) =~= column_views(columns@));
    copied
}

/// Keeping as many rows as there are is keeping them all.
pub proof fn lemma_kept(rows: Seq<Seq<CellView>>, keep: Seq<bool>, n: int)
    requires
        0 <= n <= rows.len(),
    ensures
        kept(rows, keep, n).len() <= n,
        kept(rows, keep, n).len() == n <==> forall|i: int| 0 <= i < n ==> #[trigger] keep[i],
        kept(rows, keep, n).len() == n ==> kept(rows, keep, n) == rows.take(n),
    decreases n,
{
    if n > 0 {
        lemma_kept(rows, keep, n - 1);
        assert(rows.take(n) =~= rows.take(n - 1).push(rows[n - 1]));
        if kept(rows, keep, n).len() == n {
            assert(keep[n - 1]);
        }
    } else {
        assert(rows.take(0) =~= Seq::empty());
    }
}

/// A second list of the same cells.
pub fn clone_cells(cells: &Vec<Cell>) -> (r: Vec<Cell>)
    ensures
        cell_views(r@) == cell_views(cells@),
{
    let mut copied: Vec<Cell> = Vec::new();
    let mut i: usize = 0;
    while i < cells.len()
        invariant
            i <= cells.len(),
            copied@.len() == i,
            forall|k: int| 0 <= k < i ==> (#[trigger] copied@[k])@ == cells@[k]@,
        decreases cells.len() - i,
    {
        copied.push(cells[i].clone());
        i = i + 1;
    }
    assert(cell_views(copied@) =~= cell_views(cells@));
    copied
}

fn names_are_distinct(columns: &Vec<Column>) -> (r: bool)
    ensures
        r == names_differ(column_views(columns@)),
{
    let ghost all = column_views(columns@);
    let mut i: usize = 0;
    while i < columns.len()
        invariant
            i <= columns.len(),
            all == column_views(columns@),
            forall|a: int, b: int|
                0 <= a < b < i ==> (#[trigger] all[a]).name != (#[trigger] all[b]).name,
        decreases columns.len() - i,
    {
        let mut j: usize = 0;
        while j < i
            invariant
                j <= i < columns.len(),
                all == column_views(columns@),
                forall|a: int| 0 <= a < j ==> (#[trigger] all[a]).name != all[i as int].name,
            decreases i - j,
        {
            assert(all[j as int] == columns@[j as int]@ && all[i as int] == columns@[i as int]@);
            if same_text(columns[j].name.as_str(), columns[i].name.as_str()) {
                return false;
            }
            j = j + 1;
        }
        i = i + 1;
    }
    true
}

/// Whether a row has one cell per column, each of the column's type.
pub fn cells_fit(columns: &Vec<Column>, cells: &Vec<Cell>) -> (r: bool)
    ensures
        r == row_fits(column_views(columns@), cell_views(cells@)),
{
    let ghost all = column_views(columns@);
    let ghost row = cell_views(cells@);
    if columns.len() != cells.len() {
        return false;
    }
    let mut c: usize = 0;
    while c < columns.len()
        invariant
            c <= columns.len(),
            columns.len() == cells.len(),
            all == column_views(columns@),
            row == cell_views(cells@),
            forall|k: int| 0 <= k < c ==> fits(all[k].dtype, #[trigger] row[k]),
        decreases columns.len() - c,
    {
        if !cells[c].fits_in(&columns[c].dtype) {
            assert(!fits(all[c as int].dtype, row[c as int]));
            return false;
        }
        c = c + 1;
    }
    true
}

impl Clone for Table {
    fn clone(&self) -> (r: Self)
        ensures
            r@ == self@,
    {
        proof {
            use_type_invariant(self);
        }
        let columns: Vec<Column> = clone_columns(&self.columns);
        let mut rows: Vec<Vec<Cell>> = Vec::new();
        let mut i: usize = 0;
        while i < self.rows.len()
            invariant
                i <= self.rows.len(),
                rows@.len() == i,
                forall|k: int|
                    0 <= k < i ==> cell_views((#[trigger] rows@[k])@) == cell_views(
                        self.rows@[k]@,
                    ),
            decreases self.rows.len() - i,
        {
            rows.push(clone_cells(&self.rows[i]));
            i = i + 1;
        }
        proof {
            assert(Seq::new(rows@.len(), |r: int| cell_views(rows@[r]@)) =~= self@.rows);
        }
        Table { columns, rows }
    }
}

} // verus!
