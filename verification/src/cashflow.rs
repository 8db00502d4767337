//! What comes in each month: the income the user enters, and the row that sums it
//! up.

use vstd::prelude::*;
use crate::changes::{
    change_views, number_cell, number_cell_op, record, typed, Change, ChangeView,
};
use crate::error::{outcome, Error, ErrorView};
use crate::expenses::stored_view;
use crate::facts::{amount_in, cell_amount};
use crate::frames::{
    find_typed, has_typed, lemma_readied, no_column, readied, set_f64_where, set_where,
    table_outcome, target_column_error,
};
use crate::merge_apply::{
    found_rows, income_category, is_income_category, lemma_matching_rows, month_label, month_labels,
    positions,
};
use crate::numbers::FloatBits;
use crate::sync::ChangeTable;
use crate::table::{
    cell_views, column_views, double_cell, lemma_column_of, names_differ, row_fits, Cell, CellView,
    Column, ColumnView, DataType, DataTypeView, Table, TableView,
};
use crate::wide::{heads, label_of, lemma_wide_columns, month_column, text_column, wide_columns};

verus! {

/// The rows of income that the user enters.
pub open spec fn income_rows() -> Seq<Seq<char>> {
    seq!["Salary"@, "Interests Bank account"@, "Dividendi e Cedole"@, "Other"@]
}

/// The rows of a new table. Of the last four only the income is still worked out;
/// the others keep the table like those of older versions.
pub open spec fn cashflow_rows() -> Seq<Seq<char>> {
    income_rows() + seq!["Income"@, "Spending"@, "Saving"@, "Saving %"@]
}

/// The columns of the table: what a row is, and the twelve months.
pub open spec fn cashflow_columns() -> Seq<ColumnView> {
    Seq::new(
        13,
        |c: int|
            if c == 0 {
                text_column("category"@)
            } else {
                ColumnView { name: month_label(c as nat), dtype: DataTypeView::Float64 }
            },
    )
}

/// A row of a new table: zero in every month.
pub open spec fn zero_row(category: Seq<char>) -> Seq<CellView> {
    Seq::new(
        13,
        |c: int|
            if c == 0 {
                CellView::Text(category)
            } else {
                CellView::Float(0)
            },
    )
}

/// A new table: every row zero in every month.
pub open spec fn zero_cashflow() -> TableView {
    TableView {
        columns: cashflow_columns(),
        rows: cashflow_rows().map_values(|category: Seq<char>| zero_row(category)),
    }
}

proof fn lemma_cashflow_columns()
    ensures
        names_differ(cashflow_columns()),
{
    reveal_strlit("category");
    reveal_strlit("row_id");
    let meta = seq!["category"@];
    assert(meta[0].len() == 8);
    assert(heads(meta));
    lemma_wide_columns(meta);
    let wide = wide_columns(meta);
    let columns = cashflow_columns();
    assert forall|i: int, j: int| 0 <= i < j < columns.len() implies (#[trigger] columns[i]).name
        != (#[trigger] columns[j]).name by {
        assert(columns[i].name == wide[i].name);
        assert(columns[j].name == wide[j].name);
    }
}

fn row_labels() -> (r: Vec<&'static str>)
    ensures
        r@.len() == 8,
        forall|i: int| 0 <= i < 8 ==> (#[trigger] r@[i])@ == cashflow_rows()[i],
{
    vec![
        "Salary",
        "Interests Bank account",
        "Dividendi e Cedole",
        "Other",
        "Income",
        "Spending",
        "Saving",
        "Saving %",
    ]
}

fn zero_cells(category: &str) -> (r: Vec<Cell>)
    ensures
        cell_views(r@) == zero_row(category@),
{
    let mut cells: Vec<Cell> = Vec::new();
    cells.push(Cell::Text(category.to_owned()));
    let mut c: usize = 1;
    while c < 13
        invariant
            1 <= c <= 13,
            cells@.len() == c,
            forall|k: int| 0 <= k < c ==> (#[trigger] cells@[k])@ == zero_row(category@)[k],
        decreases 13 - c,
    {
        cells.push(Cell::Float(0));
        c = c + 1;
    }
    assert(cell_views(cells@) =~= zero_row(category@));
    cells
}

fn new_table() -> (r: Table)
    ensures
        r@ == zero_cashflow(),
{
    let mut columns: Vec<Column> = Vec::new();
    columns.push(Column::of("category", DataType::Text));
    let labels = month_labels();
    let mut m: usize = 0;
    while m < labels.len()
        invariant
            m <= labels.len(),
            labels@.len() == 12,
            forall|k: int| 0 <= k < 12 ==> (#[trigger] labels@[k])@ == month_label((k + 1) as nat),
            columns@.len() == m + 1,
            forall|k: int| 0 <= k < m + 1 ==> (#[trigger] columns@[k])@ == cashflow_columns()[k],
        decreases labels.len() - m,
    {
        columns.push(Column::of(labels[m].as_str(), DataType::Float64));
        m = m + 1;
    }
    proof {
        lemma_cashflow_columns();
        assert(column_views(columns@) =~= cashflow_columns());
    }
    let mut table = Table::with_columns(columns);
    let rows = row_labels();
    let mut i: usize = 0;
    while i < rows.len()
        invariant
            i <= rows.len(),
            rows@.len() == 8,
            forall|k: int| 0 <= k < 8 ==> (#[trigger] rows@[k])@ == cashflow_rows()[k],
            table@.columns == cashflow_columns(),
            table@.rows.len() == i,
            forall|k: int|
                0 <= k < i ==> (#[trigger] table@.rows[k]) == zero_row(cashflow_rows()[k]),
        decreases rows.len() - i,
    {
        let cells = zero_cells(rows[i]);
        assert(row_fits(cashflow_columns(), zero_row(rows@[i as int]@)));
        table.push_row(cells);
        i = i + 1;
    }
    assert(table@ =~= zero_cashflow());
    table
}

/// The cashflow of a year, and what to record of the changes to it.
pub struct Cashflow {
    /// The year of the table.
    pub year: i32,
    /// The table, one row per kind of income.
    pub df: Table,
    /// The changes to record, once the table is saved.
    pub changes: Vec<Change>,
}

/// What a [`Cashflow`] holds.
#[verifier::ext_equal]
pub struct CashflowView {
    pub year: i32,
    pub df: TableView,
    pub changes: Seq<ChangeView>,
}

impl View for Cashflow {
    type V = CashflowView;

    open spec fn view(&self) -> CashflowView {
        CashflowView { year: self.year, df: self.df@, changes: change_views(self.changes@) }
    }
}

/// The figure of a row in a column: zero where there is no such row, or no figure.
pub open spec fn figure(df: TableView, category: Seq<char>, column: Seq<char>) -> Result<
    FloatBits,
    ErrorView,
> {
    match found_rows(df, "category"@, category) {
        Err(e) => Err(e),
        Ok(found) => if found.len() == 0 {
            Ok(0)
        } else if !has_typed(df, column, DataTypeView::Float64) {
            Err(target_column_error(column))
        } else {
            Ok(cell_amount(df.rows[found[0]][df.column_of(column)]))
        },
    }
}

/// The figures of the first `n` rows of income in a column.
pub open spec fn figures(df: TableView, column: Seq<char>, n: int) -> Result<Seq<FloatBits>, ErrorView>
    decreases n,
{
    if n <= 0 {
        Ok(Seq::empty())
    } else {
        match figures(df, column, n - 1) {
            Err(e) => Err(e),
            Ok(list) => match figure(df, income_rows()[n - 1], column) {
                Err(e) => Err(e),
                Ok(number) => Ok(list.push(number)),
            },
        }
    }
}

/// A row of income there is not.
pub open spec fn income_error(category: Seq<char>) -> ErrorView {
    ErrorView::InvalidArgument(
        "'"@ + category
            + "' is not a valid income category. Choose from: [\"Salary\", \"Interests Bank account\", \"Dividendi e Cedole\", \"Other\"]"@,
    )
}

/// The table with an income set, and the cell to record.
pub open spec fn income_set(
    cashflow: CashflowView,
    month: u32,
    category: Seq<char>,
    value: FloatBits,
) -> Result<CashflowView, ErrorView> {
    if !income_category(category) {
        Err(income_error(category))
    } else {
        match label_of(month) {
            Err(e) => Err(e),
            Ok(label) => match set_where(
                cashflow.df,
                "category"@,
                category,
                label,
                DataTypeView::Float64,
                CellView::Float(value),
            ) {
                Err(e) => Err(e),
                Ok(df) => Ok(
                    CashflowView {
                        df,
                        changes: cashflow.changes.push(
                            typed(
                                ChangeTable::CashflowIncome { year: cashflow.year },
                                category,
                                number_cell_op(label, value),
                            ),
                        ),
                        ..cashflow
                    },
                ),
            },
        }
    }
}

/// The table with the totals of the first `n` months in the row of the income, or
/// where it stopped.
pub open spec fn totals_set(df: TableView, totals: Seq<FloatBits>, n: int) -> (
    TableView,
    Result<(), ErrorView>,
)
    decreases n,
{
    if n <= 0 {
        (df, Ok(()))
    } else {
        let before = totals_set(df, totals, n - 1);
        if before.1 is Err {
            before
        } else {
            match set_where(
                before.0,
                "category"@,
                "Income"@,
                month_label(n as nat),
                DataTypeView::Float64,
                CellView::Float(totals[n - 1]),
            ) {
                Err(e) => (before.0, Err(e)),
                Ok(df) => (df, Ok(())),
            }
        }
    }
}

proof fn lemma_totals_stop(df: TableView, totals: Seq<FloatBits>, n: int, m: int)
    requires
        n <= m,
        totals_set(df, totals, n).1 is Err,
    ensures
        totals_set(df, totals, m) == totals_set(df, totals, n),
    decreases m - n,
{
    if n < m {
        lemma_totals_stop(df, totals, n, m - 1);
    }
}

impl Cashflow {
    /// The cashflow of a year: what its file holds, or a new table.
    pub fn new(year: i32, stored: Option<Table>) -> (r: Self)
        ensures
            r@ == (CashflowView {
                year,
                df: match stored_view(stored) {
                    Some(df) => df,
                    None => zero_cashflow(),
                },
                changes: Seq::empty(),
            }),
    {
        let changes: Vec<Change> = Vec::new();
        assert(change_views(changes@) =~= Seq::empty());
        let df = match stored {
            Some(df) => df,
            None => new_table(),
        };
        Cashflow { year, df, changes }
    }

    /// Set the income of a kind in a month. The one cell is recorded; the row that
    /// sums the income up is worked out on every device.
    pub fn set_income(&mut self, month: u32, category: &str, value: FloatBits) -> (r: Result<
        (),
        Error,
    >)
        ensures
            match r {
                Ok(()) => income_set(old(self)@, month, category@, value) == Ok::<
                    CashflowView,
                    ErrorView,
                >(final(self)@),
                Err(e) => income_set(old(self)@, month, category@, value) == Err::<
                    CashflowView,
                    ErrorView,
                >(e@) && final(self)@ == old(self)@,
            },
    {
        if !is_income_category(category) {
            return Err(
                Error::InvalidArgument(
                    "'".to_owned().concat(category).concat(
                        "' is not a valid income category. Choose from: [\"Salary\", \"Interests Bank account\", \"Dividendi e Cedole\", \"Other\"]",
                    ),
                ),
            );
        }
        let label = match month_column(month) {
            Ok(label) => label,
            Err(e) => return Err(e),
        };
        match self.set_value(category, label.as_str(), value) {
            Ok(()) => {},
            Err(e) => return Err(e),
        }
        let op = number_cell(label.as_str(), value);
        record(
            &mut self.changes,
            ChangeTable::CashflowIncome { year: self.year },
            category,
            op,
        );
        Ok(())
    }

    /// The figures of income of a month, in the order of their rows: what its row
    /// of income is the sum of.
    pub fn income_terms(&self, col_name: &str) -> (r: Result<Vec<FloatBits>, Error>)
        ensures
            match r {
                Ok(list) => figures(self@.df, col_name@, 4) == Ok::<Seq<FloatBits>, ErrorView>(list@),
                Err(e) => figures(self@.df, col_name@, 4) == Err::<Seq<FloatBits>, ErrorView>(e@),
            },
    {
        let rows = row_labels();
        let mut list: Vec<FloatBits> = Vec::new();
        let mut i: usize = 0;
        while i < 4
            invariant
                i <= 4,
                rows@.len() == 8,
                forall|k: int| 0 <= k < 8 ==> (#[trigger] rows@[k])@ == cashflow_rows()[k],
                figures(self@.df, col_name@, i as int) == Ok::<Seq<FloatBits>, ErrorView>(list@),
            decreases 4 - i,
        {
            assert(rows@[i as int]@ == income_rows()[i as int]);
            match self.get_value(rows[i], col_name) {
                Ok(number) => {
                    list.push(number);
                },
                Err(e) => {
                    proof {
                        lemma_figures_stop(self@.df, col_name@, i + 1, 4);
                    }
                    return Err(e);
                },
            }
            i = i + 1;
        }
        Ok(list)
    }

    /// Put the totals of the twelve months into the row of the income. Nothing else
    /// of the table changes.
    pub fn recompute_income(&mut self, totals: &Vec<FloatBits>) -> (r: Result<(), Error>)
        requires
            totals@.len() == 12,
        ensures
            final(self)@ == (CashflowView {
                df: totals_set(old(self)@.df, totals@, 12).0,
                ..old(self)@
            }),
            outcome(r) == totals_set(old(self)@.df, totals@, 12).1,
    {
        let labels = month_labels();
        let mut m: usize = 0;
        while m < 12
            invariant
                m <= 12,
                totals@.len() == 12,
                labels@.len() == 12,
                forall|k: int|
                    0 <= k < 12 ==> (#[trigger] labels@[k])@ == month_label((k + 1) as nat),
                self@ == (CashflowView { df: self@.df, ..old(self)@ }),
                totals_set(old(self)@.df, totals@, m as int) == (
                    self@.df,
                    Ok::<(), ErrorView>(()),
                ),
            decreases 12 - m,
        {
            match self.set_value("Income", labels[m].as_str(), totals[m]) {
                Ok(()) => {},
                Err(e) => {
                    proof {
                        lemma_totals_stop(old(self)@.df, totals@, m + 1, 12);
                    }
                    return Err(e);
                },
            }
            m = m + 1;
        }
        Ok(())
    }

    /// The figure of a row in a column, zero where the row is absent.
    pub fn get_value(&self, category: &str, col_name: &str) -> (r: Result<FloatBits, Error>)
        ensures
            outcome(r) == figure(self@.df, category@, col_name@),
    {
        let found = match positions(&self.df, "category", category) {
            Ok(found) => found,
            Err(e) => return Err(e),
        };
        let ghost places = found@.map_values(|i: usize| i as int);
        if found.len() == 0 {
            return Ok(0);
        }
        proof {
            lemma_matching_rows(
                self.df@.rows,
                self.df@.column_of("category"@),
                category@,
                self.df@.rows.len() as int,
            );
            assert(places[0] == found@[0] as int);
        }
        match find_typed(&self.df, col_name, &DataType::Float64) {
            Some(c) => Ok(amount_in(self.df.cell_at(found[0], c))),
            None => Err(no_column(col_name)),
        }
    }

    /// Set the figure of a row in a column. A row that is absent stays absent.
    pub fn set_value(&mut self, category: &str, col_name: &str, value: FloatBits) -> (r: Result<
        (),
        Error,
    >)
        ensures
            final(self)@ == (CashflowView { df: final(self)@.df, ..old(self)@ }),
            table_outcome(
                set_where(
                    old(self)@.df,
                    "category"@,
                    category@,
                    col_name@,
                    DataTypeView::Float64,
                    CellView::Float(value),
                ),
                old(self)@.df,
                final(self)@.df,
                r,
            ),
    {
        set_f64_where(&mut self.df, "category", category, col_name, value)
    }
}

proof fn lemma_figures_stop(df: TableView, column: Seq<char>, n: int, m: int)
    requires
        n <= m,
        figures(df, column, n) is Err,
    ensures
        figures(df, column, m) == figures(df, column, n),
    decreases m - n,
{
    if n < m {
        lemma_figures_stop(df, column, n, m - 1);
    }
}

/// Bringing the income up to date touches no row but that of the income. A figure of
/// another row that was a whole number may become the double precision number
/// nearest to it, and every other cell is kept.
pub proof fn totals_touch_only_the_income(df: TableView, totals: Seq<FloatBits>, n: int, row: int)
    requires
        df.wf(),
        totals_set(df, totals, n).1 is Ok,
        0 <= n <= 12,
        0 <= row < df.rows.len(),
        df.rows[row][df.column_of("category"@)] != CellView::Text("Income"@),
    ensures
        ({
            let after = totals_set(df, totals, n).0;
            &&& after.columns.len() == df.columns.len()
            &&& after.rows.len() == df.rows.len()
            &&& after.rows[row].len() == df.rows[row].len()
            &&& forall|c: int|
                0 <= c < df.columns.len() ==> (#[trigger] after.columns[c]).name
                    == df.columns[c].name
            &&& forall|c: int|
                0 <= c < df.columns.len() ==> (#[trigger] after.rows[row][c]) == df.rows[row][c]
                    || after.rows[row][c] == double_cell(df.rows[row][c])
        }),
    decreases n,
{
    if n > 0 {
        totals_touch_only_the_income(df, totals, n - 1, row);
        let before = totals_set(df, totals, n - 1).0;
        let after = totals_set(df, totals, n).0;
        let label = month_label(n as nat);
        assert(names_differ(before.columns)) by {
            assert forall|a: int, b: int| 0 <= a < b < before.columns.len() implies (
            #[trigger] before.columns[a]).name != (#[trigger] before.columns[b]).name by {
                assert(df.columns[a].name != df.columns[b].name);
            }
        }
        lemma_readied(before, label, DataTypeView::Float64);
        let k = before.column_of("category"@);
        assert(df.columns[k].name == "category"@);
        lemma_column_of(df, k);
        assert(row_fits(df.columns, df.rows[row]));
        assert(before.rows[row][k] != CellView::Text("Income"@));
        let ready = readied(before, label, DataTypeView::Float64);
        assert(ready.rows[row][k] == before.rows[row][k] || ready.rows[row][k] == double_cell(
            before.rows[row][k],
        ));
        assert(after.rows[row] == ready.rows[row]);
        assert forall|c: int| 0 <= c < df.columns.len() implies (#[trigger] after.columns[c]).name
            == df.columns[c].name by {
            assert(before.columns[c].name == df.columns[c].name);
        }
        assert forall|c: int| 0 <= c < df.columns.len() implies (#[trigger] after.rows[row][c])
            == df.rows[row][c] || after.rows[row][c] == double_cell(df.rows[row][c]) by {
            assert(before.rows[row][c] == df.rows[row][c] || before.rows[row][c] == double_cell(
                df.rows[row][c],
            ));
        }
    }
}

} // verus!
