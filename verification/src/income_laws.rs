//! What is entered as income is what is read, summed up and sent to the other
//! device.

use vstd::prelude::*;
use crate::cashflow::{
    cashflow_rows, figure, figures, income_set, totals_set, zero_cashflow, zero_row, CashflowView,
};
use crate::changes::ChangeView;
use crate::error::ErrorView;
use crate::frame_laws::setting_sets_the_matches;
use crate::merge_apply::{
    cells_set, converted, first_other_column, income_written, lemma_matching_rows, month_label,
    WriteView, ROW_ID_COLUMN,
};
use crate::numbers::{float_finite, FloatBits};
use crate::rows::{Number, ValueView};
use crate::sync::{ChangeTable, OpView};
use crate::table::{
    matching_rows, names_differ, row_fits, CellView, DataTypeView, TableView,
};
use crate::text::{decimal, decimal_digits_spell_their_number, zeros};

verus! {

/// The column of a month is named by its two digits.
pub proof fn the_months_are_labelled()
    ensures
        month_label(1) == "01"@,
        month_label(2) == "02"@,
        month_label(3) == "03"@,
        month_label(4) == "04"@,
        month_label(5) == "05"@,
        month_label(6) == "06"@,
        month_label(7) == "07"@,
        month_label(8) == "08"@,
        month_label(9) == "09"@,
        month_label(10) == "10"@,
        month_label(11) == "11"@,
        month_label(12) == "12"@,
{
    reveal_with_fuel(decimal, 2);
    reveal_strlit("01");
    reveal_strlit("02");
    reveal_strlit("03");
    reveal_strlit("04");
    reveal_strlit("05");
    reveal_strlit("06");
    reveal_strlit("07");
    reveal_strlit("08");
    reveal_strlit("09");
    reveal_strlit("10");
    reveal_strlit("11");
    reveal_strlit("12");
    assert(month_label(1) =~= "01"@);
    assert(month_label(2) =~= "02"@);
    assert(month_label(3) =~= "03"@);
    assert(month_label(4) =~= "04"@);
    assert(month_label(5) =~= "05"@);
    assert(month_label(6) =~= "06"@);
    assert(month_label(7) =~= "07"@);
    assert(month_label(8) =~= "08"@);
    assert(month_label(9) =~= "09"@);
    assert(month_label(10) =~= "10"@);
    assert(month_label(11) =~= "11"@);
    assert(month_label(12) =~= "12"@);
}

/// The columns of two months differ, and none of them is the column of the
/// categories or of the ids.
pub proof fn months_have_columns_of_their_own(a: nat, b: nat)
    requires
        1 <= a <= 12,
        1 <= b <= 12,
    ensures
        month_label(a) == month_label(b) ==> a == b,
        month_label(a) != "category"@,
        month_label(a) != ROW_ID_COLUMN@,
{
    decimal_digits_spell_their_number(a, 2);
    decimal_digits_spell_their_number(b, 2);
    reveal_strlit("category");
    reveal_strlit("row_id");
    reveal_with_fuel(decimal, 2);
    assert("category"@.len() == 8);
    assert(ROW_ID_COLUMN@.len() == 6);
    assert(month_label(a).len() == 2) by {
        assert(month_label(a) == zeros(2 - decimal(a).len()) + decimal(a));
    }
}

/// Whether a row is that of a category, and no other row is.
pub open spec fn only_category(df: TableView, category: Seq<char>, i: int) -> bool {
    &&& 0 <= i < df.rows.len()
    &&& df.at(i, "category"@) == CellView::Text(category)
    &&& forall|k: int|
        0 <= k < df.rows.len() && k != i ==> #[trigger] df.at(k, "category"@) != CellView::Text(
            category,
        )
}

/// Whether no row is that of a category.
pub open spec fn no_category(df: TableView, category: Seq<char>) -> bool {
    forall|k: int|
        0 <= k < df.rows.len() ==> #[trigger] df.at(k, "category"@) != CellView::Text(category)
}

/// Whether the columns of a cashflow are there: the categories in a text column, and
/// a month in one of double precision numbers.
pub open spec fn has_income_columns(df: TableView, month: nat) -> bool {
    &&& df.has_column("category"@)
    &&& df.columns[df.column_of("category"@)].dtype is Text
    &&& df.has_column(month_label(month))
    &&& df.columns[df.column_of(month_label(month))].dtype is Float64
}

/// A figure is what the row of its category holds in its column, the first such row
/// where there are several. It is zero where that cell is empty or the row is absent.
pub proof fn a_figure_is_that_of_its_row(
    df: TableView,
    category: Seq<char>,
    column: Seq<char>,
    i: int,
)
    requires
        df.has_column("category"@),
        df.columns[df.column_of("category"@)].dtype is Text,
        df.has_column(column),
        df.columns[df.column_of(column)].dtype is Float64,
        0 <= i <= df.rows.len(),
        forall|k: int|
            0 <= k < i ==> #[trigger] df.at(k, "category"@) != CellView::Text(category),
        i < df.rows.len() ==> df.at(i, "category"@) == CellView::Text(category),
    ensures
        i == df.rows.len() ==> figure(df, category, column) == Ok::<FloatBits, ErrorView>(0),
        i < df.rows.len() ==> {
            df.at(i, column) matches CellView::Float(number) ==> figure(df, category, column)
                == Ok::<FloatBits, ErrorView>(number)
        },
        i < df.rows.len() && df.at(i, column) is Null ==> figure(df, category, column) == Ok::<
            FloatBits,
            ErrorView,
        >(0),
{
    let c = df.column_of("category"@);
    let n = df.rows.len() as int;
    lemma_matching_rows(df.rows, c, category, n);
    let found = matching_rows(df.rows, c, category, n);
    if i < n {
        assert(df.at(i, "category"@) == df.rows[i][c]);
        assert(found.contains(i));
        let p = choose|p: int| 0 <= p < found.len() && found[p] == i;
        if p > 0 {
            assert(found[0] < found[p]);
            assert(df.at(found[0], "category"@) == CellView::Text(category));
        }
    } else if found.len() > 0 {
        assert(df.at(found[0], "category"@) == CellView::Text(category));
    }
}

/// The terms of a month are four: what the rows of the salary, of the interests of
/// the bank account, of the dividends and coupons and of the other income hold, in
/// this order. They are there if and only if each of the four figures is.
pub proof fn the_terms_are_the_four_figures(df: TableView, column: Seq<char>)
    ensures
        figures(df, column, 4) matches Ok(list) ==> {
            &&& list.len() == 4
            &&& figure(df, "Salary"@, column) == Ok::<FloatBits, ErrorView>(list[0])
            &&& figure(df, "Interests Bank account"@, column) == Ok::<FloatBits, ErrorView>(list[1])
            &&& figure(df, "Dividendi e Cedole"@, column) == Ok::<FloatBits, ErrorView>(list[2])
            &&& figure(df, "Other"@, column) == Ok::<FloatBits, ErrorView>(list[3])
        },
        figures(df, column, 4) is Ok <==> figure(df, "Salary"@, column) is Ok && figure(
            df,
            "Interests Bank account"@,
            column,
        ) is Ok && figure(df, "Dividendi e Cedole"@, column) is Ok && figure(df, "Other"@, column)
            is Ok,
{
    reveal_with_fuel(figures, 5);
}

proof fn lemma_figure_kept(
    df: TableView,
    after: TableView,
    category: Seq<char>,
    column: Seq<char>,
)
    requires
        df.has_column("category"@),
        after.has_column("category"@),
        df.columns[df.column_of("category"@)].dtype is Text,
        after.columns[after.column_of("category"@)].dtype is Text,
        after.rows.len() == df.rows.len(),
        forall|r: int|
            0 <= r < df.rows.len() ==> #[trigger] after.at(r, "category"@) == df.at(
                r,
                "category"@,
            ),
        after.has_column(column) == df.has_column(column),
        df.has_column(column) ==> after.columns[after.column_of(column)]
            == df.columns[df.column_of(column)],
        forall|r: int|
            0 <= r < df.rows.len() && df.has_column(column) && df.at(r, "category"@)
                == CellView::Text(category) ==> #[trigger] after.at(r, column) == df.at(r, column),
    ensures
        figure(after, category, column) == figure(df, category, column),
{
    let c = df.column_of("category"@);
    let d = after.column_of("category"@);
    let n = df.rows.len() as int;
    lemma_matching_rows(df.rows, c, category, n);
    assert forall|r: int| 0 <= r < n implies (#[trigger] after.rows[r])[d] == df.rows[r][c] by {
        assert(after.at(r, "category"@) == df.at(r, "category"@));
    }
    lemma_same_matches(df.rows, c, after.rows, d, category, n);
    let found = matching_rows(df.rows, c, category, n);
    if found.len() > 0 && df.has_column(column) {
        assert(df.at(found[0], "category"@) == CellView::Text(category));
        assert(after.at(found[0], column) == df.at(found[0], column));
    }
}

proof fn lemma_same_matches(
    rows: Seq<Seq<CellView>>,
    c: int,
    others: Seq<Seq<CellView>>,
    d: int,
    text: Seq<char>,
    n: int,
)
    requires
        0 <= n <= rows.len(),
        rows.len() == others.len(),
        forall|r: int| 0 <= r < rows.len() ==> (#[trigger] others[r])[d] == rows[r][c],
    ensures
        matching_rows(others, d, text, n) == matching_rows(rows, c, text, n),
    decreases n,
{
    if n > 0 {
        lemma_same_matches(rows, c, others, d, text, n - 1);
        assert(others[n - 1][d] == rows[n - 1][c]);
    }
}

proof fn lemma_figure_set(
    df: TableView,
    category: Seq<char>,
    label: Seq<char>,
    value: FloatBits,
    after: TableView,
    other: Seq<char>,
    column: Seq<char>,
)
    requires
        df.wf(),
        label != "category"@,
        crate::frames::set_where(
            df,
            "category"@,
            category,
            label,
            DataTypeView::Float64,
            CellView::Float(value),
        ) == Ok::<TableView, ErrorView>(after),
    ensures
        figure(df, other, column) is Ok && (other != category || column != label) ==> figure(
            after,
            other,
            column,
        ) == figure(df, other, column),
        !no_category(df, category) ==> figure(after, category, label) == Ok::<
            FloatBits,
            ErrorView,
        >(value),
        after.wf(),
        after.rows.len() == df.rows.len(),
        forall|r: int|
            0 <= r < df.rows.len() ==> #[trigger] after.at(r, "category"@) == df.at(
                r,
                "category"@,
            ),
{
    let cell = CellView::Float(value);
    setting_sets_the_matches(df, "category"@, category, label, DataTypeView::Float64, cell);
    let c = df.column_of("category"@);
    let n = df.rows.len() as int;
    lemma_matching_rows(df.rows, c, other, n);
    lemma_matching_rows(df.rows, c, category, n);
    assert(after.columns[after.column_of("category"@)] == df.columns[c]);
    assert forall|r: int| 0 <= r < n implies #[trigger] after.rows[r][c] == df.rows[r][c] by {
        assert(after.at(r, "category"@) == df.at(r, "category"@));
    }
    lemma_same_matches(df.rows, c, after.rows, c, category, n);
    lemma_same_matches(df.rows, c, after.rows, c, other, n);
    if figure(df, other, column) is Ok && (other != category || column != label) {
        let found = matching_rows(df.rows, c, other, n);
        if found.len() > 0 {
            assert(df.at(found[0], "category"@) == CellView::Text(other));
            if column == label {
                assert(after.at(found[0], label) == df.at(found[0], label));
            } else {
                assert(after.at(found[0], column) == df.at(found[0], column));
                assert(after.columns[after.column_of(column)] == df.columns[df.column_of(column)]);
            }
        }
    }
    if !no_category(df, category) {
        let k = choose|k: int|
            0 <= k < df.rows.len() && #[trigger] df.at(k, "category"@) == CellView::Text(category);
        let found = matching_rows(df.rows, c, category, n);
        assert(df.rows[k][c] == CellView::Text(category));
        assert(found.contains(k));
        assert(df.at(found[0], "category"@) == CellView::Text(category));
        assert(after.at(found[0], label) == cell);
        assert(after.has_column(label) == df.has_column(label));
    }
}

/// An income that was set is read back: the figure of its category in its month is
/// the number, if the category has a row. Every other figure that could be read is as
/// it was, and so is the year. One change is recorded: the number, for this category
/// and month of this year, or that the log cannot carry it.
pub proof fn an_income_that_was_set_is_read_back(
    cashflow: CashflowView,
    month: u32,
    category: Seq<char>,
    value: FloatBits,
)
    requires
        cashflow.df.wf(),
        income_set(cashflow, month, category, value) is Ok,
    ensures
        ({
            let after = income_set(cashflow, month, category, value)->Ok_0;
            let label = month_label(month as nat);
            &&& 1 <= month <= 12
            &&& after.year == cashflow.year
            &&& after.df.wf()
            &&& after.df.rows.len() == cashflow.df.rows.len()
            &&& !no_category(cashflow.df, category) ==> figure(after.df, category, label) == Ok::<
                FloatBits,
                ErrorView,
            >(value)
            &&& forall|other: Seq<char>, column: Seq<char>|
                figure(cashflow.df, other, column) is Ok && (other != category || column != label)
                    ==> #[trigger] figure(after.df, other, column) == figure(
                    cashflow.df,
                    other,
                    column,
                )
            &&& after.changes.len() == cashflow.changes.len() + 1
            &&& after.changes.drop_last() == cashflow.changes
            &&& after.changes.last().table == (ChangeTable::CashflowIncome { year: cashflow.year })
            &&& after.changes.last().row_id == category
            &&& after.changes.last().origin is None
            &&& float_finite(value) ==> after.changes.last().op == Ok::<OpView, ErrorView>(
                OpView::Cell(label, ValueView::Number(Number::Float(value))),
            )
            &&& !float_finite(value) ==> after.changes.last().op is Err
        }),
{
    let after = income_set(cashflow, month, category, value)->Ok_0;
    let label = month_label(month as nat);
    months_have_columns_of_their_own(month as nat, month as nat);
    lemma_figure_set(cashflow.df, category, label, value, after.df, category, label);
    assert(after.changes.drop_last() =~= cashflow.changes);
    assert forall|other: Seq<char>, column: Seq<char>|
        figure(cashflow.df, other, column) is Ok && (other != category || column
            != label) implies #[trigger] figure(after.df, other, column) == figure(
        cashflow.df,
        other,
        column,
    ) by {
        lemma_figure_set(cashflow.df, category, label, value, after.df, other, column);
    }
}

/// Setting an income changes one term of its month: the one at the place of its
/// category becomes the number, and the others stay. The terms of every other month
/// stay as they are.
pub proof fn setting_an_income_changes_one_term(
    cashflow: CashflowView,
    month: u32,
    category: Seq<char>,
    value: FloatBits,
    place: int,
    column: Seq<char>,
)
    requires
        cashflow.df.wf(),
        income_set(cashflow, month, category, value) is Ok,
        !no_category(cashflow.df, category),
        0 <= place < 4,
        category == seq!["Salary"@, "Interests Bank account"@, "Dividendi e Cedole"@, "Other"@][place],
        figures(cashflow.df, column, 4) is Ok,
    ensures
        ({
            let after = income_set(cashflow, month, category, value)->Ok_0;
            let terms = figures(cashflow.df, column, 4)->Ok_0;
            figures(after.df, column, 4) == Ok::<Seq<FloatBits>, ErrorView>(
                if column == month_label(month as nat) {
                    terms.update(place, value)
                } else {
                    terms
                },
            )
        }),
{
    let after = income_set(cashflow, month, category, value)->Ok_0;
    let terms = figures(cashflow.df, column, 4)->Ok_0;
    an_income_that_was_set_is_read_back(cashflow, month, category, value);
    the_terms_are_the_four_figures(cashflow.df, column);
    the_terms_are_the_four_figures(after.df, column);
    reveal_strlit("Salary");
    reveal_strlit("Interests Bank account");
    reveal_strlit("Dividendi e Cedole");
    reveal_strlit("Other");
    assert("Salary"@.len() == 6);
    assert("Interests Bank account"@.len() == 22);
    assert("Dividendi e Cedole"@.len() == 18);
    assert("Other"@.len() == 5);
    assert(figure(after.df, "Salary"@, column) is Ok);
    assert(figure(after.df, "Interests Bank account"@, column) is Ok);
    assert(figure(after.df, "Dividendi e Cedole"@, column) is Ok);
    assert(figure(after.df, "Other"@, column) is Ok);
    let list = figures(after.df, column, 4)->Ok_0;
    if column == month_label(month as nat) {
        assert(list =~= terms.update(place, value));
    } else {
        assert(list =~= terms);
    }
}

proof fn lemma_totals(df: TableView, totals: Seq<FloatBits>, n: int, month: int)
    requires
        df.wf(),
        0 <= n <= 12,
        1 <= month <= 12,
        totals_set(df, totals, n).1 is Ok,
        !no_category(df, "Income"@),
    ensures
        ({
            let after = totals_set(df, totals, n).0;
            &&& after.wf()
            &&& after.rows.len() == df.rows.len()
            &&& !no_category(after, "Income"@)
            &&& month <= n ==> figure(after, "Income"@, month_label(month as nat)) == Ok::<
                FloatBits,
                ErrorView,
            >(totals[month - 1])
        }),
    decreases n,
{
    if n > 0 {
        lemma_totals(df, totals, n - 1, month);
        let before = totals_set(df, totals, n - 1).0;
        let after = totals_set(df, totals, n).0;
        let label = month_label(n as nat);
        months_have_columns_of_their_own(n as nat, month as nat);
        lemma_figure_set(
            before,
            "Income"@,
            label,
            totals[n - 1],
            after,
            "Income"@,
            month_label(month as nat),
        );
        let k = choose|k: int|
            0 <= k < before.rows.len() && #[trigger] before.at(k, "category"@) == CellView::Text(
                "Income"@,
            );
        assert(after.at(k, "category"@) == CellView::Text("Income"@));
    }
}

/// Once the income is brought up to date, its row holds in each of the twelve months
/// the total of that month.
pub proof fn the_income_of_a_month_is_its_total(
    df: TableView,
    totals: Seq<FloatBits>,
    month: int,
)
    requires
        df.wf(),
        1 <= month <= 12,
        totals_set(df, totals, 12).1 is Ok,
        !no_category(df, "Income"@),
    ensures
        figure(totals_set(df, totals, 12).0, "Income"@, month_label(month as nat)) == Ok::<
            FloatBits,
            ErrorView,
        >(totals[month - 1]),
{
    lemma_totals(df, totals, 12, month);
}

/// Whether no later cell of a list is of the same column.
pub open spec fn is_last_of_its_column(cells: Seq<(Seq<char>, ValueView)>, j: int) -> bool {
    forall|k: int| j < k < cells.len() ==> (#[trigger] cells[k]).0 != cells[j].0
}

proof fn lemma_cells_held(
    df: TableView,
    table: ChangeTable,
    i: int,
    cells: Seq<(Seq<char>, ValueView)>,
    n: int,
)
    requires
        df.wf(),
        0 <= i < df.rows.len(),
        0 <= n <= cells.len(),
        cells_set(df, table, i, cells, n) is Ok,
    ensures
        ({
            let after = cells_set(df, table, i, cells, n)->Ok_0;
            &&& after.columns == df.columns
            &&& after.rows.len() == df.rows.len()
            &&& after.rows[i].len() == df.columns.len()
            &&& forall|k: int|
                0 <= k < df.rows.len() && k != i ==> #[trigger] after.rows[k] == df.rows[k]
            &&& forall|c: int|
                0 <= c < df.columns.len() && (forall|j: int|
                    0 <= j < n ==> (#[trigger] cells[j]).0 != df.columns[c].name) ==> (
                #[trigger] after.rows[i][c]) == df.rows[i][c]
            &&& forall|j: int|
                0 <= j < n && (forall|k: int| j < k < n ==> (#[trigger] cells[k]).0 != cells[j].0)
                    ==> {
                    let c = df.column_of((#[trigger] cells[j]).0);
                    &&& df.has_column(cells[j].0)
                    &&& converted(cells[j].0, df.columns[c].dtype, cells[j].1, table) == Ok::<
                        CellView,
                        ErrorView,
                    >(after.rows[i][c])
                }
        }),
    decreases n,
{
    assert(row_fits(df.columns, df.rows[i]));
    if n > 0 {
        lemma_cells_held(df, table, i, cells, n - 1);
        let before = cells_set(df, table, i, cells, n - 1)->Ok_0;
        let after = cells_set(df, table, i, cells, n)->Ok_0;
        let name = cells[n - 1].0;
        let c = df.column_of(name);
        assert(df.columns[c].name == name);
        assert forall|j: int|
            0 <= j < n && (forall|k: int| j < k < n ==> (#[trigger] cells[k]).0
                != cells[j].0) implies {
            let d = df.column_of((#[trigger] cells[j]).0);
            &&& df.has_column(cells[j].0)
            &&& converted(cells[j].0, df.columns[d].dtype, cells[j].1, table) == Ok::<
                CellView,
                ErrorView,
            >(after.rows[i][d])
        } by {
            if j < n - 1 {
                assert(cells[n - 1].0 != cells[j].0);
                let d = df.column_of(cells[j].0);
                assert(df.columns[d].name == cells[j].0);
                assert(d != c);
            }
        }
        assert forall|d: int|
            0 <= d < df.columns.len() && (forall|j: int|
                0 <= j < n ==> (#[trigger] cells[j]).0 != df.columns[d].name) implies (
        #[trigger] after.rows[i][d]) == df.rows[i][d] by {
            assert(cells[n - 1].0 != df.columns[d].name);
            assert(d != c);
            assert(before.rows[i][d] == df.rows[i][d]);
        }
    }
}

/// Whether a cell of a column of double precision numbers holds a value: a number by
/// its own bits, and nothing for a null.
pub open spec fn is_that_number(cell: CellView, value: ValueView) -> bool {
    match value {
        ValueView::Number(Number::Float(bits)) => cell == CellView::Float(bits),
        ValueView::Number(number) => cell == CellView::Float(crate::doubles::double_of(number)),
        _ => value is Null && cell is Null,
    }
}

/// A write of income cells that succeeds finds one row of the category, and sets
/// every cell it names: each column holds the value given for it, the last one where
/// a column is named twice. Every other cell of the table is as before.
pub proof fn an_income_write_sets_every_cell(
    df: TableView,
    table: ChangeTable,
    row_id: Seq<char>,
    cells: Seq<(Seq<char>, ValueView)>,
) -> (i: int)
    requires
        df.wf(),
        income_written(df, table, row_id, WriteView::SetCells(cells)) is Ok,
    ensures
        ({
            let after = income_written(df, table, row_id, WriteView::SetCells(cells))->Ok_0.0;
            let changed = income_written(df, table, row_id, WriteView::SetCells(cells))->Ok_0.1;
            &&& only_category(df, row_id, i)
            &&& after.columns == df.columns
            &&& after.rows.len() == df.rows.len()
            &&& forall|k: int|
                0 <= k < df.rows.len() && k != i ==> #[trigger] after.rows[k] == df.rows[k]
            &&& forall|name: Seq<char>|
                df.has_column(name) && (forall|j: int|
                    0 <= j < cells.len() ==> (#[trigger] cells[j]).0 != name) ==> #[trigger] after.at(
                    i,
                    name,
                ) == df.at(i, name)
            &&& forall|j: int|
                0 <= j < cells.len() ==> df.has_column((#[trigger] cells[j]).0)
            &&& forall|j: int|
                0 <= j < cells.len() && #[trigger] is_last_of_its_column(cells, j) ==> {
                    let name = cells[j].0;
                    let dtype = df.columns[df.column_of(name)].dtype;
                    &&& converted(name, dtype, cells[j].1, table) == Ok::<CellView, ErrorView>(
                        after.at(i, name),
                    )
                    &&& dtype is Float64 ==> is_that_number(after.at(i, name), cells[j].1)
                }
            &&& changed == (cells.len() > 0)
        }),
{
    let c = df.column_of("category"@);
    let n = df.rows.len() as int;
    lemma_matching_rows(df.rows, c, row_id, n);
    let found = matching_rows(df.rows, c, row_id, n);
    let i = found[0];
    assert(df.rows[i][c] == CellView::Text(row_id));
    assert forall|k: int| 0 <= k < n && k != i implies #[trigger] df.at(k, "category"@)
        != CellView::Text(row_id) by {
        if df.rows[k][c] == CellView::Text(row_id) {
            assert(found.contains(k));
        }
    }
    lemma_cells_held(df, table, i, cells, cells.len() as int);
    lemma_all_there(df, table, i, cells, cells.len() as int);
    let after = cells_set(df, table, i, cells, cells.len() as int)->Ok_0;
    assert forall|name: Seq<char>|
        df.has_column(name) && (forall|j: int|
            0 <= j < cells.len() ==> (#[trigger] cells[j]).0 != name) implies #[trigger] after.at(
        i,
        name,
    ) == df.at(i, name) by {
        let d = df.column_of(name);
        assert(df.columns[d].name == name);
        lemma_same_place(df, after, name);
        assert(after.rows[i][d] == df.rows[i][d]);
    }
    assert forall|j: int|
        0 <= j < cells.len() && #[trigger] is_last_of_its_column(cells, j) implies {
        let name = cells[j].0;
        let dtype = df.columns[df.column_of(name)].dtype;
        &&& converted(name, dtype, cells[j].1, table) == Ok::<CellView, ErrorView>(
            after.at(i, name),
        )
        &&& dtype is Float64 ==> is_that_number(after.at(i, name), cells[j].1)
    } by {
        let name = cells[j].0;
        assert(df.has_column(name));
        lemma_same_place(df, after, name);
    }
    i
}

proof fn lemma_same_place(df: TableView, after: TableView, name: Seq<char>)
    requires
        names_differ(df.columns),
        after.columns == df.columns,
        df.has_column(name),
    ensures
        after.column_of(name) == df.column_of(name),
{
    assert(df.columns[df.column_of(name)].name == name);
    crate::table::lemma_column_of(df, df.column_of(name));
    crate::table::lemma_column_of(after, df.column_of(name));
}

proof fn lemma_all_there(
    df: TableView,
    table: ChangeTable,
    i: int,
    cells: Seq<(Seq<char>, ValueView)>,
    n: int,
)
    requires
        0 <= n <= cells.len(),
        cells_set(df, table, i, cells, n) is Ok,
    ensures
        forall|j: int| 0 <= j < n ==> df.has_column((#[trigger] cells[j]).0),
    decreases n,
{
    if n > 0 {
        lemma_all_there(df, table, i, cells, n - 1);
    }
}

proof fn lemma_numbers_fit(
    df: TableView,
    table: ChangeTable,
    i: int,
    cells: Seq<(Seq<char>, ValueView)>,
    n: int,
)
    requires
        0 <= n <= cells.len(),
        forall|j: int|
            0 <= j < cells.len() ==> ((#[trigger] cells[j]).1 is Number || cells[j].1 is Null)
                && exists|month: nat|
                1 <= month <= 12 && cells[j].0 == #[trigger] month_label(month)
                    && has_income_columns(df, month),
    ensures
        cells_set(df, table, i, cells, n) is Ok,
        first_other_column(cells, n) is None,
    decreases n,
{
    if n > 0 {
        lemma_numbers_fit(df, table, i, cells, n - 1);
        assert(cells[n - 1].1 is Number || cells[n - 1].1 is Null);
        let month = choose|month: nat|
            1 <= month <= 12 && cells[n - 1].0 == #[trigger] month_label(month)
                && has_income_columns(df, month);
        months_have_columns_of_their_own(month, month);
    }
}

/// Numbers for months of a category of income are written wherever the table has
/// one row of that category and columns of numbers for those months.
pub proof fn a_fitting_income_write_is_carried_out(
    df: TableView,
    table: ChangeTable,
    row_id: Seq<char>,
    cells: Seq<(Seq<char>, ValueView)>,
    i: int,
)
    requires
        row_id == "Salary"@ || row_id == "Interests Bank account"@ || row_id
            == "Dividendi e Cedole"@ || row_id == "Other"@,
        only_category(df, row_id, i),
        df.has_column("category"@),
        df.columns[df.column_of("category"@)].dtype is Text,
        forall|j: int|
            0 <= j < cells.len() ==> ((#[trigger] cells[j]).1 is Number || cells[j].1 is Null)
                && exists|month: nat|
                1 <= month <= 12 && cells[j].0 == #[trigger] month_label(month)
                    && has_income_columns(df, month),
    ensures
        income_written(df, table, row_id, WriteView::SetCells(cells)) is Ok,
{
    let c = df.column_of("category"@);
    let n = df.rows.len() as int;
    lemma_matching_rows(df.rows, c, row_id, n);
    let found = matching_rows(df.rows, c, row_id, n);
    assert(df.rows[i][c] == CellView::Text(row_id));
    assert(found.contains(i));
    if found.len() > 1 {
        assert(found[0] < found[1]);
        assert(df.at(found[0], "category"@) == CellView::Text(row_id));
        assert(df.at(found[1], "category"@) == CellView::Text(row_id));
    }
    lemma_numbers_fit(df, table, found[0], cells, cells.len() as int);
}

/// An income entered on one device arrives on another: its record, applied there as
/// a write of one cell, is carried out, and the category has that number in that
/// month there too. No other figure of the table there changes.
pub proof fn an_income_entered_here_arrives_there(
    cashflow: CashflowView,
    month: u32,
    category: Seq<char>,
    value: FloatBits,
    there: TableView,
    i: int,
)
    requires
        cashflow.df.wf(),
        income_set(cashflow, month, category, value) is Ok,
        float_finite(value),
        there.wf(),
        only_category(there, category, i),
        has_income_columns(there, month as nat),
    ensures
        ({
            let change: ChangeView = income_set(
                cashflow,
                month,
                category,
                value,
            )->Ok_0.changes.last();
            &&& change.op matches Ok(OpView::Cell(column, number)) && {
                let write = WriteView::SetCells(seq![(column, number)]);
                &&& income_written(there, change.table, change.row_id, write) matches Ok(
                    (after, changed),
                )
                &&& changed
                &&& figure(after, category, month_label(month as nat)) == Ok::<
                    FloatBits,
                    ErrorView,
                >(value)
                &&& forall|other: Seq<char>, name: Seq<char>|
                    other != category || name != month_label(month as nat) ==> #[trigger] figure(
                        after,
                        other,
                        name,
                    ) == figure(there, other, name)
            }
        }),
{
    an_income_that_was_set_is_read_back(cashflow, month, category, value);
    let change = income_set(cashflow, month, category, value)->Ok_0.changes.last();
    let label = month_label(month as nat);
    let number = ValueView::Number(Number::Float(value));
    let cells = seq![(label, number)];
    assert(cells[0] == (label, number));
    months_have_columns_of_their_own(month as nat, month as nat);
    a_fitting_income_write_is_carried_out(there, change.table, category, cells, i);
    let k = an_income_write_sets_every_cell(there, change.table, category, cells);
    if k != i {
        assert(there.at(k, "category"@) != CellView::Text(category));
    }
    let after = income_written(there, change.table, category, WriteView::SetCells(cells))->Ok_0.0;
    assert(is_last_of_its_column(cells, 0));
    assert(after.at(i, label) == CellView::Float(value));
    lemma_same_place(there, after, "category"@);
    lemma_same_place(there, after, label);
    assert forall|r: int| 0 <= r < there.rows.len() implies #[trigger] after.at(r, "category"@)
        == there.at(r, "category"@) by {
        if r != i {
            assert(after.rows[r] == there.rows[r]);
        }
    }
    a_figure_is_that_of_its_row(after, category, label, i);
    assert forall|other: Seq<char>, name: Seq<char>|
        other != category || name != label implies #[trigger] figure(after, other, name) == figure(
        there,
        other,
        name,
    ) by {
        if there.has_column(name) {
            lemma_same_place(there, after, name);
        }
        assert forall|r: int|
            0 <= r < there.rows.len() && there.has_column(name) && there.at(r, "category"@)
                == CellView::Text(other) implies #[trigger] after.at(r, name) == there.at(
            r,
            name,
        ) by {
            if r != i {
                assert(after.rows[r] == there.rows[r]);
            }
        }
        lemma_figure_kept(there, after, other, name);
    }
}

/// The table of a new year has a row for each kind of income and for each of the sums,
/// and a zero in each of them for every month.
pub proof fn a_new_year_begins_with_zeros(row: int, month: nat)
    requires
        0 <= row < 8,
        1 <= month <= 12,
    ensures
        zero_cashflow().rows.len() == 8,
        zero_cashflow().has_column("category"@),
        zero_cashflow().has_column(month_label(month)),
        zero_cashflow().at(row, "category"@) == CellView::Text(
            seq![
                "Salary"@,
                "Interests Bank account"@,
                "Dividendi e Cedole"@,
                "Other"@,
                "Income"@,
                "Spending"@,
                "Saving"@,
                "Saving %"@,
            ][row],
        ),
        zero_cashflow().at(row, month_label(month)) == CellView::Float(0),
{
    let df = zero_cashflow();
    assert(df.columns[0].name == "category"@);
    assert(df.columns[month as int].name == month_label(month));
    let c = df.column_of("category"@);
    let m = df.column_of(month_label(month));
    assert(0 <= c < 13 && df.columns[c].name == "category"@);
    assert(0 <= m < 13 && df.columns[m].name == month_label(month));
    months_have_columns_of_their_own(month, month);
    if c > 0 {
        months_have_columns_of_their_own(c as nat, c as nat);
    }
    assert(c == 0);
    assert(m > 0);
    assert(df.rows[row] == zero_row(cashflow_rows()[row]));
}

} // verus!
