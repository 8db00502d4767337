//! What a repair of the dates finds, and what it makes of it.

use vstd::prelude::*;
use crate::change_laws::lemma_logged_row;
use crate::dates::{a_day_number_names_one_date, civil, is_date, lemma_day_range, text_of};
use crate::expense_date_repair::{
    count_misdated, count_undated, ending, file_line, file_lines, has_dates, marked_ids,
    needs_repair, DayPolicy, ExpenseDateRepairReport, FileRepairCounts, DATE_COLUMN,
};
use crate::paths::month_file;
use crate::refusal_laws::{lemma_occurs, occurs_in};
use crate::repair_run::{
    file_counts, folder_before, monthly_paths, placed, repair_flags, repaired_row, scanned,
    year_folders, PlannedView, RunView,
};
use crate::rows::ValueView;
use crate::sync::{ChangeTable, OpView};
use crate::table::{row_fits, CellView, TableView};
use crate::text::{decimal, spelled_within, text_order_is_total};

verus! {

/// A row of a month needs a repair exactly where it has no date, or one that does not
/// lie in the month.
pub proof fn a_date_outside_its_month_needs_a_repair(cell: CellView, year: int, month: int)
    ensures
        needs_repair(cell, year, month) <==> cell is Null || (cell matches CellView::Date(days)
            && !exists|day: int| civil(days as int) == #[trigger] date_of(year, month, day)),
{
    if let CellView::Date(days) = cell {
        let c = civil(days as int);
        if c.0 == year && c.1 == month {
            assert(c == date_of(year, month, c.2));
        }
    }
}

/// A year, a month and a day.
pub open spec fn date_of(year: int, month: int, day: int) -> (int, int, int) {
    (year, month, day)
}

/// Whether places are those of the rows among the first `n` that have no date.
spec fn are_undated(rows: Seq<Seq<CellView>>, column: int, n: int, places: Seq<int>) -> bool {
    &&& forall|k: int|
        0 <= k < places.len() ==> 0 <= #[trigger] places[k] < n && rows[places[k]][column] is Null
    &&& forall|i: int, j: int|
        0 <= i < j < places.len() ==> #[trigger] places[i] < #[trigger] places[j]
    &&& forall|r: int|
        0 <= r < n && (#[trigger] rows[r])[column] is Null ==> places.contains(r)
}

proof fn lemma_undated(rows: Seq<Seq<CellView>>, column: int, n: int) -> (places: Seq<int>)
    requires
        0 <= n <= rows.len(),
    ensures
        are_undated(rows, column, n, places),
        places.len() == count_undated(rows, column, n),
    decreases n,
{
    if n <= 0 {
        Seq::empty()
    } else {
        let before = lemma_undated(rows, column, n - 1);
        if rows[n - 1][column] is Null {
            let places = before.push(n - 1);
            assert forall|r: int|
                0 <= r < n && (#[trigger] rows[r])[column] is Null implies places.contains(r) by {
                if r < n - 1 {
                    let k = choose|k: int| 0 <= k < before.len() && before[k] == r;
                    assert(places[k] == r);
                } else {
                    assert(places[before.len() as int] == r);
                }
            }
            places
        } else {
            before
        }
    }
}

/// Whether a cell holds a date outside a month.
pub open spec fn is_outside(cell: CellView, year: int, month: int) -> bool {
    cell matches CellView::Date(days) && !(civil(days as int).0 == year && civil(days as int).1
        == month)
}

spec fn are_misdated(
    rows: Seq<Seq<CellView>>,
    column: int,
    year: int,
    month: int,
    n: int,
    places: Seq<int>,
) -> bool {
    &&& forall|k: int|
        0 <= k < places.len() ==> 0 <= #[trigger] places[k] < n && is_outside(
            rows[places[k]][column],
            year,
            month,
        )
    &&& forall|i: int, j: int|
        0 <= i < j < places.len() ==> #[trigger] places[i] < #[trigger] places[j]
    &&& forall|r: int|
        0 <= r < n && is_outside((#[trigger] rows[r])[column], year, month) ==> places.contains(r)
}

proof fn lemma_misdated(
    rows: Seq<Seq<CellView>>,
    column: int,
    year: int,
    month: int,
    n: int,
) -> (places: Seq<int>)
    requires
        0 <= n <= rows.len(),
    ensures
        are_misdated(rows, column, year, month, n, places),
        places.len() == count_misdated(rows, column, year, month, n),
    decreases n,
{
    if n <= 0 {
        Seq::empty()
    } else {
        let before = lemma_misdated(rows, column, year, month, n - 1);
        if is_outside(rows[n - 1][column], year, month) {
            let places = before.push(n - 1);
            assert forall|r: int|
                0 <= r < n && is_outside(
                    (#[trigger] rows[r])[column],
                    year,
                    month,
                ) implies places.contains(r) by {
                if r < n - 1 {
                    let k = choose|k: int| 0 <= k < before.len() && before[k] == r;
                    assert(places[k] == r);
                } else {
                    assert(places[before.len() as int] == r);
                }
            }
            places
        } else {
            before
        }
    }
}

/// The counts of a file are those of its rows: all of them, those without a date, and
/// those with a date outside the month, each row once. The places of the two kinds of
/// rows are handed back.
pub proof fn the_counts_of_a_file_are_those_of_its_rows(
    path: Seq<char>,
    df: TableView,
    year: int,
    month: int,
) -> (places: (Seq<int>, Seq<int>))
    ensures
        ({
            let counts = file_counts(path, df, year, month);
            &&& counts.path == path
            &&& counts.total_rows == df.rows.len()
            &&& counts.class_a == places.0.len()
            &&& counts.class_b == places.1.len()
            &&& forall|k: int|
                0 <= k < places.0.len() ==> 0 <= #[trigger] places.0[k] < df.rows.len() && df.at(
                    places.0[k],
                    "expense_date"@,
                ) is Null
            &&& forall|k: int|
                0 <= k < places.1.len() ==> 0 <= #[trigger] places.1[k] < df.rows.len()
                    && is_outside(df.at(places.1[k], "expense_date"@), year, month)
            &&& forall|i: int, j: int|
                0 <= i < j < places.0.len() ==> #[trigger] places.0[i] < #[trigger] places.0[j]
            &&& forall|i: int, j: int|
                0 <= i < j < places.1.len() ==> #[trigger] places.1[i] < #[trigger] places.1[j]
            &&& forall|r: int|
                0 <= r < df.rows.len() && #[trigger] df.at(r, "expense_date"@) is Null
                    ==> places.0.contains(r)
            &&& forall|r: int|
                0 <= r < df.rows.len() && is_outside(
                    #[trigger] df.at(r, "expense_date"@),
                    year,
                    month,
                ) ==> places.1.contains(r)
        }),
{
    let c = df.column_of(DATE_COLUMN@);
    let n = df.rows.len() as int;
    let undated = lemma_undated(df.rows, c, n);
    let misdated = lemma_misdated(df.rows, c, year, month, n);
    assert forall|r: int|
        0 <= r < n && #[trigger] df.at(r, "expense_date"@) is Null implies undated.contains(r) by {
        assert(df.rows[r][c] is Null);
    }
    assert forall|r: int|
        0 <= r < n && is_outside(
            #[trigger] df.at(r, "expense_date"@),
            year,
            month,
        ) implies misdated.contains(r) by {
        assert(is_outside(df.rows[r][c], year, month));
    }
    (undated, misdated)
}

/// Whether a row has no date, or one outside its month.
pub open spec fn is_wrong(cell: CellView, year: int, month: int) -> bool {
    cell is Null || is_outside(cell, year, month)
}

/// Whether rows with their ids are the wrong ones of a table that have an id, in order.
pub open spec fn are_wrong_rows(
    df: TableView,
    year: int,
    month: int,
    changed: Seq<(int, Seq<char>)>,
) -> bool {
    &&& forall|k: int|
        0 <= k < changed.len() ==> 0 <= (#[trigger] changed[k]).0 < df.rows.len() && is_wrong(
            df.at(changed[k].0, "expense_date"@),
            year,
            month,
        ) && df.at(changed[k].0, "row_id"@) == CellView::Text(changed[k].1)
    &&& forall|i: int, j: int|
        0 <= i < j < changed.len() ==> (#[trigger] changed[i]).0 < (#[trigger] changed[j]).0
    &&& forall|r: int|
        0 <= r < df.rows.len() && is_wrong(#[trigger] df.at(r, "expense_date"@), year, month) ==> (
        df.at(r, "row_id"@) matches CellView::Text(id) ==> changed.contains((r, id)))
}

proof fn lemma_marked(df: TableView, flags: Seq<bool>, n: int)
    requires
        0 <= n <= flags.len(),
    ensures
        ({
            let marked = marked_ids(df, flags, n);
            &&& forall|k: int|
                0 <= k < marked.len() ==> 0 <= (#[trigger] marked[k]).0 < n && flags[marked[k].0]
                    && df.at(marked[k].0, "row_id"@) == CellView::Text(marked[k].1)
            &&& forall|i: int, j: int|
                0 <= i < j < marked.len() ==> (#[trigger] marked[i]).0 < (#[trigger] marked[j]).0
            &&& forall|r: int|
                0 <= r < n && #[trigger] flags[r] ==> (df.at(r, "row_id"@) matches CellView::Text(
                    id,
                ) ==> marked.contains((r, id)))
        }),
    decreases n,
{
    if n > 0 {
        lemma_marked(df, flags, n - 1);
        let before = marked_ids(df, flags, n - 1);
        let marked = marked_ids(df, flags, n);
        assert forall|k: int| 0 <= k < before.len() implies marked[k] == before[k] by {}
        assert forall|r: int| 0 <= r < n && #[trigger] flags[r] implies (df.at(r, "row_id"@)
            matches CellView::Text(id) ==> marked.contains((r, id))) by {
            if let CellView::Text(id) = df.at(r, "row_id"@) {
                if r < n - 1 {
                    assert(before.contains((r, id)));
                    let k = choose|k: int| 0 <= k < before.len() && before[k] == (r, id);
                    assert(marked[k] == (r, id));
                } else {
                    assert(marked[before.len() as int] == (r, id));
                }
            }
        }
    }
}

/// A file that has a wrong date is reported, once, behind those before it, and where a
/// day is given it is planned to be written: every wrong date becomes the first of the
/// month, every other cell stays as it is, and the rows with a wrong date are listed
/// with their ids. Without a day nothing is planned. A file without a wrong date changes
/// nothing.
pub proof fn a_scanned_file_is_planned_as_it_needs(
    run: RunView,
    path: Seq<char>,
    year: i32,
    month: u32,
    df: TableView,
    day: Option<DayPolicy>,
)
    requires
        df.wf(),
        scanned(run, path, year, month, df, day) is Ok,
    ensures
        ({
            let after = scanned(run, path, year, month, df, day)->Ok_0;
            let needed = exists|k: int|
                0 <= k < df.rows.len() && is_wrong(
                    #[trigger] df.at(k, "expense_date"@),
                    year as int,
                    month as int,
                );
            &&& has_dates(df)
            &&& !needed ==> after == run
            &&& needed ==> after.files == run.files.push(
                file_counts(path, df, year as int, month as int),
            )
            &&& needed && day is None ==> after.planned == run.planned
            &&& needed && day is Some ==> {
                &&& after.planned.len() == run.planned.len() + 1
                &&& after.planned.drop_last() == run.planned
                &&& is_repair_of(after.planned.last(), path, year, month, df)
            }
            &&& after.skipped == run.skipped
            &&& after.rows_repaired == run.rows_repaired
            &&& after.backup_dir == run.backup_dir
            &&& after.applied == run.applied
        }),
{
    let after = scanned(run, path, year, month, df, day)->Ok_0;
    let places = the_counts_of_a_file_are_those_of_its_rows(
        path,
        df,
        year as int,
        month as int,
    );
    let counts = file_counts(path, df, year as int, month as int);
    if counts.class_a > 0 {
        assert(is_wrong(df.at(places.0[0], "expense_date"@), year as int, month as int));
    }
    if counts.class_b > 0 {
        assert(is_wrong(df.at(places.1[0], "expense_date"@), year as int, month as int));
    }
    if exists|k: int|
        0 <= k < df.rows.len() && is_wrong(
            #[trigger] df.at(k, "expense_date"@),
            year as int,
            month as int,
        ) {
        let k = choose|k: int|
            0 <= k < df.rows.len() && is_wrong(
                #[trigger] df.at(k, "expense_date"@),
                year as int,
                month as int,
            );
        assert(places.0.contains(k) || places.1.contains(k));
        if day is Some {
            assert(after.planned.drop_last() =~= run.planned);
            lemma_planned(path, df, year, month);
        }
    }
}

/// Whether a planned write is the repair of a file: every wrong date is the first of
/// the month, everything else is as it was, and the rows with a wrong date are listed
/// with their ids.
pub open spec fn is_repair_of(
    write: PlannedView,
    path: Seq<char>,
    year: i32,
    month: u32,
    df: TableView,
) -> bool {
    &&& write.path == path
    &&& write.table == (ChangeTable::Expenses { year, month })
    &&& write.df.wf()
    &&& write.df.columns == df.columns
    &&& write.df.rows.len() == df.rows.len()
    &&& forall|r: int, name: Seq<char>|
        0 <= r < df.rows.len() && df.has_column(name) ==> {
            let cell = #[trigger] write.df.at(r, name);
            if name == "expense_date"@ && is_wrong(
                df.at(r, "expense_date"@),
                year as int,
                month as int,
            ) {
                cell matches CellView::Date(days) && civil(days as int) == (
                    year as int,
                    month as int,
                    1int,
                )
            } else {
                cell == df.at(r, name)
            }
        }
    &&& are_wrong_rows(df, year as int, month as int, write.changed)
}

proof fn lemma_planned(path: Seq<char>, df: TableView, year: i32, month: u32)
    requires
        df.wf(),
        has_dates(df),
        is_date(year as int, month as int, 1),
    ensures
        is_repair_of(
            crate::repair_run::planned_for(path, df, year, month, 1),
            path,
            year,
            month,
            df,
        ),
{
    let write = crate::repair_run::planned_for(path, df, year, month, 1);
    let flags = repair_flags(df, year as int, month as int);
    let c = df.column_of(DATE_COLUMN@);
    a_day_number_names_one_date(year as int, month as int, 1);
    lemma_day_range(year as int, month as int, 1);
    assert(df.columns[c].name == "expense_date"@);
    assert forall|r: int| 0 <= r < df.rows.len() implies (#[trigger] flags[r] <==> is_wrong(
        df.at(r, "expense_date"@),
        year as int,
        month as int,
    )) by {}
    assert forall|r: int| 0 <= r < write.df.rows.len() implies row_fits(
        write.df.columns,
        #[trigger] write.df.rows[r],
    ) by {
        assert(row_fits(df.columns, df.rows[r]));
    }
    assert forall|r: int, name: Seq<char>| 0 <= r < df.rows.len() && df.has_column(name) implies {
        let cell = #[trigger] write.df.at(r, name);
        if name == "expense_date"@ && is_wrong(
            df.at(r, "expense_date"@),
            year as int,
            month as int,
        ) {
            cell matches CellView::Date(days) && civil(days as int) == (
                year as int,
                month as int,
                1int,
            )
        } else {
            cell == df.at(r, name)
        }
    } by {
        assert(row_fits(df.columns, df.rows[r]));
        assert(df.columns[df.column_of(name)].name == name);
        crate::table::lemma_column_of(write.df, df.column_of(name));
        assert(flags[r] <==> is_wrong(df.at(r, "expense_date"@), year as int, month as int));
    }
    lemma_marked(df, flags, flags.len() as int);
    let marked = marked_ids(df, flags, flags.len() as int);
    assert forall|r: int|
        0 <= r < df.rows.len() && is_wrong(
            #[trigger] df.at(r, "expense_date"@),
            year as int,
            month as int,
        ) implies (df.at(r, "row_id"@) matches CellView::Text(id) ==> marked.contains((r, id))) by {
        assert(flags[r]);
    }
    assert forall|k: int| 0 <= k < marked.len() implies is_wrong(
        df.at((#[trigger] marked[k]).0, "expense_date"@),
        year as int,
        month as int,
    ) by {
        assert(flags[marked[k].0]);
    }
}

/// What is recorded of a repaired row is the row as it is written, under its id: its
/// date is the first of the month.
pub proof fn a_repaired_row_is_recorded_with_its_new_date(
    write: PlannedView,
    path: Seq<char>,
    year: i32,
    month: u32,
    df: TableView,
    k: int,
)
    requires
        is_repair_of(write, path, year, month, df),
        has_dates(df),
        0 <= k < write.changed.len(),
    ensures
        ({
            let change = repaired_row(write, k);
            &&& change.table == (ChangeTable::Expenses { year, month })
            &&& change.row_id == write.changed[k].1
            &&& change.origin is None
            &&& change.op matches Ok(op) ==> {
                &&& op matches OpView::Upsert(row)
                &&& row.contains_key("expense_date"@)
                &&& row["expense_date"@] matches ValueView::Text(text) && exists|days: int|
                    text == #[trigger] text_of(days) && civil(days) == (
                        year as int,
                        month as int,
                        1int,
                    )
            }
        }),
{
    let change = repaired_row(write, k);
    let r = write.changed[k].0;
    if change.op is Ok {
        lemma_logged_row(write.df, r, write.df.columns.len() as int);
        let c = df.column_of("expense_date"@);
        assert(df.has_column("expense_date"@));
        let d = write.df.column_of("expense_date"@);
        assert(write.df.columns[c].name == "expense_date"@);
        assert(write.df.columns[d].name == "expense_date"@);
        assert(is_wrong(df.at(r, "expense_date"@), year as int, month as int));
        let cell = write.df.at(r, "expense_date"@);
        assert(cell is Date);
    }
}

proof fn lemma_placed(folders: Seq<(int, Seq<char>)>, folder: (int, Seq<char>))
    requires
        forall|i: int, j: int|
            0 <= i < j < folders.len() ==> !folder_before(#[trigger] folders[j], #[trigger] folders[i]),
    ensures
        ({
            let after = placed(folders, folder);
            &&& after.len() == folders.len() + 1
            &&& forall|it: (int, Seq<char>)| #[trigger]
                after.contains(it) <==> folders.contains(it) || it == folder
            &&& forall|i: int, j: int|
                0 <= i < j < after.len() ==> !folder_before(#[trigger] after[j], #[trigger] after[i])
        }),
    decreases folders.len(),
{
    text_order_is_total();
    let after = placed(folders, folder);
    if folders.len() == 0 || !folder_before(folder, folders.last()) {
        assert forall|it: (int, Seq<char>)| #[trigger] after.contains(it) <==> folders.contains(it)
            || it == folder by {
            if folders.contains(it) {
                let i = choose|i: int| 0 <= i < folders.len() && folders[i] == it;
                assert(after[i] == it);
            }
            assert(after[folders.len() as int] == folder);
            if after.contains(it) {
                let i = choose|i: int| 0 <= i < after.len() && after[i] == it;
                if i < folders.len() {
                    assert(folders[i] == it);
                }
            }
        }
        assert forall|i: int, j: int| 0 <= i < j < after.len() implies !folder_before(
            #[trigger] after[j],
            #[trigger] after[i],
        ) by {
            if j == folders.len() {
                if i < folders.len() - 1 {
                    assert(!folder_before(folders.last(), folders[i]));
                    text_order_is_total();
                }
            } else {
                assert(!folder_before(folders[j], folders[i]));
            }
        }
    } else {
        let rest = folders.drop_last();
        lemma_placed(rest, folder);
        let front = placed(rest, folder);
        let last = folders.last();
        assert(after == front.push(last));
        assert forall|it: (int, Seq<char>)| #[trigger] after.contains(it) <==> folders.contains(it)
            || it == folder by {
            assert(front.contains(it) <==> rest.contains(it) || it == folder);
            if folders.contains(it) {
                let i = choose|i: int| 0 <= i < folders.len() && folders[i] == it;
                if i < rest.len() {
                    assert(rest[i] == it);
                } else {
                    assert(after[front.len() as int] == it);
                }
            }
            if rest.contains(it) {
                let i = choose|i: int| 0 <= i < rest.len() && rest[i] == it;
                assert(folders[i] == it);
            }
            if front.contains(it) {
                let i = choose|i: int| 0 <= i < front.len() && front[i] == it;
                assert(after[i] == it);
            }
            if after.contains(it) {
                let i = choose|i: int| 0 <= i < after.len() && after[i] == it;
                if i < front.len() {
                    assert(front[i] == it);
                } else {
                    assert(folders[folders.len() - 1] == it);
                }
            }
        }
        assert forall|i: int, j: int| 0 <= i < j < after.len() implies !folder_before(
            #[trigger] after[j],
            #[trigger] after[i],
        ) by {
            if j < front.len() {
                assert(!folder_before(front[j], front[i]));
            } else {
                let it = front[i];
                assert(front.contains(it));
                if rest.contains(it) {
                    let k = choose|k: int| 0 <= k < rest.len() && rest[k] == it;
                    assert(folders[k] == it);
                    assert(!folder_before(folders[folders.len() - 1], folders[k]));
                } else {
                    assert(it == folder);
                    text_order_is_total();
                }
            }
        }
    }
}

/// The folders of a year are those whose name spells one, each under that year, in the
/// order of the years.
pub proof fn the_year_folders_are_those_that_spell_a_year(names: Seq<Seq<char>>, n: int)
    requires
        0 <= n <= names.len(),
    ensures
        ({
            let folders = year_folders(names, n);
            &&& forall|year: int, name: Seq<char>| #[trigger]
                folders.contains((year, name)) <==> spelled_within(
                    name,
                    i32::MIN as int,
                    i32::MAX as int,
                ) == Some(year) && exists|i: int| 0 <= i < n && #[trigger] names[i] == name
            &&& forall|i: int, j: int|
                0 <= i < j < folders.len() ==> (#[trigger] folders[i]).0 <= (#[trigger] folders[j]).0
        }),
{
    lemma_year_folders(names, n);
    let folders = year_folders(names, n);
    assert forall|i: int, j: int| 0 <= i < j < folders.len() implies (#[trigger] folders[i]).0 <= (
    #[trigger] folders[j]).0 by {
        assert(!folder_before(folders[j], folders[i]));
    }
}

proof fn lemma_year_folders(names: Seq<Seq<char>>, n: int)
    requires
        0 <= n <= names.len(),
    ensures
        ({
            let folders = year_folders(names, n);
            &&& forall|year: int, name: Seq<char>| #[trigger]
                folders.contains((year, name)) <==> spelled_within(
                    name,
                    i32::MIN as int,
                    i32::MAX as int,
                ) == Some(year) && exists|i: int| 0 <= i < n && #[trigger] names[i] == name
            &&& forall|i: int, j: int|
                0 <= i < j < folders.len() ==> !folder_before(
                    #[trigger] folders[j],
                    #[trigger] folders[i],
                )
        }),
    decreases n,
{
    if n > 0 {
        lemma_year_folders(names, n - 1);
        let before = year_folders(names, n - 1);
        let folders = year_folders(names, n);
        let last = names[n - 1];
        if let Some(year) = spelled_within(last, i32::MIN as int, i32::MAX as int) {
            lemma_placed(before, (year, last));
        }
        assert forall|year: int, name: Seq<char>| #[trigger]
            folders.contains((year, name)) <==> spelled_within(
                name,
                i32::MIN as int,
                i32::MAX as int,
            ) == Some(year) && exists|i: int| 0 <= i < n && #[trigger] names[i] == name by {
            assert(before.contains((year, name)) <==> spelled_within(
                name,
                i32::MIN as int,
                i32::MAX as int,
            ) == Some(year) && exists|i: int| 0 <= i < n - 1 && #[trigger] names[i] == name);
        }
    }
}

/// Every folder of a year is looked through month by month, from the first to the
/// twelfth, one folder after the other.
pub proof fn every_month_of_every_folder_is_looked_through(
    folders: Seq<(int, Seq<char>)>,
    f: int,
    month: int,
)
    requires
        0 <= f < folders.len(),
        1 <= month <= 12,
    ensures
        monthly_paths(folders).len() == 12 * folders.len(),
        monthly_paths(folders)[12 * f + month - 1] == folders[f].1.push('/') + month_file(
            month as nat,
        ),
{
    assert((12 * f + month - 1) / 12 == f);
    assert((12 * f + month - 1) % 12 == month - 1);
}

/// The line of a file tells its path and its counts.
pub proof fn the_line_of_a_file_tells_its_counts(file: FileRepairCounts)
    ensures
        ({
            let text = file_line(file);
            &&& occurs_in(file.path@, text)
            &&& file.total_rows == 1 ==> occurs_in(": 1 row total, "@, text)
            &&& file.total_rows != 1 ==> occurs_in(
                decimal(file.total_rows as nat) + " rows total, "@,
                text,
            )
            &&& occurs_in(decimal(file.class_a as nat) + " class A, "@, text)
            &&& occurs_in(decimal(file.class_b as nat) + " class B"@, text)
        }),
{
    let text = file_line(file);
    let total = decimal(file.total_rows as nat);
    let rows = " row"@ + ending(file.total_rows as nat) + " total, "@;
    let a = decimal(file.class_a as nat) + " class A, "@;
    let b = decimal(file.class_b as nat) + " class B"@;
    let start = "  "@ + file.path@;
    reveal_strlit(" class B\n");
    reveal_strlit(" class B");
    reveal_strlit("\n");
    assert(" class B\n"@ =~= " class B"@ + "\n"@);
    assert(text =~= start + ": "@ + total + rows + a + b + "\n"@);
    lemma_occurs("  "@, file.path@, ": "@ + total + rows + a + b + "\n"@, text);
    lemma_occurs(start + ": "@ + total + rows, a, b + "\n"@, text);
    lemma_occurs(start + ": "@ + total + rows + a, b, "\n"@, text);
    if file.total_rows == 1 {
        reveal_strlit(": 1 row total, ");
        reveal_strlit(": ");
        reveal_strlit(" row");
        reveal_strlit("");
        reveal_strlit(" total, ");
        reveal_with_fuel(decimal, 2);
        assert(": "@ + total + rows =~= ": 1 row total, "@);
        lemma_occurs(start, ": "@ + total + rows, a + b + "\n"@, text);
    } else {
        reveal_strlit(" row");
        reveal_strlit("s");
        reveal_strlit(" total, ");
        reveal_strlit(" rows total, ");
        assert(rows =~= " rows total, "@);
        lemma_occurs(start + ": "@, total + rows, a + b + "\n"@, text);
    }
}

/// The report has the line of every file that was found.
pub proof fn the_report_has_the_line_of_every_file(report: ExpenseDateRepairReport, i: int)
    requires
        0 <= i < report.files@.len(),
    ensures
        occurs_in(file_line(report.files@[i]), report.findings()),
{
    let n = report.files@.len() as int;
    lemma_line_in_lines(report.files@, n, i);
    let lines = file_lines(report.files@, n);
    let (before, after) = choose|before: Seq<char>, after: Seq<char>| #[trigger]
        (before + file_line(report.files@[i]) + after) == lines;
    let head = report.findings().take(report.findings().len() - lines.len());
    assert(report.findings() =~= head + lines);
    lemma_occurs(head + before, file_line(report.files@[i]), after, report.findings());
}

proof fn lemma_line_in_lines(files: Seq<FileRepairCounts>, n: int, i: int)
    requires
        0 <= i < n <= files.len(),
    ensures
        occurs_in(file_line(files[i]), file_lines(files, n)),
    decreases n,
{
    let front = file_lines(files, n - 1);
    let all = file_lines(files, n);
    if i == n - 1 {
        lemma_occurs(front, file_line(files[i]), Seq::empty(), all);
    } else {
        lemma_line_in_lines(files, n - 1, i);
        let (before, after) = choose|before: Seq<char>, after: Seq<char>| #[trigger]
            (before + file_line(files[i]) + after) == front;
        lemma_occurs(before, file_line(files[i]), after + file_line(files[n - 1]), all);
    }
}

/// The report tells what was done: nothing in a dry run, and the rows repaired and where
/// the backup lies once something was written. Only files that were skipped are spoken of
/// as skipped.
pub proof fn the_report_tells_what_was_done(report: ExpenseDateRepairReport)
    ensures
        !report.applied ==> report.deeds() == "Dry run: nothing was written."@,
        report.applied && report.backup_dir is None ==> report.deeds()
            == "Nothing needed writing, so no backup was taken."@,
        report.applied ==> (report.backup_dir matches Some(folder) ==> occurs_in(
            folder@,
            report.deeds(),
        ) && occurs_in("Repaired "@ + decimal(report.rows_repaired as nat), report.deeds())),
        report.skipped_paths@.len() == 0 <==> report.skips().len() == 0,
        report.skipped_paths@.len() > 0 ==> occurs_in(
            " Skipped "@ + decimal(report.skipped_paths@.len()),
            report.skips(),
        ),
{
    reveal_strlit(" Skipped ");
    if report.applied {
        if let Some(folder) = report.backup_dir {
            let n = report.files@.len();
            let done = "Repaired "@ + decimal(report.rows_repaired as nat);
            let rest = " row"@ + ending(report.rows_repaired as nat) + " across "@ + decimal(n)
                + " file"@ + ending(n) + ". Backup: "@;
            lemma_occurs(done + rest, folder@, Seq::empty(), report.deeds());
            lemma_occurs(Seq::empty(), done, rest + folder@, report.deeds());
        }
    }
    let n = report.skipped_paths@.len();
    if n > 0 {
        lemma_occurs(
            Seq::empty(),
            " Skipped "@ + decimal(n),
            " unreadable path"@ + ending(n) + ", named in the warnings above."@,
            report.skips(),
        );
    }
}

} // verus!
