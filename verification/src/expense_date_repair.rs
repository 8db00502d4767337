//! Repair of expense dates that do not belong to their own monthly file.
//!
//! A row of class A has no date; a row of class B has a date outside the month of
//! its file. The day of such a row cannot be recovered from any column, so a run
//! that writes needs an explicit policy for the day. A date later than today but
//! inside the month is no defect.

use vstd::prelude::*;
use crate::dates::{civil, day_number, is_date, is_day, Date};
use crate::error::{Error, ErrorView};
use crate::merge_apply::{key_column_error, ROW_ID_COLUMN};
use crate::table::{row_fits, Cell, CellView, DataType, Table, TableView};
use crate::text::{
    decimal, padded, push_decimal, push_padded, push_signed, same_text, signed_decimal,
};

verus! {

/// The column of dates.
pub const DATE_COLUMN: &'static str = "expense_date";

/// The day given to a repaired row.
#[derive(Clone, Copy, Debug, PartialEq, Eq, Structural)]
pub enum DayPolicy {
    /// The first day of the file's own month.
    FirstOfMonth,
}

impl DayPolicy {
    /// The policy that a word names, if it names one.
    pub fn parse(raw: &str) -> (r: Option<Self>)
        ensures
            r == if raw@ == "first-of-month"@ {
                Some(DayPolicy::FirstOfMonth)
            } else {
                None
            },
    {
        if same_text(raw, "first-of-month") {
            Some(DayPolicy::FirstOfMonth)
        } else {
            None
        }
    }

    /// The day of the month that this policy gives.
    pub fn day(self) -> (r: u32)
        ensures
            r == 1,
    {
        match self {
            DayPolicy::FirstOfMonth => 1,
        }
    }
}

/// Whether a row lacks a date.
pub open spec fn undated(cell: CellView) -> bool {
    cell is Null
}

/// Whether a row has a date outside a month.
pub open spec fn misdated(cell: CellView, year: int, month: int) -> bool {
    cell matches CellView::Date(days) && (civil(days as int).0 != year || civil(days as int).1
        != month)
}

/// What is wrong with a table without a column of dates.
pub open spec fn date_column_error() -> ErrorView {
    ErrorView::Polars("no date column 'expense_date'"@)
}

/// Whether a table has a column of dates.
pub open spec fn has_dates(df: TableView) -> bool {
    df.has_column(DATE_COLUMN@) && df.columns[df.column_of(DATE_COLUMN@)].dtype is Date
}

/// Whether every date of a table is one that the calendar has.
pub open spec fn dates_exist(df: TableView) -> bool {
    has_dates(df) ==> forall|i: int|
        0 <= i < df.rows.len() ==> {
            (#[trigger] df.rows[i])[df.column_of(DATE_COLUMN@)] matches CellView::Date(days)
                ==> is_day(days as int)
        }
}

/// The column of dates of a table, if it has one.
fn find_dates(df: &Table) -> (r: Option<usize>)
    ensures
        match r {
            Some(c) => has_dates(df@) && c == df@.column_of(DATE_COLUMN@) && c
                < df@.columns.len(),
            None => !has_dates(df@),
        },
{
    match df.find_column(DATE_COLUMN) {
        Some(c) => if let DataType::Date = &df.column_at(c).dtype {
            Some(c)
        } else {
            None
        },
        None => None,
    }
}

/// Whether every date of a table is one that the calendar has.
pub fn all_dates_exist(df: &Table) -> (r: bool)
    ensures
        r == dates_exist(df@),
{
    match find_dates(df) {
        None => true,
        Some(c) => {
            let mut i: usize = 0;
            while i < df.height()
                invariant
                    i <= df@.rows.len(),
                    c < df@.columns.len(),
                    has_dates(df@),
                    c == df@.column_of(DATE_COLUMN@),
                    forall|k: int|
                        0 <= k < i ==> {
                            (#[trigger] df@.rows[k])[c as int] matches CellView::Date(days)
                                ==> is_day(days as int)
                        },
                decreases df@.rows.len() - i,
            {
                if let Cell::Date(days) = df.cell_at(i, c) {
                    if Date::from_days(*days).is_none() {
                        assert(!is_day(*days as int));
                        assert(df@.rows[i as int][c as int] == CellView::Date(*days));
                        return false;
                    }
                }
                i = i + 1;
            }
            true
        },
    }
}

/// What the rows of a file need.
#[derive(Debug, PartialEq, Eq)]
pub struct RowClass {
    /// For each row, whether its date has to be repaired.
    pub needs_repair: Vec<bool>,
    pub class_a: usize,
    pub class_b: usize,
}

/// The number of rows without a date, among the first `n`.
pub open spec fn count_undated(rows: Seq<Seq<CellView>>, column: int, n: int) -> nat
    decreases n,
{
    if n <= 0 {
        0
    } else {
        count_undated(rows, column, n - 1) + if undated(rows[n - 1][column]) {
            1nat
        } else {
            0
        }
    }
}

/// The number of rows with a date outside a month, among the first `n`.
pub open spec fn count_misdated(
    rows: Seq<Seq<CellView>>,
    column: int,
    year: int,
    month: int,
    n: int,
) -> nat
    decreases n,
{
    if n <= 0 {
        0
    } else {
        count_misdated(rows, column, year, month, n - 1) + if misdated(
            rows[n - 1][column],
            year,
            month,
        ) {
            1nat
        } else {
            0
        }
    }
}

/// Whether a row needs repair.
pub open spec fn needs_repair(cell: CellView, year: int, month: int) -> bool {
    undated(cell) || misdated(cell, year, month)
}

/// Classify every row of a file against its own year and month.
pub fn classify(df: &Table, year: i32, month: u32) -> (r: Result<RowClass, Error>)
    requires
        dates_exist(df@),
    ensures
        match r {
            Ok(class) => {
                let c = df@.column_of(DATE_COLUMN@);
                let n = df@.rows.len() as int;
                &&& has_dates(df@)
                &&& class.needs_repair@.len() == n
                &&& forall|i: int|
                    0 <= i < n ==> (#[trigger] class.needs_repair@[i]) == needs_repair(
                        df@.rows[i][c],
                        year as int,
                        month as int,
                    )
                &&& class.class_a == count_undated(df@.rows, c, n)
                &&& class.class_b == count_misdated(df@.rows, c, year as int, month as int, n)
            },
            Err(e) => !has_dates(df@) && e@ == date_column_error(),
        },
{
    let c: usize = match find_dates(df) {
        Some(c) => c,
        None => {
            return Err(Error::Polars("no date column 'expense_date'".to_owned()));
        },
    };
    let mut flags: Vec<bool> = Vec::new();
    let mut class_a: usize = 0;
    let mut class_b: usize = 0;
    let mut i: usize = 0;
    while i < df.height()
        invariant
            i <= df@.rows.len(),
            c < df@.columns.len(),
            has_dates(df@),
            dates_exist(df@),
            c == df@.column_of(DATE_COLUMN@),
            flags@.len() == i,
            forall|k: int|
                0 <= k < i ==> (#[trigger] flags@[k]) == needs_repair(
                    df@.rows[k][c as int],
                    year as int,
                    month as int,
                ),
            class_a == count_undated(df@.rows, c as int, i as int),
            class_b == count_misdated(df@.rows, c as int, year as int, month as int, i as int),
            class_a + class_b <= i,
        decreases df@.rows.len() - i,
    {
        let cell = df.cell_at(i, c);
        assert(df@.rows[i as int][c as int] == cell@);
        match cell {
            Cell::Date(days) => {
                assert(is_day(*days as int));
                let outside = match Date::from_days(*days) {
                    Some(date) => {
                        let (y, m, _) = date.ymd();
                        y != year || m != month
                    },
                    None => true,
                };
                if outside {
                    class_b = class_b + 1;
                    flags.push(true);
                } else {
                    flags.push(false);
                }
            },
            Cell::Null => {
                class_a = class_a + 1;
                flags.push(true);
            },
            _ => {
                flags.push(false);
            },
        }
        i = i + 1;
    }
    Ok(RowClass { needs_repair: flags, class_a, class_b })
}

/// What is wrong with a policy that gives no date of a month.
pub open spec fn repaired_date_error(year: int, month: nat, day: nat) -> ErrorView {
    ErrorView::InvalidArgument(
        "invalid repaired date "@ + signed_decimal(year) + "-"@ + padded(month, 2) + "-"@ + padded(
            day,
            2,
        ),
    )
}

/// A table with a date put into the rows that a list of flags marks, and into
/// those without a date.
pub open spec fn redated(df: TableView, flags: Seq<bool>, days: i32) -> TableView {
    let c = df.column_of(DATE_COLUMN@);
    TableView {
        columns: df.columns,
        rows: Seq::new(
            df.rows.len(),
            |i: int|
                if flags[i] || df.rows[i][c] is Null {
                    df.rows[i].update(c, CellView::Date(days))
                } else {
                    df.rows[i]
                },
        ),
    }
}

/// The marked rows that have an id, among the first `n`, with their ids.
pub open spec fn marked_ids(df: TableView, flags: Seq<bool>, n: int) -> Seq<(int, Seq<char>)>
    decreases n,
{
    if n <= 0 {
        Seq::empty()
    } else {
        let rest = marked_ids(df, flags, n - 1);
        match (flags[n - 1], df.at(n - 1, ROW_ID_COLUMN@)) {
            (true, CellView::Text(id)) => rest.push((n - 1, id)),
            _ => rest,
        }
    }
}

/// Give every marked row the date of a year, month and day; every other row keeps
/// its own. Also gives the rows that changed, with their ids.
pub fn repair_dates(
    df: &Table,
    year: i32,
    month: u32,
    day: u32,
    flags: &Vec<bool>,
) -> (r: Result<(Table, Vec<(usize, String)>), Error>)
    requires
        flags@.len() == df@.rows.len(),
    ensures
        ({
            let named = df@.has_column(ROW_ID_COLUMN@) && df@.columns[df@.column_of(
                ROW_ID_COLUMN@,
            )].dtype is Text;
            match r {
                Ok((after, changed)) => {
                    &&& is_date(year as int, month as int, day as int)
                    &&& has_dates(df@)
                    &&& named
                    &&& after@ == redated(
                        df@,
                        flags@,
                        day_number(year as int, month as int, day as int) as i32,
                    )
                    &&& Seq::new(changed@.len(), |k: int| (changed@[k].0 as int, changed@[k].1@))
                        == marked_ids(df@, flags@, flags@.len() as int)
                },
                Err(e) => if !is_date(year as int, month as int, day as int) {
                    e@ == repaired_date_error(year as int, month as nat, day as nat)
                } else if !has_dates(df@) {
                    e@ == date_column_error()
                } else {
                    !named && e@ == key_column_error(ROW_ID_COLUMN@)
                },
            }
        }),
{
    let date = match Date::from_ymd(year, month, day) {
        Some(date) => date,
        None => {
            let mut message = "invalid repaired date ".to_owned();
            push_signed(&mut message, year as i64);
            message.append("-");
            push_padded(&mut message, month as u64, 2);
            message.append("-");
            push_padded(&mut message, day as u64, 2);
            return Err(Error::InvalidArgument(message));
        },
    };
    let c: usize = match find_dates(df) {
        Some(c) => c,
        None => {
            return Err(Error::Polars("no date column 'expense_date'".to_owned()));
        },
    };
    let id_column: usize = match df.find_column(ROW_ID_COLUMN) {
        Some(k) => if let DataType::Text = &df.column_at(k).dtype {
            k
        } else {
            return Err(
                Error::Polars("no text column '".to_owned().concat(ROW_ID_COLUMN).concat("'")),
            );
        },
        None => {
            return Err(
                Error::Polars("no text column '".to_owned().concat(ROW_ID_COLUMN).concat("'")),
            );
        },
    };
    proof {
        use_type_invariant(df);
    }
    let days: i32 = date.days();
    let ghost want = redated(df@, flags@, days);
    let mut after = df.clone();
    let mut changed: Vec<(usize, String)> = Vec::new();
    let mut i: usize = 0;
    assert(Seq::new(changed@.len(), |k: int| (changed@[k].0 as int, changed@[k].1@))
        =~= Seq::empty());
    while i < flags.len()
        invariant
            i <= flags@.len(),
            flags@.len() == df@.rows.len(),
            df@.wf(),
            has_dates(df@),
            c == df@.column_of(DATE_COLUMN@),
            c < df@.columns.len(),
            df@.columns[c as int].dtype is Date,
            id_column == df@.column_of(ROW_ID_COLUMN@),
            id_column < df@.columns.len(),
            want == redated(df@, flags@, days),
            after@.columns == df@.columns,
            after@.rows.len() == df@.rows.len(),
            forall|k: int| 0 <= k < i ==> #[trigger] after@.rows[k] == want.rows[k],
            forall|k: int| i <= k < flags@.len() ==> #[trigger] after@.rows[k] == df@.rows[k],
            Seq::new(changed@.len(), |k: int| (changed@[k].0 as int, changed@[k].1@))
                == marked_ids(df@, flags@, i as int),
        decreases flags@.len() - i,
    {
        let empty = matches!(df.cell_at(i, c), Cell::Null);
        if flags[i] || empty {
            after.set_cell(i, c, Cell::Date(days));
        }
        let id = df.cell_at(i, id_column);
        assert(id@ == df@.at(i as int, ROW_ID_COLUMN@));
        if flags[i] {
            if let Cell::Text(text) = id {
                let ghost before = Seq::new(
                    changed@.len(),
                    |k: int| (changed@[k].0 as int, changed@[k].1@),
                );
                changed.push((i, text.clone()));
                assert(Seq::new(changed@.len(), |k: int| (changed@[k].0 as int, changed@[k].1@))
                    =~= before.push((i as int, text@)));
            }
        }
        i = i + 1;
    }
    assert(after@.rows =~= want.rows);
    Ok((after, changed))
}

/// A repaired file needs no further repair: classified again, no row of it is
/// marked.
pub proof fn a_repaired_file_needs_no_repair(
    df: TableView,
    flags: Seq<bool>,
    year: int,
    month: int,
    day: int,
    i: int,
)
    requires
        df.wf(),
        has_dates(df),
        is_date(year, month, day),
        flags.len() == df.rows.len(),
        forall|k: int|
            0 <= k < flags.len() ==> (#[trigger] flags[k]) == needs_repair(
                df.rows[k][df.column_of(DATE_COLUMN@)],
                year,
                month,
            ),
        0 <= i < df.rows.len(),
    ensures
        !needs_repair(
            redated(df, flags, day_number(year, month, day) as i32).at(i, DATE_COLUMN@),
            year,
            month,
        ),
{
    let c = df.column_of(DATE_COLUMN@);
    let days = day_number(year, month, day);
    let after = redated(df, flags, days as i32);
    crate::dates::lemma_day_range(year, month, day);
    crate::dates::a_day_number_names_one_date(year, month, day);
    assert(row_fits(df.columns, df.rows[i]));
    assert(after.has_column(DATE_COLUMN@) == df.has_column(DATE_COLUMN@));
    assert(after.column_of(DATE_COLUMN@) == c);
    assert(flags[i] == needs_repair(df.rows[i][c], year, month));
    if flags[i] {
        assert(after.rows[i][c] == CellView::Date(days as i32));
    }
}

/// A repair changes nothing but the dates of the rows that need it.
pub proof fn a_repair_touches_only_wrong_dates(
    df: TableView,
    flags: Seq<bool>,
    year: int,
    month: int,
    days: i32,
    i: int,
    column: int,
)
    requires
        df.wf(),
        has_dates(df),
        flags.len() == df.rows.len(),
        forall|k: int|
            0 <= k < flags.len() ==> (#[trigger] flags[k]) == needs_repair(
                df.rows[k][df.column_of(DATE_COLUMN@)],
                year,
                month,
            ),
        0 <= i < df.rows.len(),
        0 <= column < df.columns.len(),
        column != df.column_of(DATE_COLUMN@) || !flags[i],
    ensures
        redated(df, flags, days).rows[i][column] == df.rows[i][column],
{
    assert(flags[i] == needs_repair(df.rows[i][df.column_of(DATE_COLUMN@)], year, month));
}

/// The counts of one file that has a row to repair.
#[derive(Debug, PartialEq, Eq)]
pub struct FileRepairCounts {
    pub path: String,
    /// All rows of the file.
    pub total_rows: usize,
    /// Rows without a date.
    pub class_a: usize,
    /// Rows with a date outside the month of the file.
    pub class_b: usize,
}

/// What one run found and did, in counts.
#[derive(Debug, PartialEq, Eq)]
pub struct ExpenseDateRepairReport {
    /// The files with a row to repair, in the order they were visited.
    pub files: Vec<FileRepairCounts>,
    /// Rows whose date was rewritten.
    pub rows_repaired: usize,
    /// The copy of the data taken before the first write.
    pub backup_dir: Option<String>,
    /// Files that could not be read, left unchanged.
    pub skipped_paths: Vec<String>,
    /// Whether the run was allowed to write.
    pub applied: bool,
}

/// The plural ending for a count.
pub open spec fn ending(count: nat) -> Seq<char> {
    if count == 1 {
        ""@
    } else {
        "s"@
    }
}

/// The plural ending for a count.
pub fn plural(count: usize) -> (r: &'static str)
    ensures
        r@ == ending(count as nat),
{
    if count == 1 {
        ""
    } else {
        "s"
    }
}

/// All rows without a date, in the first `n` files.
pub open spec fn total_a(files: Seq<FileRepairCounts>, n: int) -> nat
    decreases n,
{
    if n <= 0 {
        0
    } else {
        total_a(files, n - 1) + files[n - 1].class_a as nat
    }
}

/// All rows with a date outside their month, in the first `n` files.
pub open spec fn total_b(files: Seq<FileRepairCounts>, n: int) -> nat
    decreases n,
{
    if n <= 0 {
        0
    } else {
        total_b(files, n - 1) + files[n - 1].class_b as nat
    }
}

/// The line of one file.
pub open spec fn file_line(file: FileRepairCounts) -> Seq<char> {
    "  "@ + file.path@ + ": "@ + decimal(file.total_rows as nat) + " row"@ + ending(
        file.total_rows as nat,
    ) + " total, "@ + decimal(file.class_a as nat) + " class A, "@ + decimal(file.class_b as nat)
        + " class B\n"@
}

/// The lines of the first `n` files.
pub open spec fn file_lines(files: Seq<FileRepairCounts>, n: int) -> Seq<char>
    decreases n,
{
    if n <= 0 {
        Seq::empty()
    } else {
        file_lines(files, n - 1) + file_line(files[n - 1])
    }
}

impl ExpenseDateRepairReport {
    /// What was found.
    pub open spec fn findings(self) -> Seq<char> {
        let n = self.files@.len() as int;
        if n == 0 {
            "Expense date repair: no file has a class A or class B row.\n"@
        } else {
            "Expense date repair: "@ + decimal(n as nat) + " file"@ + ending(n as nat)
                + " affected, "@ + decimal(total_a(self.files@, n)) + " null-date row"@ + ending(
                total_a(self.files@, n),
            ) + " (class A), "@ + decimal(total_b(self.files@, n)) + " out-of-month row"@ + ending(
                total_b(self.files@, n),
            ) + " (class B).\n"@ + file_lines(self.files@, n)
        }
    }

    /// What was done.
    pub open spec fn deeds(self) -> Seq<char> {
        let n = self.files@.len();
        match (self.applied, self.backup_dir) {
            (false, _) => "Dry run: nothing was written."@,
            (true, None) => "Nothing needed writing, so no backup was taken."@,
            (true, Some(backup_dir)) => "Repaired "@ + decimal(self.rows_repaired as nat) + " row"@
                + ending(self.rows_repaired as nat) + " across "@ + decimal(n) + " file"@ + ending(n)
                + ". Backup: "@ + backup_dir@,
        }
    }

    /// What was skipped.
    pub open spec fn skips(self) -> Seq<char> {
        let n = self.skipped_paths@.len();
        if n == 0 {
            Seq::empty()
        } else {
            " Skipped "@ + decimal(n) + " unreadable path"@ + ending(n)
                + ", named in the warnings above."@
        }
    }

    /// The number of rows of each class.
    fn totals(&self) -> (r: (usize, usize))
        requires
            total_a(self.files@, self.files@.len() as int) <= usize::MAX,
            total_b(self.files@, self.files@.len() as int) <= usize::MAX,
        ensures
            r.0 == total_a(self.files@, self.files@.len() as int),
            r.1 == total_b(self.files@, self.files@.len() as int),
    {
        let n: usize = self.files.len();
        let mut a: usize = 0;
        let mut b: usize = 0;
        let mut i: usize = 0;
        while i < n
            invariant
                i <= n,
                n == self.files@.len(),
                a == total_a(self.files@, i as int),
                b == total_b(self.files@, i as int),
                total_a(self.files@, n as int) <= usize::MAX,
                total_b(self.files@, n as int) <= usize::MAX,
            decreases n - i,
        {
            proof {
                lemma_totals_grow(self.files@, i + 1, n as int);
            }
            a = a + self.files[i].class_a;
            b = b + self.files[i].class_b;
            i = i + 1;
        }
        (a, b)
    }

    /// What was found.
    fn findings_text(&self) -> (r: String)
        requires
            total_a(self.files@, self.files@.len() as int) <= usize::MAX,
            total_b(self.files@, self.files@.len() as int) <= usize::MAX,
        ensures
            r@ == self.findings(),
    {
        let n: usize = self.files.len();
        if n == 0 {
            return "Expense date repair: no file has a class A or class B row.\n".to_owned();
        }
        let (a, b) = self.totals();
        let mut out = "Expense date repair: ".to_owned();
        push_decimal(&mut out, n as u64);
        out.append(" file");
        out.append(plural(n));
        out.append(" affected, ");
        push_decimal(&mut out, a as u64);
        out.append(" null-date row");
        out.append(plural(a));
        out.append(" (class A), ");
        push_decimal(&mut out, b as u64);
        out.append(" out-of-month row");
        out.append(plural(b));
        out.append(" (class B).\n");
        let ghost top = out@;
        let mut k: usize = 0;
        assert(top + file_lines(self.files@, 0) =~= top);
        while k < n
            invariant
                k <= n,
                n == self.files@.len(),
                out@ == top + file_lines(self.files@, k as int),
            decreases n - k,
        {
            let ghost so_far = out@;
            let line = self.files[k].line();
            out.append(line.as_str());
            assert(out@ =~= top + file_lines(self.files@, k + 1));
            k = k + 1;
        }
        out
    }

    /// What was done.
    fn deeds_text(&self) -> (r: String)
        ensures
            r@ == self.deeds(),
    {
        if !self.applied {
            return "Dry run: nothing was written.".to_owned();
        }
        match &self.backup_dir {
            None => "Nothing needed writing, so no backup was taken.".to_owned(),
            Some(backup_dir) => {
                let mut out = "Repaired ".to_owned();
                push_decimal(&mut out, self.rows_repaired as u64);
                out.append(" row");
                out.append(plural(self.rows_repaired));
                out.append(" across ");
                push_decimal(&mut out, self.files.len() as u64);
                out.append(" file");
                out.append(plural(self.files.len()));
                out.append(". Backup: ");
                out.append(backup_dir.as_str());
                out
            },
        }
    }

    /// What was skipped.
    fn skips_text(&self) -> (r: String)
        ensures
            r@ == self.skips(),
    {
        let skipped: usize = self.skipped_paths.len();
        if skipped == 0 {
            let none = String::new();
            assert(none@ =~= Seq::empty());
            return none;
        }
        let mut out = " Skipped ".to_owned();
        push_decimal(&mut out, skipped as u64);
        out.append(" unreadable path");
        out.append(plural(skipped));
        out.append(", named in the warnings above.");
        out
    }

    /// The report as text.
    pub fn text(&self) -> (r: String)
        requires
            total_a(self.files@, self.files@.len() as int) <= usize::MAX,
            total_b(self.files@, self.files@.len() as int) <= usize::MAX,
        ensures
            r@ == self.findings() + self.deeds() + self.skips(),
    {
        self.findings_text().concat(self.deeds_text().as_str()).concat(self.skips_text().as_str())
    }
}

impl FileRepairCounts {
    /// The line of the file in the report.
    fn line(&self) -> (r: String)
        ensures
            r@ == file_line(*self),
    {
        let mut out = "  ".to_owned();
        out.append(self.path.as_str());
        out.append(": ");
        push_decimal(&mut out, self.total_rows as u64);
        out.append(" row");
        out.append(plural(self.total_rows));
        out.append(" total, ");
        push_decimal(&mut out, self.class_a as u64);
        out.append(" class A, ");
        push_decimal(&mut out, self.class_b as u64);
        out.append(" class B\n");
        out
    }
}

proof fn lemma_totals_grow(files: Seq<FileRepairCounts>, k: int, n: int)
    requires
        0 <= k <= n <= files.len(),
    ensures
        total_a(files, k) <= total_a(files, n),
        total_b(files, k) <= total_b(files, n),
    decreases n,
{
    if k < n {
        lemma_totals_grow(files, k, n - 1);
    }
}

} // verus!
