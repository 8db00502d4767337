//! What a refused request is answered: which requests are refused, as which kind of
//! failure, and what the message names.

use vstd::prelude::*;
use crate::cashflow::{income_error, income_set, CashflowView};
use crate::changes::{logged_cell, logged_number};
use crate::config::{
    kind_error, mapped_error, registered_error, unmapped_error, unregistered_error, MappingView,
};
use crate::dates::{is_day, text_of};
use crate::error::ErrorView;
use crate::expenses::{chosen_categories, dated, no_category_error};
use crate::facts::{fact_rate, FactView, RateKey};
use crate::frames::{row_ids_error, single_row};
use crate::fx::{code_of, offline_error, unreachable_error, year_month_error, ResolvedView};
use crate::fx_monthly::{monthly_rate, MonthlyView};
use crate::holdings::{
    asset_added, asset_category_set, figure_set, investment_category_error, which_error,
    HoldingsView,
};
use crate::merge_apply::{
    absent_row_error, description, found_rows, income_written, shared_id_error, single, written,
    WriteView, ROW_ID_COLUMN,
};
use crate::net_worth::{liquid_asset_added, liquid_category_set, liquidity_category_error};
use crate::numbers::{float_finite, FloatBits};
use crate::paths::month_error;
use crate::recurring::{day_error, template_added, RecurringView};
use crate::sync::ChangeTable;
use crate::table::{CellView, ColumnView, TableView};
use crate::text::{decimal, padded, signed_decimal};
use crate::wide::{is_free, is_named, label_of, SheetView};

verus! {

/// Whether a text occurs in another.
pub open spec fn occurs_in(part: Seq<char>, whole: Seq<char>) -> bool {
    exists|before: Seq<char>, after: Seq<char>| #[trigger] (before + part + after) == whole
}

pub proof fn lemma_occurs(before: Seq<char>, part: Seq<char>, after: Seq<char>, whole: Seq<char>)
    requires
        before + part + after =~= whole,
    ensures
        occurs_in(part, whole),
{
}

/// A failure is answered by its kind: a wrong argument or a message that makes no sense
/// with 400, what is not there with 404, what is there already or refused with 409,
/// changes that do not fit with 422, and a service or a log that cannot be had now with
/// 503. Everything else is a fault on this side, 500.
pub proof fn a_failure_is_answered_by_its_kind(e: ErrorView)
    ensures
        e.status() == 400 <==> e is InvalidArgument || e is SyncProtocol,
        e.status() == 404 <==> e is NotFound,
        e.status() == 409 <==> e is AlreadyExists || e is SyncRefused,
        e.status() == 422 <==> e is MergeRejected,
        e.status() == 503 <==> e is Network || e is SyncLogLocked,
        e.status() == 500 <==> e is Io || e is Json || e is Polars || e is NoHomeDir || e
            is RowIdsMissing || e is RowIdMigration || e is SyncResetBackup,
{
}

/// A failure is logged under the name of its kind.
pub proof fn a_failure_is_logged_under_its_kind(e: ErrorView)
    ensures
        e is Io ==> e.variant() == "Io"@,
        e is Json ==> e.variant() == "Json"@,
        e is Polars ==> e.variant() == "Polars"@,
        e is InvalidArgument ==> e.variant() == "InvalidArgument"@,
        e is NotFound ==> e.variant() == "NotFound"@,
        e is AlreadyExists ==> e.variant() == "AlreadyExists"@,
        e is NoHomeDir ==> e.variant() == "NoHomeDir"@,
        e is Network ==> e.variant() == "Network"@,
        e is RowIdsMissing ==> e.variant() == "RowIdsMissing"@,
        e is SyncLogLocked ==> e.variant() == "SyncLogLocked"@,
        e is MergeRejected ==> e.variant() == "MergeRejected"@,
        e is RowIdMigration ==> e.variant() == "RowIdMigration"@,
        e is SyncResetBackup ==> e.variant() == "SyncResetBackup"@,
        e is SyncProtocol ==> e.variant() == "SyncProtocol"@,
        e is SyncRefused ==> e.variant() == "SyncRefused"@,
{
}

/// A message tells what the failure was made with, and no message of a wrong argument or
/// of something missing says more.
pub proof fn a_message_tells_what_was_said(e: ErrorView, text: Seq<char>)
    ensures
        e == ErrorView::InvalidArgument(text) || e == ErrorView::NotFound(text) || e
            == ErrorView::AlreadyExists(text) || e == ErrorView::Network(text) || e
            == ErrorView::RowIdsMissing(text) || e == ErrorView::MergeRejected(text) || e
            == ErrorView::SyncResetBackup(text) || e == ErrorView::SyncProtocol(text) || e
            == ErrorView::SyncRefused(text) ==> e.message() == text,
        e == ErrorView::Io(text) || e == ErrorView::Json(text) || e == ErrorView::Polars(text) || e
            == ErrorView::SyncLogLocked(text) ==> occurs_in(text, e.message()),
        forall|source: Seq<char>|
            e == ErrorView::RowIdMigration(text, source) ==> occurs_in(text, e.message())
                && occurs_in(source, e.message()),
{
    match e {
        ErrorView::Io(m) => lemma_occurs("I/O error: "@, m, Seq::empty(), e.message()),
        ErrorView::Json(m) => lemma_occurs("JSON error: "@, m, Seq::empty(), e.message()),
        ErrorView::Polars(m) => lemma_occurs("polars error: "@, m, Seq::empty(), e.message()),
        ErrorView::SyncLogLocked(m) => lemma_occurs(
            "the sync change log at "@,
            m,
            " is already open: another process, or another handle in this one, holds it. Only one writer at a time may append, because two would issue the same stamps."@,
            e.message(),
        ),
        ErrorView::RowIdMigration(path, source) => {
            lemma_occurs("row ID migration failed for "@, path, ": "@ + source, e.message());
            lemma_occurs(
                "row ID migration failed for "@ + path + ": "@,
                source,
                Seq::empty(),
                e.message(),
            );
        },
        _ => {},
    }
}

/// A month that is none of the twelve is a wrong argument, in every request for one.
pub proof fn a_month_is_one_of_twelve(
    month: u32,
    cashflow: CashflowView,
    category: Seq<char>,
    value: FloatBits,
    holdings: HoldingsView,
    name: Seq<char>,
    which: Seq<char>,
)
    ensures
        label_of(month) is Ok <==> 1 <= month <= 12,
        label_of(month) matches Err(e) ==> e.status() == 400 && occurs_in(
            decimal(month as nat),
            e.message(),
        ),
        !(1 <= month <= 12) ==> {
            &&& income_set(cashflow, month, category, value) matches Err(e) && e.status() == 400
            &&& figure_set(holdings, name, month, value, which).1 matches Err(e) && e.status()
                == 400
            &&& figure_set(holdings, name, month, value, which).0 == holdings
        },
{
    lemma_occurs(
        "month must be between 1 and 12, got "@,
        decimal(month as nat),
        Seq::empty(),
        month_error(month as nat).message(),
    );
}

/// A category that a table does not have is a wrong argument, and the message names it:
/// income is of four kinds, and an investment and a liquid asset of three each.
pub proof fn a_category_is_one_of_its_table(
    category: Seq<char>,
    cashflow: CashflowView,
    month: u32,
    value: FloatBits,
    holdings: HoldingsView,
    sheet: SheetView,
    year: i32,
    name: Seq<char>,
    link: Seq<char>,
    currency: Seq<char>,
    row_id: Seq<char>,
)
    ensures
        category != "Salary"@ && category != "Interests Bank account"@ && category
            != "Dividendi e Cedole"@ && category != "Other"@ ==> (income_set(
            cashflow,
            month,
            category,
            value,
        ) matches Err(e) && e.status() == 400 && occurs_in(category, e.message())),
        category != "Stocks/ETF"@ && category != "Commodities"@ && category != "Bonds"@ ==> {
            let added = asset_added(holdings, name, category, link, currency, row_id);
            let moved = asset_category_set(holdings, name, category);
            &&& added.1 matches Err(e) && e.status() == 400 && occurs_in(category, e.message())
            &&& added.0 == holdings
            &&& is_named(holdings.df, "asset_name"@, "Asset"@, name) is Ok ==> (moved.1 matches Err(
                e,
            ) && e.status() == 400 && occurs_in(category, e.message()))
            &&& moved.0 == holdings
        },
        category != "Bank/Broker account"@ && category != "Cash"@ && category != "Other"@ ==> {
            let added = liquid_asset_added(sheet, year, name, category, currency, row_id);
            let moved = liquid_category_set(sheet, year, name, category);
            &&& added matches Err(e) && e.status() == 400 && occurs_in(category, e.message())
            &&& is_named(sheet.df, "asset_name"@, "Asset"@, name) is Ok ==> (moved matches Err(e)
                && e.status() == 400 && occurs_in(category, e.message()))
        },
{
    lemma_occurs(
        "'"@,
        category,
        "' is not a valid income category. Choose from: [\"Salary\", \"Interests Bank account\", \"Dividendi e Cedole\", \"Other\"]"@,
        income_error(category).message(),
    );
    lemma_occurs(
        "'"@,
        category,
        "' is not a valid category. Choose from: [\"Stocks/ETF\", \"Commodities\", \"Bonds\"]"@,
        investment_category_error(category).message(),
    );
    lemma_occurs(
        "'"@,
        category,
        "' is not a valid category. Choose from: [\"Bank/Broker account\", \"Cash\", \"Other\"]"@,
        liquidity_category_error(category).message(),
    );
}

/// An asset has a quantity and a price. A figure of another kind is a wrong argument and
/// changes nothing.
pub proof fn a_figure_is_a_quantity_or_a_price(
    holdings: HoldingsView,
    name: Seq<char>,
    month: u32,
    value: FloatBits,
    which: Seq<char>,
)
    requires
        1 <= month <= 12,
        is_named(holdings.df, "asset_name"@, "Asset"@, name) is Ok,
        which != "quantity"@,
        which != "price"@,
    ensures
        figure_set(holdings, name, month, value, which).0 == holdings,
        figure_set(holdings, name, month, value, which).1 matches Err(e) && e.status() == 400
            && occurs_in(which, e.message()),
{
    lemma_occurs(
        "quant_or_price must be 'quantity' or 'price', got '"@,
        which,
        "'"@,
        which_error(which).message(),
    );
}

/// The day of a template is one that every month has. Any other is a wrong argument, and
/// the message names it.
pub proof fn the_day_of_a_template_is_in_every_month(
    templates: RecurringView,
    row_id: Seq<char>,
    name: Seq<char>,
    day: i64,
    amount: FloatBits,
    currency: Seq<char>,
    primary: Seq<char>,
    secondary: Seq<char>,
)
    requires
        day < 1 || day > 28,
    ensures
        template_added(
            templates,
            row_id,
            name,
            day,
            amount,
            currency,
            primary,
            secondary,
        ) matches Err(e) && e.status() == 400 && occurs_in(signed_decimal(day as int), e.message()),
{
    lemma_occurs(
        "expense_day must be between 1 and 28, got "@,
        signed_decimal(day as int),
        Seq::empty(),
        day_error(day).message(),
    );
}

/// An expense has the categories it was given, and those that are mapped to its name
/// where it was given none. Only an expense without a primary category from either is
/// refused, as a wrong argument that names the expense.
pub proof fn an_expense_without_a_category_is_refused(
    name: Seq<char>,
    primary: Option<Seq<char>>,
    secondary: Option<Seq<char>>,
    mapping: Option<MappingView>,
)
    ensures
        chosen_categories(name, primary, secondary, mapping) is Err <==> primary is None && mapping
            is None,
        chosen_categories(name, primary, secondary, mapping) matches Err(e) ==> e.status() == 400
            && occurs_in(name, e.message()),
        chosen_categories(name, primary, secondary, mapping) matches Ok(pair) ==> {
            &&& primary is Some ==> pair.0 == primary->0
            &&& primary is None ==> pair.0 == mapping->0.primary
            &&& secondary is Some ==> pair.1 == secondary->0
            &&& secondary is None && mapping is Some ==> pair.1 == mapping->0.secondary
            &&& secondary is None && mapping is None ==> pair.1.len() == 0
        },
{
    reveal_strlit("");
    lemma_occurs(
        "No category mapping found for '"@,
        name,
        "' and no primary_category was provided. Either add a mapping via config.add_mapping() or pass primary_category explicitly."@,
        no_category_error(name).message(),
    );
}

/// A day that its month does not have is a wrong argument.
pub proof fn a_day_its_month_lacks_is_refused(year: i32, month: u32, day: u32)
    ensures
        day == 0 || day > 31 || month == 0 || month > 12 ==> dated(year, month, day) is Err,
        dated(year, month, day) matches Err(e) ==> e.status() == 400,
        dated(year, month, day) is Ok ==> dated(year, month, 1) is Ok,
{
}

/// A row is asked for by its id. One that is not there is answered as missing, and one
/// of several that share the id as a clash; either message names the id.
pub proof fn a_row_asked_for_is_there_once(
    df: TableView,
    row_id: Seq<char>,
    kind: Seq<char>,
    place: Seq<char>,
    e: ErrorView,
)
    requires
        single_row(df, row_id, kind, place) == Err::<(), ErrorView>(e),
        e is NotFound || e is AlreadyExists,
    ensures
        e.status() == 404 || e.status() == 409,
        occurs_in(row_id, e.message()),
        occurs_in(kind, e.message()),
        occurs_in(place, e.message()),
{
    let no_row = "No "@ + kind + " with id '"@ + row_id + "' in "@ + place + "."@;
    lemma_occurs("No "@, kind, " with id '"@ + row_id + "' in "@ + place + "."@, no_row);
    lemma_occurs("No "@ + kind + " with id '"@, row_id, "' in "@ + place + "."@, no_row);
    lemma_occurs("No "@ + kind + " with id '"@ + row_id + "' in "@, place, "."@, no_row);
    if let Ok(found) = found_rows(df, ROW_ID_COLUMN@, row_id) {
        let n = decimal(found.len());
        let end = "', so nothing was changed. Each row ID must be unique; the data file needs repair."@;
        let shared = n + " "@ + kind + " rows in "@ + place + " share the id '"@ + row_id + end;
        lemma_occurs(n + " "@, kind, " rows in "@ + place + " share the id '"@ + row_id + end, shared);
        lemma_occurs(n + " "@ + kind + " rows in "@, place, " share the id '"@ + row_id + end, shared);
        lemma_occurs(
            n + " "@ + kind + " rows in "@ + place + " share the id '"@,
            row_id,
            end,
            shared,
        );
    }
}

/// A name that no row has is answered as missing, and one that a row has already as a
/// clash; either message names it.
pub proof fn a_name_is_told_in_the_answer(
    df: TableView,
    key: Seq<char>,
    kind: Seq<char>,
    name: Seq<char>,
    e: ErrorView,
)
    ensures
        is_named(df, key, kind, name) == Err::<(), ErrorView>(e) && e is NotFound ==> occurs_in(
            name,
            e.message(),
        ),
        is_free(df, key, kind, name) == Err::<(), ErrorView>(e) && e is AlreadyExists ==> occurs_in(
            name,
            e.message(),
        ),
{
    lemma_occurs(kind + " '"@, name, "' not found."@, kind + " '"@ + name + "' not found."@);
    lemma_occurs(
        kind + " '"@,
        name,
        "' already exists."@,
        kind + " '"@ + name + "' already exists."@,
    );
}

/// A rate that was not looked up is answered as missing, and the message names the
/// currency. It is never taken to be one.
pub proof fn a_rate_not_looked_up_is_missing(
    fact: FactView,
    reference: Seq<char>,
    found: Map<RateKey, ResolvedView>,
    rates: MonthlyView,
    month: int,
    currency: Seq<char>,
)
    requires
        month >= 0,
    ensures
        fact_rate(fact, reference, found) is Err <==> code_of(fact.currency) != code_of(reference)
            && !found.contains_key((fact.date, code_of(fact.currency))),
        fact_rate(fact, reference, found) matches Err(e) ==> e.status() == 404 && occurs_in(
            code_of(fact.currency),
            e.message(),
        ),
        monthly_rate(rates, month, currency) matches Err(e) ==> e.status() == 404 && occurs_in(
            code_of(currency),
            e.message(),
        ),
{
    let code = code_of(fact.currency);
    let day = text_of(fact.date);
    let end = "; it was not included in the rates passed to resolve_fact"@;
    lemma_occurs(
        "no resolved FX rate for '"@,
        code,
        "' on "@ + day + end,
        "no resolved FX rate for '"@ + code + "' on "@ + day + end,
    );
    let of = padded(month as nat, 2);
    let rest = "; it was not included in the currencies passed to monthly_rates"@;
    lemma_occurs(
        "no resolved FX rate for '"@,
        code_of(currency),
        "' in month "@ + of + rest,
        "no resolved FX rate for '"@ + code_of(currency) + "' in month "@ + of + rest,
    );
}

/// What the configuration refuses: a kind of category that there is not as a wrong
/// argument, a mapping or a category that is there already as a clash, and one that is
/// not there as missing. Each message names what was asked for.
pub proof fn the_configuration_names_what_it_refuses(
    kind: Seq<char>,
    name: Seq<char>,
    existing: MappingView,
)
    ensures
        kind_error(kind).status() == 400 && occurs_in(kind, kind_error(kind).message()),
        mapped_error(name, existing).status() == 409 && occurs_in(
            name,
            mapped_error(name, existing).message(),
        ) && occurs_in(existing.primary, mapped_error(name, existing).message()) && occurs_in(
            existing.secondary,
            mapped_error(name, existing).message(),
        ),
        unmapped_error(name).status() == 404 && occurs_in(name, unmapped_error(name).message()),
        registered_error(name, kind).status() == 409 && occurs_in(
            name,
            registered_error(name, kind).message(),
        ) && occurs_in(kind, registered_error(name, kind).message()),
        unregistered_error(name, kind).status() == 404 && occurs_in(
            name,
            unregistered_error(name, kind).message(),
        ) && occurs_in(kind, unregistered_error(name, kind).message()),
{
    lemma_occurs(
        "kind must be 'primary' or 'secondary', got '"@,
        kind,
        "'"@,
        kind_error(kind).message(),
    );
    let end = "'}. Pass overwrite=true to replace it."@;
    let mapped = mapped_error(name, existing).message();
    lemma_occurs(
        "Mapping for '"@,
        name,
        "' already exists: {'primary_category': '"@ + existing.primary
            + "', 'secondary_category': '"@ + existing.secondary + end,
        mapped,
    );
    lemma_occurs(
        "Mapping for '"@ + name + "' already exists: {'primary_category': '"@,
        existing.primary,
        "', 'secondary_category': '"@ + existing.secondary + end,
        mapped,
    );
    lemma_occurs(
        "Mapping for '"@ + name + "' already exists: {'primary_category': '"@ + existing.primary
            + "', 'secondary_category': '"@,
        existing.secondary,
        end,
        mapped,
    );
    lemma_occurs("No mapping found for '"@, name, "'."@, unmapped_error(name).message());
    let registered = registered_error(name, kind).message();
    lemma_occurs("Category '"@, name, "' already exists in "@ + kind + " categories."@, registered);
    lemma_occurs("Category '"@ + name + "' already exists in "@, kind, " categories."@, registered);
    let unregistered = unregistered_error(name, kind).message();
    lemma_occurs("Category '"@, name, "' not found in "@ + kind + " categories."@, unregistered);
    lemma_occurs("Category '"@ + name + "' not found in "@, kind, " categories."@, unregistered);
}

/// Quotes that cannot be had are answered as missing, with the network off and with the
/// network failing; then the message tells why it failed. A month without an end is a
/// wrong argument, and rows without ids are a fault of the stored data.
pub proof fn what_cannot_be_had_is_told(
    date: int,
    failure: ErrorView,
    year: int,
    month: nat,
    path: Seq<char>,
)
    ensures
        offline_error(date).status() == 404,
        unreachable_error(date, failure).status() == 404,
        occurs_in(failure.message(), unreachable_error(date, failure).message()),
        occurs_in(text_of(date), offline_error(date).message()),
        occurs_in(text_of(date), unreachable_error(date, failure).message()),
        year_month_error(year, month).status() == 400,
        row_ids_error(path).status() == 500,
        row_ids_error(path) is RowIdsMissing,
        occurs_in(path, row_ids_error(path).message()),
{
    let day = text_of(date);
    lemma_occurs(
        "no cached FX rate on or before "@,
        day,
        ", and FINGUARD_FX_OFFLINE disables the network"@,
        offline_error(date).message(),
    );
    lemma_occurs(
        "no cached FX rate on or before "@,
        day,
        ", and the network failed: "@ + failure.message(),
        unreachable_error(date, failure).message(),
    );
    lemma_occurs(
        "no cached FX rate on or before "@ + day + ", and the network failed: "@,
        failure.message(),
        Seq::empty(),
        unreachable_error(date, failure).message(),
    );
    lemma_row_ids(path);
}

proof fn lemma_row_ids(path: Seq<char>)
    ensures
        occurs_in(path, row_ids_error(path).message()),
{
    lemma_occurs(
        Seq::empty(),
        path,
        " has rows without a row ID. Restart the finguard backend: at startup it backs up the data folder and assigns the missing row IDs."@,
        row_ids_error(path).message(),
    );
}

/// The change log carries every number that is finite, as it is, and every other cell
/// but for a day outside the calendar and a value of a type the tables do not know.
/// Those are wrong arguments.
pub proof fn the_log_carries_what_has_a_form(column: ColumnView, cell: CellView, number: FloatBits)
    ensures
        logged_number(number) is Ok <==> float_finite(number),
        logged_number(number) matches Err(e) ==> e.status() == 400,
        logged_cell(column, cell) is Err <==> {
            ||| cell matches CellView::Float(n) && !float_finite(n)
            ||| cell matches CellView::Date(days) && !is_day(days as int)
            ||| cell is Opaque
        },
        logged_cell(column, cell) matches Err(e) ==> e.status() == 400,
{
}

/// A batch whose write does not fit the table is answered with 422, and one for a row
/// that is not there or that shares its id as missing or as a clash. Whole rows of income
/// and columns that are no month do not fit.
pub proof fn a_write_that_does_not_fit_is_refused(
    df: TableView,
    table: ChangeTable,
    row_id: Seq<char>,
    write: WriteView,
    found: Seq<int>,
)
    ensures
        single(found, table, row_id) is Err <==> found.len() > 1,
        single(found, table, row_id) matches Err(e) ==> e.status() == 409 && occurs_in(
            row_id,
            e.message(),
        ),
        !(write is SetCells) ==> (income_written(df, table, row_id, write) matches Err(e)
            && e.status() == 422),
        row_id != "Salary"@ && row_id != "Interests Bank account"@ && row_id
            != "Dividendi e Cedole"@ && row_id != "Other"@ ==> (income_written(
            df,
            table,
            row_id,
            write,
        ) matches Err(e) && e.status() == 422),
        found_rows(df, "row_id"@, row_id) == Ok::<Seq<int>, ErrorView>(
            Seq::empty(),
        ) && write is SetCells ==> (written(df, table, row_id, write) matches Err(e) && e.status()
            == 404 && occurs_in(row_id, e.message())),
        found_rows(df, "row_id"@, row_id) == Ok::<Seq<int>, ErrorView>(
            Seq::empty(),
        ) && write is Delete ==> written(df, table, row_id, write) == Ok::<
            (TableView, bool),
            ErrorView,
        >((df, false)),
{
    let of = description(table);
    lemma_occurs(
        decimal(found.len()) + " rows of "@ + of + " share the id '"@,
        row_id,
        "', so the merge changed nothing. Each row ID must be unique; the data file needs repair."@,
        shared_id_error(found.len(), table, row_id).message(),
    );
    lemma_occurs(
        "No row with id '"@,
        row_id,
        "' in "@ + of + ", so the merge cannot set cells of it."@,
        absent_row_error(table, row_id).message(),
    );
}

} // verus!
