//! What an edit gives is what the expense then holds, and what is deleted is gone.

use vstd::prelude::*;
use crate::categories::{existing_categories, named, normalized, resolved, same_name};
use crate::change_laws::lemma_logged_row;
use crate::changes::{logged_cell, upsert_op};
use crate::config::KnownView;
use crate::dates::{
    a_day_number_names_one_date, civil, is_date, is_day, lemma_day_range, text_of,
};
use crate::error::ErrorView;
use crate::expense_laws::{an_edit_changes_what_it_names, with_amounts};
use crate::expenses::{
    category_to_set, day_to_set, edited_df, expense_deleted, expense_edited, maybe_set, text_to_set,
    ExpenseEdit, ExpensesView,
};
use crate::fact_laws::lemma_row_is_logged;
use crate::frame_laws::setting_sets_the_matches;
use crate::frames::{cell_text, has_texts, single_row};
use crate::merge_apply::{found_rows, lemma_matching_rows, ROW_ID_COLUMN};
use crate::numbers::{float_finite, FloatBits};
use crate::recurring::{template_removed, RecurringView};
use crate::rows::{Number, ValueView};
use crate::sheet_laws::{is_kept, is_without, removing_leaves_the_others};
use crate::sync::{ChangeTable, OpView};
use crate::table::{fits, matching_rows, row_fits, CellView, DataTypeView, TableView};
use crate::text::lower_case;

verus! {

/// Whether a category is in use in a column of a table.
pub open spec fn is_in_use(df: TableView, column: Seq<char>, category: Seq<char>) -> bool {
    category.len() > 0 && has_texts(df, column) && exists|r: int|
        0 <= r < df.rows.len() && #[trigger] df.at(r, column) == CellView::Text(category)
}

/// The known categories for a column of an expense.
pub open spec fn known_for(column: Seq<char>, known: Option<KnownView>) -> Seq<Seq<char>> {
    match known {
        None => Seq::empty(),
        Some(known) => if column == "primary_category"@ {
            known.primary
        } else {
            known.secondary
        },
    }
}

proof fn lemma_named(list: Seq<Seq<char>>, text: Seq<char>)
    ensures
        named(list).contains(text) <==> text.len() > 0 && list.contains(text),
    decreases list.len(),
{
    reveal(Seq::filter);
    if list.len() > 0 {
        let rest = list.drop_last();
        lemma_named(rest, text);
        assert(named(list) == if list.last().len() > 0 {
            named(rest).push(list.last())
        } else {
            named(rest)
        });
        if list.contains(text) {
            let i = choose|i: int| 0 <= i < list.len() && list[i] == text;
            if i < list.len() - 1 {
                assert(rest[i] == text);
            }
        }
        if rest.contains(text) {
            let i = choose|i: int| 0 <= i < rest.len() && rest[i] == text;
            assert(list[i] == text);
        }
        if named(list).contains(text) {
            let i = choose|i: int| 0 <= i < named(list).len() && named(list)[i] == text;
            if i < named(rest).len() {
                assert(named(rest)[i] == text);
            } else {
                assert(list[list.len() - 1] == text);
            }
        }
        if named(rest).contains(text) {
            let i = choose|i: int| 0 <= i < named(rest).len() && named(rest)[i] == text;
            assert(named(list)[i] == text);
        }
        if list.last() == text && text.len() > 0 {
            assert(named(list)[named(rest).len() as int] == text);
        }
    }
}

spec fn used_in(df: TableView, column: Seq<char>) -> Seq<Seq<char>> {
    if has_texts(df, column) {
        named(Seq::new(df.rows.len(), |i: int| cell_text(df.rows[i][df.column_of(column)])))
    } else {
        Seq::empty()
    }
}

proof fn lemma_used(df: TableView, column: Seq<char>, text: Seq<char>)
    ensures
        used_in(df, column).contains(text) <==> is_in_use(df, column, text),
{
    if has_texts(df, column) {
        let list = Seq::new(df.rows.len(), |i: int| cell_text(df.rows[i][df.column_of(column)]));
        lemma_named(list, text);
        if text.len() > 0 && list.contains(text) {
            let i = choose|i: int| 0 <= i < list.len() && list[i] == text;
            assert(df.at(i, column) == CellView::Text(text));
        }
        if is_in_use(df, column, text) {
            let r = choose|r: int|
                0 <= r < df.rows.len() && #[trigger] df.at(r, column) == CellView::Text(text);
            assert(list[r] == text);
        }
    }
}

/// The existing categories are those in use in the column and those known for it.
pub proof fn the_existing_categories_are_used_or_known(
    df: TableView,
    column: Seq<char>,
    known: Option<KnownView>,
    category: Seq<char>,
)
    ensures
        existing_categories(df, column, known).contains(category) <==> is_in_use(
            df,
            column,
            category,
        ) || (category.len() > 0 && known_for(column, known).contains(category)),
{
    let used = used_in(df, column);
    let all = existing_categories(df, column, known);
    lemma_used(df, column, category);
    if let Some(it) = known {
        let more = named(known_for(column, known));
        lemma_named(known_for(column, known), category);
        assert(all == used + more);
        if all.contains(category) {
            let i = choose|i: int| 0 <= i < all.len() && all[i] == category;
            if i < used.len() {
                assert(used[i] == category);
            } else {
                assert(more[i - used.len()] == category);
            }
        }
        if used.contains(category) {
            let i = choose|i: int| 0 <= i < used.len() && used[i] == category;
            assert(all[i] == category);
        }
        if more.contains(category) {
            let i = choose|i: int| 0 <= i < more.len() && more[i] == category;
            assert(all[used.len() + i] == category);
        }
    } else {
        assert(all == used);
    }
}

proof fn lemma_same_name_first(existing: Seq<Seq<char>>, lower: Seq<char>, n: int)
    requires
        0 <= n <= existing.len(),
    ensures
        match same_name(existing, lower, n) {
            None => forall|i: int| 0 <= i < n ==> lower_case(#[trigger] existing[i]) != lower,
            Some(found) => exists|i: int|
                0 <= i < n && #[trigger] existing[i] == found && lower_case(found) == lower && (
                forall|k: int| 0 <= k < i ==> lower_case(#[trigger] existing[k]) != lower),
        },
    decreases n,
{
    if n > 0 {
        lemma_same_name_first(existing, lower, n - 1);
        if same_name(existing, lower, n - 1) is None && lower_case(existing[n - 1]) == lower {
            assert(existing[n - 1] == same_name(existing, lower, n)->0);
        }
    }
}

/// Whether a category is spelled as a value is to be: as it is in use in the column,
/// else as it is known, else in its canonical spelling. An empty one stays empty.
pub open spec fn is_spelling_for(
    category: Seq<char>,
    value: Seq<char>,
    df: TableView,
    column: Seq<char>,
    known: Option<KnownView>,
) -> bool {
    if value.len() == 0 {
        category == value
    } else if exists|it: Seq<char>| #[trigger]
        is_in_use(df, column, it) && lower_case(it) == lower_case(value) {
        is_in_use(df, column, category) && lower_case(category) == lower_case(value)
    } else if exists|it: Seq<char>|
        it.len() > 0 && #[trigger] known_for(column, known).contains(it) && lower_case(it)
            == lower_case(value) {
        known_for(column, known).contains(category) && lower_case(category) == lower_case(value)
    } else {
        category == normalized(value)
    }
}

/// A category is spelled as it is in use, else as it is known, else canonically.
pub proof fn a_category_is_spelled_as_it_exists(
    value: Seq<char>,
    df: TableView,
    column: Seq<char>,
    known: Option<KnownView>,
)
    ensures
        is_spelling_for(
            resolved(value, existing_categories(df, column, known)),
            value,
            df,
            column,
            known,
        ),
{
    if value.len() > 0 {
        let all = existing_categories(df, column, known);
        let used = used_in(df, column);
        let lower = lower_case(value);
        let category = resolved(value, all);
        lemma_same_name_first(all, lower, all.len() as int);
        assert forall|i: int| 0 <= i < used.len() implies all[i] == used[i] by {}
        if exists|it: Seq<char>| #[trigger]
            is_in_use(df, column, it) && lower_case(it) == lower_case(value) {
            let it = choose|it: Seq<char>| #[trigger]
                is_in_use(df, column, it) && lower_case(it) == lower_case(value);
            lemma_used(df, column, it);
            let j = choose|j: int| 0 <= j < used.len() && used[j] == it;
            assert(all[j] == it);
            let i = choose|i: int|
                0 <= i < all.len() && #[trigger] all[i] == category && lower_case(category) == lower
                    && (forall|k: int| 0 <= k < i ==> lower_case(#[trigger] all[k]) != lower);
            assert(i <= j);
            assert(used[i] == category);
            assert(used.contains(category));
            lemma_used(df, column, category);
        } else if exists|it: Seq<char>|
            it.len() > 0 && #[trigger] known_for(column, known).contains(it) && lower_case(it)
                == lower_case(value) {
            let it = choose|it: Seq<char>|
                it.len() > 0 && #[trigger] known_for(column, known).contains(it) && lower_case(it)
                    == lower_case(value);
            the_existing_categories_are_used_or_known(df, column, known, it);
            let j = choose|j: int| 0 <= j < all.len() && all[j] == it;
            assert(lower_case(all[j]) == lower);
            let i = choose|i: int|
                0 <= i < all.len() && #[trigger] all[i] == category && lower_case(category) == lower
                    && (forall|k: int| 0 <= k < i ==> lower_case(#[trigger] all[k]) != lower);
            assert(all.contains(category));
            the_existing_categories_are_used_or_known(df, column, known, category);
        } else {
            assert forall|i: int| 0 <= i < all.len() implies lower_case(#[trigger] all[i])
                != lower by {
                assert(all.contains(all[i]));
                the_existing_categories_are_used_or_known(df, column, known, all[i]);
            }
        }
    }
}

/// Whether a month has the columns of an expense that an edit can set.
pub open spec fn can_be_edited(df: TableView) -> bool {
    &&& df.has_column("expense_name"@)
    &&& df.has_column("expense_date"@)
    &&& df.has_column("expense_amount"@)
    &&& df.has_column("currency"@)
    &&& df.has_column("primary_category"@)
    &&& df.has_column("secondary_category"@)
}

/// Whether a text cell was set to what was given, or stayed where nothing was given.
pub open spec fn text_given(before: CellView, after: CellView, given: Option<Seq<char>>) -> bool {
    match given {
        Some(text) => after == CellView::Text(text),
        None => after == before,
    }
}

/// Whether an amount was set to what was given, or stayed where nothing was given.
pub open spec fn amount_given(before: CellView, after: CellView, given: Option<FloatBits>) -> bool {
    match given {
        Some(amount) => after == CellView::Float(amount),
        None => after == before,
    }
}

/// Whether a date was set to a day of a month, or stayed where nothing was given.
pub open spec fn day_given(
    before: CellView,
    after: CellView,
    year: i32,
    month: u32,
    given: Option<u32>,
) -> bool {
    match given {
        Some(day) => after matches CellView::Date(days) && civil(days as int) == (
            year as int,
            month as int,
            day as int,
        ),
        None => after == before,
    }
}

/// Whether a category was set to what was given, as the month spells it, or stayed
/// where nothing was given.
pub open spec fn category_given(
    before: CellView,
    after: CellView,
    given: Option<Seq<char>>,
    df: TableView,
    column: Seq<char>,
    known: Option<KnownView>,
) -> bool {
    match given {
        Some(value) => after matches CellView::Text(category) && is_spelling_for(
            category,
            value,
            df,
            column,
            known,
        ),
        None => after == before,
    }
}

/// An edited expense holds what was given: the name, the day in this month, the amount
/// and the currency as they are, and the categories as the month spells them. What was
/// not given it holds as before, and so does every other expense, but that whole
/// amounts may have become double precision numbers. One change is recorded, of this
/// row of this month.
pub proof fn an_edited_expense_holds_what_was_given(
    month: ExpensesView,
    row_id: Seq<char>,
    edit: ExpenseEdit,
    known: Option<KnownView>,
    r: int,
    name: Seq<char>,
)
    requires
        month.df.wf(),
        can_be_edited(month.df),
        expense_edited(month, row_id, edit, known) is Ok,
        0 <= r < month.df.rows.len(),
        month.df.has_column(name),
    ensures
        ({
            let after = expense_edited(month, row_id, edit, known)->Ok_0;
            let df = month.df;
            &&& after.year == month.year
            &&& after.month == month.month
            &&& after.path == month.path
            &&& after.df.rows.len() == df.rows.len()
            &&& df.at(r, "row_id"@) != CellView::Text(row_id) ==> is_kept(
                df.at(r, name),
                after.df.at(r, name),
            )
            &&& df.at(r, "row_id"@) == CellView::Text(row_id) ==> {
                &&& text_given(
                    df.at(r, "expense_name"@),
                    after.df.at(r, "expense_name"@),
                    edit.name,
                )
                &&& day_given(
                    df.at(r, "expense_date"@),
                    after.df.at(r, "expense_date"@),
                    month.year,
                    month.month,
                    edit.day,
                )
                &&& amount_given(
                    df.at(r, "expense_amount"@),
                    after.df.at(r, "expense_amount"@),
                    edit.amount,
                )
                &&& text_given(
                    df.at(r, "currency"@),
                    after.df.at(r, "currency"@),
                    edit.currency,
                )
                &&& category_given(
                    df.at(r, "primary_category"@),
                    after.df.at(r, "primary_category"@),
                    edit.primary,
                    df,
                    "primary_category"@,
                    known,
                )
                &&& category_given(
                    df.at(r, "secondary_category"@),
                    after.df.at(r, "secondary_category"@),
                    edit.secondary,
                    df,
                    "secondary_category"@,
                    known,
                )
                &&& name != "expense_name"@ && name != "expense_date"@ && name
                    != "expense_amount"@ && name != "currency"@ && name != "primary_category"@
                    && name != "secondary_category"@ ==> after.df.at(r, name) == df.at(r, name)
            }
            &&& after.changes.len() == month.changes.len() + 1
            &&& after.changes.drop_last() == month.changes
            &&& after.changes.last().table == (ChangeTable::Expenses {
                year: month.year,
                month: month.month,
            })
            &&& after.changes.last().row_id == row_id
            &&& after.changes.last().origin is None
        }),
{
    let after = expense_edited(month, row_id, edit, known)->Ok_0;
    let df = month.df;
    crate::expenses::lemma_expense_columns();
    let columns = crate::expenses::expense_columns();
    assert(columns[0].name == "expense_name"@ && columns[1].name == "expense_date"@
        && columns[2].name == "expense_amount"@ && columns[3].name == "currency"@ && columns[4].name
        == "primary_category"@ && columns[5].name == "secondary_category"@);
    an_edit_changes_what_it_names(month, row_id, edit, known, r, "expense_name"@);
    an_edit_changes_what_it_names(month, row_id, edit, known, r, "expense_date"@);
    an_edit_changes_what_it_names(month, row_id, edit, known, r, "expense_amount"@);
    an_edit_changes_what_it_names(month, row_id, edit, known, r, "currency"@);
    an_edit_changes_what_it_names(month, row_id, edit, known, r, "primary_category"@);
    an_edit_changes_what_it_names(month, row_id, edit, known, r, "secondary_category"@);
    an_edit_changes_what_it_names(month, row_id, edit, known, r, name);
    if let Some(day) = edit.day {
        assert(is_date(month.year as int, month.month as int, day as int));
        a_day_number_names_one_date(month.year as int, month.month as int, day as int);
        lemma_day_range(month.year as int, month.month as int, day as int);
        assert(day_to_set(month.year, month.month, edit.day) is Ok);
    }
    if let Some(value) = edit.primary {
        a_category_is_spelled_as_it_exists(value, df, "primary_category"@, known);
    }
    if let Some(value) = edit.secondary {
        a_category_is_spelled_as_it_exists(value, df, "secondary_category"@, known);
    }
    assert(after.changes.drop_last() =~= month.changes);
    crate::frames::lemma_readied(df, "expense_amount"@, DataTypeView::Float64);
    assert(row_fits(df.columns, df.rows[r]));
    assert(df.has_column("row_id"@));
    if df.at(r, "row_id"@) != CellView::Text(row_id) {
        let ready = crate::expense_laws::with_amounts(df, edit);
        assert(after.df.rows[r] == ready.rows[r]);
        assert(ready.has_column(name));
        assert(after.df.columns == ready.columns);
        assert(after.df.column_of(name) == df.column_of(name));
    }
}

/// Exactly one row has an id where that is asked for: it succeeds then, says that none
/// has it where none does, and that several have it where several do.
pub proof fn one_row_has_the_id(
    df: TableView,
    row_id: Seq<char>,
    kind: Seq<char>,
    place: Seq<char>,
)
    requires
        has_texts(df, ROW_ID_COLUMN@),
    ensures
        single_row(df, row_id, kind, place) is Ok <==> exists|i: int|
            0 <= i < df.rows.len() && #[trigger] df.at(i, "row_id"@) == CellView::Text(row_id) && (
            forall|k: int|
                0 <= k < df.rows.len() && k != i ==> #[trigger] df.at(k, "row_id"@)
                    != CellView::Text(row_id)),
        (single_row(df, row_id, kind, place) matches Err(e) && e is NotFound) <==> forall|k: int|
            0 <= k < df.rows.len() ==> #[trigger] df.at(k, "row_id"@) != CellView::Text(row_id),
        single_row(df, row_id, kind, place) matches Err(e) ==> e is NotFound || e is AlreadyExists,
{
    let found = lemma_found(df, row_id);
    if found.len() == 0 {
        assert forall|k: int| 0 <= k < df.rows.len() implies #[trigger] df.at(k, "row_id"@)
            != CellView::Text(row_id) by {
            assert(!found.contains(k));
        }
    } else {
        assert(found.contains(found[0]));
        let i = found[0];
        assert(0 <= i < df.rows.len() && df.at(i, "row_id"@) == CellView::Text(row_id));
        if found.len() == 1 {
            assert forall|k: int| 0 <= k < df.rows.len() && k != i implies #[trigger] df.at(
                k,
                "row_id"@,
            ) != CellView::Text(row_id) by {
                assert(!found.contains(k));
            }
        } else {
            assert(found.contains(found[1]));
            let j = found[1];
            assert(i < j < df.rows.len() && df.at(j, "row_id"@) == CellView::Text(row_id));
        }
    }
}

/// The rows that have an id.
proof fn lemma_found(df: TableView, row_id: Seq<char>) -> (found: Seq<int>)
    requires
        has_texts(df, ROW_ID_COLUMN@),
    ensures
        found_rows(df, ROW_ID_COLUMN@, row_id) == Ok::<Seq<int>, ErrorView>(found),
        forall|k: int| #[trigger]
            found.contains(k) <==> 0 <= k < df.rows.len() && df.at(k, "row_id"@) == CellView::Text(
                row_id,
            ),
        found.len() > 1 ==> found[0] < found[1],
{
    let c = df.column_of(ROW_ID_COLUMN@);
    let n = df.rows.len() as int;
    lemma_matching_rows(df.rows, c, row_id, n);
    let found = matching_rows(df.rows, c, row_id, n);
    assert forall|k: int| #[trigger] found.contains(k) <==> 0 <= k < n && df.at(k, "row_id"@)
        == CellView::Text(row_id) by {
        if found.contains(k) {
            let p = choose|p: int| 0 <= p < found.len() && found[p] == k;
            assert(df.rows[found[p]][c] == CellView::Text(row_id));
        } else if 0 <= k < n {
            assert(df.rows[k][c] == df.at(k, "row_id"@));
        }
    }
    found
}

/// Whether a value is a cell as the log carries it.
pub open spec fn is_recorded(cell: CellView, value: ValueView) -> bool {
    match cell {
        CellView::Null => value is Null,
        CellView::Text(text) => value == ValueView::Text(text),
        CellView::Bool(flag) => value == ValueView::Bool(flag),
        CellView::Float(number) => value == ValueView::Number(Number::Float(number)),
        CellView::Int(n) => value == ValueView::Number(Number::Int(n)),
        CellView::Date(days) => value == ValueView::Text(text_of(days as int)),
        CellView::Opaque(_) => false,
    }
}

/// Whether the log can carry a cell.
pub open spec fn can_be_recorded(cell: CellView) -> bool {
    match cell {
        CellView::Float(number) => float_finite(number),
        CellView::Date(days) => is_day(days as int),
        CellView::Opaque(_) => false,
        _ => true,
    }
}

/// What is recorded of a row that an id names is the row, whole and as it is: each cell
/// under its own column, and nothing else. It is recorded wherever the log can carry
/// each of the cells.
pub proof fn a_row_is_recorded_whole(df: TableView, row_id: Seq<char>, r: int, name: Seq<char>)
    requires
        df.wf(),
        has_texts(df, ROW_ID_COLUMN@),
        0 <= r < df.rows.len(),
        df.at(r, "row_id"@) == CellView::Text(row_id),
        forall|k: int|
            0 <= k < df.rows.len() && k != r ==> #[trigger] df.at(k, "row_id"@) != CellView::Text(
                row_id,
            ),
    ensures
        upsert_op(df, row_id) is Ok <==> forall|c: int|
            0 <= c < df.columns.len() ==> can_be_recorded(#[trigger] df.rows[r][c]),
        upsert_op(df, row_id) matches Ok(op) ==> {
            &&& op matches OpView::Upsert(row)
            &&& row.contains_key(name) <==> df.has_column(name)
            &&& df.has_column(name) ==> is_recorded(df.at(r, name), row[name])
        },
{
    let found = lemma_found(df, row_id);
    assert(found.contains(r));
    assert(found.contains(found[0]));
    assert(found[0] == r);
    let n = df.columns.len() as int;
    if forall|c: int| 0 <= c < n ==> can_be_recorded(#[trigger] df.rows[r][c]) {
        assert forall|c: int| 0 <= c < n implies logged_cell(
            #[trigger] df.columns[c],
            df.rows[r][c],
        ) is Ok by {
            assert(can_be_recorded(df.rows[r][c]));
        }
        lemma_row_is_logged(df, r, n);
    }
    if upsert_op(df, row_id) is Ok {
        lemma_logged_row(df, r, n);
        assert forall|c: int| 0 <= c < n implies can_be_recorded(#[trigger] df.rows[r][c]) by {
            assert(logged_cell(df.columns[c], df.rows[r][c]) is Ok);
        }
        if df.has_column(name) {
            assert(df.columns[df.column_of(name)].name == name);
        }
    }
}

/// What is recorded of an edit is the row as it is after it.
pub proof fn an_edited_expense_is_recorded_whole(
    month: ExpensesView,
    row_id: Seq<char>,
    edit: ExpenseEdit,
    known: Option<KnownView>,
    r: int,
    name: Seq<char>,
)
    requires
        month.df.wf(),
        expense_edited(month, row_id, edit, known) is Ok,
        0 <= r < month.df.rows.len(),
        month.df.at(r, "row_id"@) == CellView::Text(row_id),
    ensures
        ({
            let after = expense_edited(month, row_id, edit, known)->Ok_0;
            &&& after.changes.last().op is Ok <==> forall|c: int|
                0 <= c < after.df.columns.len() ==> can_be_recorded(#[trigger] after.df.rows[r][c])
            &&& after.changes.last().op matches Ok(op) ==> {
                &&& op matches OpView::Upsert(row)
                &&& row.contains_key(name) <==> after.df.has_column(name)
                &&& after.df.has_column(name) ==> is_recorded(after.df.at(r, name), row[name])
            }
        }),
{
    let after = expense_edited(month, row_id, edit, known)->Ok_0;
    lemma_edited_wf(
        month.df,
        row_id,
        edit,
        day_to_set(month.year, month.month, edit.day)->Ok_0,
        known,
    );
    lemma_edited_ids(month, row_id, edit, known, r);
    a_row_is_recorded_whole(after.df, row_id, r, name);
}

proof fn lemma_edited_ids(
    month: ExpensesView,
    row_id: Seq<char>,
    edit: ExpenseEdit,
    known: Option<KnownView>,
    r: int,
)
    requires
        month.df.wf(),
        expense_edited(month, row_id, edit, known) is Ok,
        0 <= r < month.df.rows.len(),
        month.df.at(r, "row_id"@) == CellView::Text(row_id),
    ensures
        ({
            let after = expense_edited(month, row_id, edit, known)->Ok_0.df;
            &&& has_texts(after, ROW_ID_COLUMN@)
            &&& after.rows.len() == month.df.rows.len()
            &&& after.at(r, "row_id"@) == CellView::Text(row_id)
            &&& forall|k: int|
                0 <= k < after.rows.len() && k != r ==> #[trigger] after.at(k, "row_id"@)
                    != CellView::Text(row_id)
        }),
{
    let after = expense_edited(month, row_id, edit, known)->Ok_0.df;
    let df = month.df;
    let found = lemma_found(df, row_id);
    assert(found.contains(r));
    assert(found.len() == 1);
    assert(df.has_column(ROW_ID_COLUMN@));
    let ids = df.column_of(ROW_ID_COLUMN@);
    an_edit_changes_what_it_names(month, row_id, edit, known, r, ROW_ID_COLUMN@);
    lemma_ready_ids(df, edit);
    assert(after.columns == with_amounts(df, edit).columns);
    assert(after.column_of(ROW_ID_COLUMN@) == with_amounts(df, edit).column_of(ROW_ID_COLUMN@));
    assert forall|k: int| 0 <= k < after.rows.len() && k != r implies #[trigger] after.at(
        k,
        "row_id"@,
    ) != CellView::Text(row_id) by {
        an_edit_changes_what_it_names(month, row_id, edit, known, k, ROW_ID_COLUMN@);
        if found.contains(k) {
            let p = choose|p: int| 0 <= p < found.len() && found[p] == k;
            let q = choose|q: int| 0 <= q < found.len() && found[q] == r;
            assert(p == q);
        }
        assert(df.at(k, "row_id"@) != CellView::Text(row_id));
    }
}

proof fn lemma_ready_ids(df: TableView, edit: ExpenseEdit)
    requires
        df.wf(),
        has_texts(df, ROW_ID_COLUMN@),
    ensures
        ({
            let ready = with_amounts(df, edit);
            &&& has_texts(ready, ROW_ID_COLUMN@)
            &&& ready.column_of(ROW_ID_COLUMN@) == df.column_of(ROW_ID_COLUMN@)
        }),
{
    crate::frames::lemma_readied(df, "expense_amount"@, DataTypeView::Float64);
    let ready = with_amounts(df, edit);
    let c = df.column_of(ROW_ID_COLUMN@);
    reveal_strlit("expense_amount");
    reveal_strlit("row_id");
    assert("expense_amount"@.len() != "row_id"@.len());
    assert(df.columns[c].name == ROW_ID_COLUMN@);
    assert(ready.columns[c].name == ROW_ID_COLUMN@);
    assert(ready.columns[ready.column_of(ROW_ID_COLUMN@)].name == ROW_ID_COLUMN@);
}

proof fn lemma_edited_wf(
    df: TableView,
    row_id: Seq<char>,
    edit: ExpenseEdit,
    day: Option<CellView>,
    known: Option<KnownView>,
)
    requires
        df.wf(),
        day matches Some(cell) ==> cell is Date,
    ensures
        edited_df(df, row_id, edit, day, known) matches Ok(after) ==> after.wf(),
{
    let amount = match edit.amount {
        Some(amount) => Some(CellView::Float(amount)),
        None => None,
    };
    let name = text_to_set(edit.name);
    let currency = text_to_set(edit.currency);
    let primary = category_to_set(df, "primary_category"@, edit.primary, known);
    let secondary = category_to_set(df, "secondary_category"@, edit.secondary, known);
    let r1 = lemma_set_wf(Ok(df), row_id, "expense_name"@, DataTypeView::Text, name);
    let r2 = lemma_set_wf(r1, row_id, "expense_date"@, DataTypeView::Date, day);
    let r3 = lemma_set_wf(r2, row_id, "expense_amount"@, DataTypeView::Float64, amount);
    let r4 = lemma_set_wf(r3, row_id, "currency"@, DataTypeView::Text, currency);
    let r5 = lemma_set_wf(r4, row_id, "primary_category"@, DataTypeView::Text, primary);
    let r6 = lemma_set_wf(r5, row_id, "secondary_category"@, DataTypeView::Text, secondary);
    assert(r6 == edited_df(df, row_id, edit, day, known));
}

proof fn lemma_set_wf(
    df: Result<TableView, ErrorView>,
    row_id: Seq<char>,
    target: Seq<char>,
    dtype: DataTypeView,
    cell: Option<CellView>,
) -> (r: Result<TableView, ErrorView>)
    requires
        df matches Ok(table) ==> table.wf(),
        cell matches Some(it) ==> fits(dtype, it),
    ensures
        r == maybe_set(df, row_id, target, dtype, cell),
        r matches Ok(table) ==> table.wf(),
{
    let r = maybe_set(df, row_id, target, dtype, cell);
    if let (Ok(table), Some(it)) = (df, cell) {
        if r is Ok {
            setting_sets_the_matches(table, ROW_ID_COLUMN@, row_id, target, dtype, it);
        }
    }
    r
}

/// A deleted expense is gone: the month has one row less, the others stay as they are
/// in their order, and the deletion of this row of this month is recorded.
pub proof fn a_deleted_expense_is_gone(month: ExpensesView, row_id: Seq<char>) -> (places: Seq<int>)
    requires
        expense_deleted(month, row_id) is Ok,
    ensures
        ({
            let after = expense_deleted(month, row_id)->Ok_0;
            &&& is_without(month.df, after.df, "row_id"@, row_id, places)
            &&& after.df.rows.len() + 1 == month.df.rows.len()
            &&& after.year == month.year
            &&& after.month == month.month
            &&& after.path == month.path
            &&& after.changes.len() == month.changes.len() + 1
            &&& after.changes.drop_last() == month.changes
            &&& after.changes.last().table == (ChangeTable::Expenses {
                year: month.year,
                month: month.month,
            })
            &&& after.changes.last().row_id == row_id
            &&& after.changes.last().op == Ok::<OpView, ErrorView>(OpView::Delete)
            &&& after.changes.last().origin is None
        }),
{
    let after = expense_deleted(month, row_id)->Ok_0;
    let places = removing_leaves_the_others(month.df, "row_id"@, row_id);
    lemma_one_less(month.df, row_id, places);
    assert(after.changes.drop_last() =~= month.changes);
    places
}

proof fn lemma_one_less(df: TableView, row_id: Seq<char>, places: Seq<int>)
    requires
        has_texts(df, ROW_ID_COLUMN@),
        matching_rows(
            df.rows,
            df.column_of(ROW_ID_COLUMN@),
            row_id,
            df.rows.len() as int,
        ).len() == 1,
        forall|k: int|
            0 <= k < places.len() ==> 0 <= #[trigger] places[k] < df.rows.len() && df.at(
                places[k],
                "row_id"@,
            ) != CellView::Text(row_id),
        forall|i: int, j: int|
            0 <= i < j < places.len() ==> #[trigger] places[i] < #[trigger] places[j],
        forall|r: int|
            0 <= r < df.rows.len() && #[trigger] df.at(r, "row_id"@) != CellView::Text(row_id)
                ==> places.contains(r),
    ensures
        places.len() + 1 == df.rows.len(),
{
    let c = df.column_of(ROW_ID_COLUMN@);
    let n = df.rows.len() as int;
    lemma_matching_rows(df.rows, c, row_id, n);
    let found = matching_rows(df.rows, c, row_id, n);
    let i = found[0];
    assert(df.rows[i][c] == CellView::Text(row_id));
    assert forall|r: int| 0 <= r < n && r != i implies #[trigger] df.at(r, "row_id"@)
        != CellView::Text(row_id) by {
        if df.rows[r][c] == CellView::Text(row_id) {
            assert(found.contains(r));
        }
    }
    let all = places.push(i);
    assert(all.no_duplicates()) by {
        assert(df.at(i, "row_id"@) == CellView::Text(row_id));
    }
    all.unique_seq_to_set();
    let range = vstd::set_lib::set_int_range(0, n);
    vstd::set_lib::lemma_int_range(0, n);
    assert(all.to_set() =~= range) by {
        assert forall|r: int| all.to_set().contains(r) <==> range.contains(r) by {
            if range.contains(r) {
                if r == i {
                    assert(all[places.len() as int] == r);
                } else {
                    assert(df.at(r, "row_id"@) != CellView::Text(row_id));
                    assert(places.contains(r));
                    let k = choose|k: int| 0 <= k < places.len() && places[k] == r;
                    assert(all[k] == r);
                }
                assert(all.contains(r));
            }
            if all.contains(r) {
                let k = choose|k: int| 0 <= k < all.len() && all[k] == r;
                if k < places.len() {
                    assert(places[k] == r);
                }
            }
        }
    }
}

/// A removed template is gone: there is one template less, the others stay as they are
/// in their order, and the removal of this template of this year is recorded.
pub proof fn a_removed_template_is_gone(
    templates: RecurringView,
    row_id: Seq<char>,
) -> (places: Seq<int>)
    requires
        template_removed(templates, row_id) is Ok,
    ensures
        ({
            let after = template_removed(templates, row_id)->Ok_0;
            &&& is_without(templates.df, after.df, "row_id"@, row_id, places)
            &&& after.df.rows.len() + 1 == templates.df.rows.len()
            &&& after.year == templates.year
            &&& after.changes.len() == templates.changes.len() + 1
            &&& after.changes.drop_last() == templates.changes
            &&& after.changes.last().table == (ChangeTable::Recurring { year: templates.year })
            &&& after.changes.last().row_id == row_id
            &&& after.changes.last().op == Ok::<OpView, ErrorView>(OpView::Delete)
            &&& after.changes.last().origin is None
        }),
{
    let after = template_removed(templates, row_id)->Ok_0;
    let places = removing_leaves_the_others(templates.df, "row_id"@, row_id);
    lemma_one_less(templates.df, row_id, places);
    assert(after.changes.drop_last() =~= templates.changes);
    places
}

} // verus!
