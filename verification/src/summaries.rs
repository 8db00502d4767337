//! Yearly summaries by category that older versions stored: taking a category out
//! of them.

use vstd::prelude::*;
use crate::config::{is_kind, kind_error, validate_kind};
use crate::error::{Error, ErrorView};
use crate::frames::{others, remove_where, without_matches};
use crate::paths::{PRIMARIES_FILENAME, SECONDARIES_FILENAME};
use crate::table::{lemma_kept, Table, TableView};
use crate::text::same_text;

verus! {

/// The file that the summaries of a kind are in.
pub open spec fn summary_filename(kind: Seq<char>) -> Seq<char> {
    if kind == "primary"@ {
        PRIMARIES_FILENAME@
    } else {
        SECONDARIES_FILENAME@
    }
}

/// The file that the summaries of a kind are in, by its name.
pub fn summary_file(kind: &str) -> (r: Result<&'static str, Error>)
    ensures
        match r {
            Ok(name) => is_kind(kind@) && name@ == summary_filename(kind@),
            Err(e) => !is_kind(kind@) && e@ == kind_error(kind@),
        },
{
    match validate_kind(kind) {
        Ok(()) => {},
        Err(e) => return Err(e),
    }
    if same_text(kind, "primary") {
        Ok(PRIMARIES_FILENAME)
    } else {
        Ok(SECONDARIES_FILENAME)
    }
}

/// The column that the categories of a kind are in.
pub open spec fn category_column(kind: Seq<char>) -> Seq<char> {
    kind + "_category"@
}

/// A summary without a category: nothing if it does not change, and an error if
/// its categories are no texts.
pub open spec fn summary_without(df: TableView, kind: Seq<char>, name: Seq<char>) -> Result<
    Option<TableView>,
    ErrorView,
> {
    if !df.has_column(category_column(kind)) {
        Ok(None)
    } else {
        match without_matches(df, category_column(kind), name) {
            Err(e) => Err(e),
            Ok(after) => if after.rows.len() == df.rows.len() {
                Ok(None)
            } else {
                Ok(Some(after))
            },
        }
    }
}

/// Take a category out of a summary of its kind. Says whether the summary changed
/// and has to be written: one without the column, or without the category, has
/// not.
pub fn remove_category(df: &mut Table, kind: &str, name: &str) -> (r: Result<bool, Error>)
    ensures
        match r {
            Ok(true) => summary_without(old(df)@, kind@, name@) == Ok::<
                Option<TableView>,
                ErrorView,
            >(Some(final(df)@)),
            Ok(false) => summary_without(old(df)@, kind@, name@) == Ok::<
                Option<TableView>,
                ErrorView,
            >(None) && final(df)@ == old(df)@,
            Err(e) => summary_without(old(df)@, kind@, name@) == Err::<
                Option<TableView>,
                ErrorView,
            >(e@) && final(df)@ == old(df)@,
        },
{
    let column = kind.to_owned().concat("_category");
    if !df.has_column(column.as_str()) {
        return Ok(false);
    }
    let height = df.height();
    proof {
        let rows = df@.rows;
        let c = df@.column_of(column@);
        lemma_kept(rows, others(rows, c, name@), rows.len() as int);
        assert(rows.take(rows.len() as int) =~= rows);
    }
    match remove_where(df, column.as_str(), name) {
        Ok(()) => Ok(df.height() != height),
        Err(e) => Err(e),
    }
}

} // verus!
