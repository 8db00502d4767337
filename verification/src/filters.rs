//! Finding expenses by parts of their names and by their amounts.

use vstd::prelude::*;
use polars::prelude::{NewChunkedArray, StringChunked, StringNameSpaceImpl};
use crate::doubles::to_double;
use crate::error::{Error, ErrorView};
use crate::expenses::{said, DetailedExpenses};
use crate::frames::{
    find_texts, has_texts, no_column, no_texts, target_column_error,
};
use crate::merge_apply::key_column_error;
use crate::numbers::FloatBits;
use crate::rows::Number;
use crate::table::{double_cell, is_number, kept, Cell, CellView, DataType, Table, TableView};

verus! {

/// Whether a regular expression that polars can make use of is found in a text, as
/// `StringNameSpaceImpl::contains` finds it.
pub uninterp spec fn found_in(text: Seq<char>, pattern: Seq<char>) -> bool;

/// `StringNameSpaceImpl::contains` of polars on a column of one text, not strict:
/// whether a regular expression is found in the text, which is a function of the two,
/// or nothing for an expression that it cannot make use of. When it gives nothing is
/// left open: how large an expression may be is read from the environment
/// (`POLARS_REGEX_SIZE_LIMIT`, a number where it is set).
#[verifier::external_body]
fn contains(text: &str, pattern: &str) -> (r: Option<bool>)
    ensures
        r matches Some(here) ==> here == found_in(text@, pattern@),
{
    let column = StringChunked::from_slice("".into(), &[text]);
    column.contains(pattern, false).ok().and_then(|found| found.get(0))
}

/// Whether a character stands for something else in a regular expression, or may,
/// and for itself behind a backslash: an ASCII character that is neither a letter, a
/// digit, an underscore nor an angle bracket.
pub open spec fn is_escaped(c: char) -> bool {
    &&& c < '\u{80}'
    &&& !('0' <= c <= '9') && !('A' <= c <= 'Z') && !('a' <= c <= 'z')
    &&& c != '_' && c != '<' && c != '>'
}

/// A text with a backslash before every character that stands for something else in
/// a regular expression.
pub open spec fn escaped(text: Seq<char>) -> Seq<char>
    decreases text.len(),
{
    if text.len() == 0 {
        Seq::empty()
    } else {
        let rest = escaped(text.drop_last());
        if is_escaped(text.last()) {
            rest.push('\\').push(text.last())
        } else {
            rest.push(text.last())
        }
    }
}

/// A text as a regular expression that finds exactly the text.
pub fn regex_escape(text: &str) -> (r: String)
    ensures
        r@ == escaped(text@),
{
    let mut out = String::new();
    let len: usize = text.unicode_len();
    let mut i: usize = 0;
    assert(text@.take(0) =~= Seq::empty());
    assert(out@ =~= Seq::empty());
    while i < len
        invariant
            i <= len,
            len == text@.len(),
            out@ == escaped(text@.take(i as int)),
        decreases len - i,
    {
        let c = text.get_char(i);
        assert(text@.take(i + 1).drop_last() =~= text@.take(i as int));
        let plain = ('0' <= c && c <= '9') || ('A' <= c && c <= 'Z') || ('a' <= c && c <= 'z')
            || c == '_' || c == '<' || c == '>';
        if c < '\u{80}' && !plain {
            out.push('\\');
        }
        out.push(c);
        i = i + 1;
    }
    assert(text@.take(len as int) =~= text@);
    out
}

/// The regular expression that finds a text whatever its case.
pub open spec fn part_pattern(part: Seq<char>) -> Seq<char> {
    "(?i)"@ + escaped(part)
}

/// Whether answers, one per row, say in which cells of a column an expression is
/// found. There is none where there is no text, and there may be none where polars
/// cannot make use of the expression.
pub open spec fn answers_for(
    answers: Seq<Option<bool>>,
    rows: Seq<Seq<CellView>>,
    column: int,
    pattern: Seq<char>,
) -> bool {
    &&& answers.len() == rows.len()
    &&& forall|i: int|
        0 <= i < rows.len() ==> match #[trigger] answers[i] {
            Some(here) => rows[i][column] matches CellView::Text(text) && here == found_in(
                text,
                pattern,
            ),
            None => true,
        }
}

/// In which rows of a column an expression is found, as polars answers.
pub fn find_rows(df: &Table, column: usize, pattern: &str) -> (r: Vec<Option<bool>>)
    requires
        column < df@.columns.len(),
    ensures
        answers_for(r@, df@.rows, column as int, pattern@),
{
    let mut answers: Vec<Option<bool>> = Vec::new();
    let mut i: usize = 0;
    while i < df.height()
        invariant
            i <= df@.rows.len(),
            column < df@.columns.len(),
            answers@.len() == i,
            forall|k: int|
                0 <= k < i ==> match #[trigger] answers@[k] {
                    Some(here) => df@.rows[k][column as int] matches CellView::Text(text) && here
                        == found_in(text, pattern@),
                    None => true,
                },
        decreases df@.rows.len() - i,
    {
        let answer = match df.cell_at(i, column) {
            Cell::Text(text) => contains(text.as_str(), pattern),
            _ => None,
        };
        answers.push(answer);
        i = i + 1;
    }
    answers
}

/// Which answers say that something is found: no answer does not.
pub open spec fn flagged(answers: Seq<Option<bool>>) -> Seq<bool> {
    answers.map_values(|answer: Option<bool>| answer == Some(true))
}

/// Which answers say that something is found.
pub fn flags_of(answers: &Vec<Option<bool>>) -> (r: Vec<bool>)
    ensures
        r@ == flagged(answers@),
{
    let mut flags: Vec<bool> = Vec::new();
    let mut i: usize = 0;
    while i < answers.len()
        invariant
            i <= answers.len(),
            flags@.len() == i,
            forall|k: int| 0 <= k < i ==> (#[trigger] flags@[k]) == (answers@[k] == Some(true)),
        decreases answers.len() - i,
    {
        let flag = match answers[i] {
            Some(here) => here,
            None => false,
        };
        flags.push(flag);
        i = i + 1;
    }
    assert(flags@ =~= flagged(answers@));
    flags
}

/// The size of a double precision number, as the bits without the sign.
pub open spec fn float_size(bits: u64) -> int {
    bits as int % 0x8000_0000_0000_0000
}

/// Where a double precision number stands in the order of all of them. Both zeros
/// stand together, and every NaN stands after the infinities.
pub open spec fn float_rank(bits: u64) -> int {
    if float_size(bits) > 0x7ff0_0000_0000_0000 {
        0x7fff_ffff_ffff_ffff
    } else if bits >= 0x8000_0000_0000_0000 {
        -float_size(bits)
    } else {
        float_size(bits)
    }
}

/// Where a double precision number stands in the order of all of them.
pub fn rank_of(bits: u64) -> (r: i64)
    ensures
        r == float_rank(bits),
{
    let size: u64 = bits % 0x8000_0000_0000_0000;
    if size > 0x7ff0_0000_0000_0000 {
        0x7fff_ffff_ffff_ffff
    } else if bits >= 0x8000_0000_0000_0000 {
        -(size as i64)
    } else {
        size as i64
    }
}

/// Whether a cell holds a number within bounds, both of them included. A whole number
/// is compared in double precision.
pub open spec fn cell_within(cell: CellView, min: Option<FloatBits>, max: Option<FloatBits>) -> bool {
    match double_cell(cell) {
        CellView::Float(bits) => {
            &&& min matches Some(low) ==> float_rank(bits) >= float_rank(low)
            &&& max matches Some(high) ==> float_rank(bits) <= float_rank(high)
        },
        _ => false,
    }
}

fn within(cell: &Cell, min: Option<FloatBits>, max: Option<FloatBits>) -> (r: bool)
    ensures
        r == cell_within(cell@, min, max),
{
    let bits: FloatBits = match cell {
        Cell::Float(bits) => *bits,
        Cell::Int(n) => to_double(Number::Int(*n)),
        _ => return false,
    };
    let at = rank_of(bits);
    let above = match min {
        Some(low) => at >= rank_of(low),
        None => true,
    };
    let below = match max {
        Some(high) => at <= rank_of(high),
        None => true,
    };
    above && below
}

/// Whether a table has a column of amounts: of numbers of any kind.
pub open spec fn has_amounts(df: TableView) -> bool {
    df.has_column("expense_amount"@) && is_number(
        df.columns[df.column_of("expense_amount"@)].dtype,
    )
}

fn find_amounts(df: &Table) -> (r: Option<usize>)
    ensures
        match r {
            Some(c) => has_amounts(df@) && c == df@.column_of("expense_amount"@) && c
                < df@.columns.len(),
            None => !has_amounts(df@),
        },
{
    match df.find_column("expense_amount") {
        Some(c) => match &df.column_at(c).dtype {
            DataType::Float64 | DataType::Float32 | DataType::Int64 | DataType::Int32 => Some(c),
            _ => None,
        },
        None => None,
    }
}

/// A part to look for: an empty one is none.
pub open spec fn sought(part: Option<Seq<char>>) -> Option<Seq<char>> {
    match part {
        Some(part) => if part.len() > 0 {
            Some(part)
        } else {
            None
        },
        None => None,
    }
}

/// Which rows pass, by what was found in their names and in their two categories,
/// and by the bounds of their amounts, as far as any are given.
pub open spec fn passing(
    df: TableView,
    names: Option<Seq<bool>>,
    categories: Option<(Seq<bool>, Seq<bool>)>,
    min: Option<FloatBits>,
    max: Option<FloatBits>,
) -> Seq<bool> {
    Seq::new(
        df.rows.len(),
        |i: int|
            {
                &&& names matches Some(found) ==> found[i]
                &&& categories matches Some(found) ==> found.0[i] || found.1[i]
                &&& min is Some || max is Some ==> cell_within(
                    df.rows[i][df.column_of("expense_amount"@)],
                    min,
                    max,
                )
            },
    )
}

/// The rows that pass, or that there is no column of amounts to tell by.
pub open spec fn passing_rows(
    df: TableView,
    names: Option<Seq<bool>>,
    categories: Option<(Seq<bool>, Seq<bool>)>,
    min: Option<FloatBits>,
    max: Option<FloatBits>,
) -> Result<TableView, ErrorView> {
    if (min is Some || max is Some) && !has_amounts(df) {
        Err(target_column_error("expense_amount"@))
    } else {
        Ok(
            TableView {
                columns: df.columns,
                rows: kept(
                    df.rows,
                    passing(df, names, categories, min, max),
                    df.rows.len() as int,
                ),
            },
        )
    }
}

/// What optional flags say.
pub open spec fn flags_view(flags: Option<Vec<bool>>) -> Option<Seq<bool>> {
    match flags {
        Some(flags) => Some(flags@),
        None => None,
    }
}

/// What optional pairs of flags say.
pub open spec fn flag_pairs(flags: Option<(Vec<bool>, Vec<bool>)>) -> Option<
    (Seq<bool>, Seq<bool>),
> {
    match flags {
        Some(flags) => Some((flags.0@, flags.1@)),
        None => None,
    }
}

/// The rows whose name is flagged, one of whose categories is flagged, and whose
/// amount is within the bounds, as far as any are given.
pub fn filter_by(
    df: &Table,
    names: Option<Vec<bool>>,
    categories: Option<(Vec<bool>, Vec<bool>)>,
    amount_min: Option<FloatBits>,
    amount_max: Option<FloatBits>,
) -> (r: Result<Table, Error>)
    requires
        names matches Some(found) ==> found@.len() == df@.rows.len(),
        categories matches Some(found) ==> found.0@.len() == df@.rows.len() && found.1@.len()
            == df@.rows.len(),
    ensures
        match r {
            Ok(table) => passing_rows(
                df@,
                flags_view(names),
                flag_pairs(categories),
                amount_min,
                amount_max,
            ) == Ok::<TableView, ErrorView>(table@),
            Err(e) => passing_rows(
                df@,
                flags_view(names),
                flag_pairs(categories),
                amount_min,
                amount_max,
            ) == Err::<TableView, ErrorView>(e@),
        },
{
    let bounded = amount_min.is_some() || amount_max.is_some();
    let amount_column: usize = match find_amounts(df) {
        Some(c) => c,
        None => if bounded {
            return Err(no_column("expense_amount"));
        } else {
            0
        },
    };
    let ghost flags = passing(
        df@,
        flags_view(names),
        flag_pairs(categories),
        amount_min,
        amount_max,
    );
    let mut keep: Vec<bool> = Vec::new();
    let mut i: usize = 0;
    while i < df.height()
        invariant
            i <= df@.rows.len(),
            names matches Some(found) ==> found@.len() == df@.rows.len(),
            categories matches Some(found) ==> found.0@.len() == df@.rows.len() && found.1@.len()
                == df@.rows.len(),
            bounded == (amount_min is Some || amount_max is Some),
            bounded ==> amount_column < df@.columns.len() && amount_column == df@.column_of(
                "expense_amount"@,
            ),
            flags == passing(
                df@,
                flags_view(names),
                flag_pairs(categories),
                amount_min,
                amount_max,
            ),
            keep@.len() == i,
            forall|k: int| 0 <= k < i ==> (#[trigger] keep@[k]) == flags[k],
        decreases df@.rows.len() - i,
    {
        let named = match &names {
            Some(found) => found[i],
            None => true,
        };
        let filed = match &categories {
            Some(found) => found.0[i] || found.1[i],
            None => true,
        };
        let sized = if bounded {
            within(df.cell_at(i, amount_column), amount_min, amount_max)
        } else {
            true
        };
        keep.push(named && filed && sized);
        i = i + 1;
    }
    assert(keep@ =~= flags);
    let mut table = df.clone();
    table.keep_rows(&keep);
    Ok(table)
}

/// Which column is missing to tell what holds the parts that are looked for.
pub open spec fn column_lacking(
    df: TableView,
    name: Option<Seq<char>>,
    category: Option<Seq<char>>,
) -> Option<ErrorView> {
    if sought(name) is Some && !has_texts(df, "expense_name"@) {
        Some(key_column_error("expense_name"@))
    } else if sought(category) is Some && !has_texts(df, "primary_category"@) {
        Some(key_column_error("primary_category"@))
    } else if sought(category) is Some && !has_texts(df, "secondary_category"@) {
        Some(key_column_error("secondary_category"@))
    } else {
        None
    }
}

/// What the answers for names say.
pub open spec fn name_flags(names: Option<Seq<Option<bool>>>) -> Option<Seq<bool>> {
    match names {
        Some(answers) => Some(flagged(answers)),
        None => None,
    }
}

/// What the answers for both categories say.
pub open spec fn category_flags(
    categories: Option<(Seq<Option<bool>>, Seq<Option<bool>>)>,
) -> Option<(Seq<bool>, Seq<bool>)> {
    match categories {
        Some(answers) => Some((flagged(answers.0), flagged(answers.1))),
        None => None,
    }
}

/// Whether answers say where the parts that are looked for are found: in the names if
/// a part of a name is looked for, and in both categories if a part of a category is.
pub open spec fn answers_found(
    df: TableView,
    name: Option<Seq<char>>,
    category: Option<Seq<char>>,
    names: Option<Seq<Option<bool>>>,
    categories: Option<(Seq<Option<bool>>, Seq<Option<bool>>)>,
) -> bool {
    &&& names is Some == sought(name) is Some
    &&& names matches Some(answers) ==> answers_for(
        answers,
        df.rows,
        df.column_of("expense_name"@),
        part_pattern(sought(name)->Some_0),
    )
    &&& categories is Some == sought(category) is Some
    &&& categories matches Some(answers) ==> answers_for(
        answers.0,
        df.rows,
        df.column_of("primary_category"@),
        part_pattern(sought(category)->Some_0),
    ) && answers_for(
        answers.1,
        df.rows,
        df.column_of("secondary_category"@),
        part_pattern(sought(category)->Some_0),
    )
}

/// The expression to look for a part of a text with, if there is anything to look
/// for.
pub fn part_to_find(part: Option<&str>) -> (r: Option<String>)
    ensures
        match r {
            Some(pattern) => sought(said(part)) matches Some(part) && pattern@ == part_pattern(
                part,
            ),
            None => sought(said(part)) is None,
        },
{
    match part {
        Some(part) => if part.unicode_len() > 0 {
            Some("(?i)".to_owned().concat(regex_escape(part).as_str()))
        } else {
            None
        },
        None => None,
    }
}

impl DetailedExpenses {
    /// The expenses whose name holds `name_substr`, whose primary or secondary
    /// category holds `category_substr`, both whatever their case, and whose
    /// amount is at least `amount_min` and at most `amount_max`, each given by its
    /// bits. What is empty or not given is not asked for. Where a part is found is
    /// what polars answers for the expression of [`part_to_find`].
    pub fn filter_expenses(
        &self,
        name_substr: Option<&str>,
        category_substr: Option<&str>,
        amount_min: Option<FloatBits>,
        amount_max: Option<FloatBits>,
    ) -> (r: Result<Table, Error>)
        ensures
            match column_lacking(self@.df, said(name_substr), said(category_substr)) {
                Some(e) => r matches Err(error) && error@ == e,
                None => exists|
                    names: Option<Seq<Option<bool>>>,
                    categories: Option<(Seq<Option<bool>>, Seq<Option<bool>>)>,
                |
                    #![trigger answers_found(
                        self@.df,
                        said(name_substr),
                        said(category_substr),
                        names,
                        categories,
                    )]
                    answers_found(
                        self@.df,
                        said(name_substr),
                        said(category_substr),
                        names,
                        categories,
                    ) && match r {
                        Ok(table) => passing_rows(
                            self@.df,
                            name_flags(names),
                            category_flags(categories),
                            amount_min,
                            amount_max,
                        ) == Ok::<TableView, ErrorView>(table@),
                        Err(e) => passing_rows(
                            self@.df,
                            name_flags(names),
                            category_flags(categories),
                            amount_min,
                            amount_max,
                        ) == Err::<TableView, ErrorView>(e@),
                    },
            },
    {
        let df = &self.expense_df;
        let ghost mut named: Option<Seq<Option<bool>>> = None;
        let ghost mut filed: Option<(Seq<Option<bool>>, Seq<Option<bool>>)> = None;
        let names = match part_to_find(name_substr) {
            Some(pattern) => match find_texts(df, "expense_name") {
                Some(c) => {
                    let answers = find_rows(df, c, pattern.as_str());
                    proof {
                        named = Some(answers@);
                    }
                    Some(flags_of(&answers))
                },
                None => return Err(no_texts("expense_name")),
            },
            None => None,
        };
        let categories = match part_to_find(category_substr) {
            Some(pattern) => {
                let primary = match find_texts(df, "primary_category") {
                    Some(c) => find_rows(df, c, pattern.as_str()),
                    None => return Err(no_texts("primary_category")),
                };
                let secondary = match find_texts(df, "secondary_category") {
                    Some(c) => find_rows(df, c, pattern.as_str()),
                    None => return Err(no_texts("secondary_category")),
                };
                proof {
                    filed = Some((primary@, secondary@));
                }
                Some((flags_of(&primary), flags_of(&secondary)))
            },
            None => None,
        };
        assert(answers_found(
            self@.df,
            said(name_substr),
            said(category_substr),
            named,
            filed,
        ));
        assert(flags_view(names) == name_flags(named));
        assert(flag_pairs(categories) == category_flags(filed));
        filter_by(df, names, categories, amount_min, amount_max)
    }
}

} // verus!
