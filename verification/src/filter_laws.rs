//! A filter shows exactly the rows that pass it.

use vstd::prelude::*;
use crate::doubles::double_of;
use crate::error::ErrorView;
use crate::filters::{
    answers_found, category_flags, escaped, float_rank, found_in, is_escaped, name_flags, passing,
    passing_rows, sought,
};
use crate::numbers::FloatBits;
use crate::rows::Number;
use crate::sheet_laws::lemma_kept_places;
use crate::table::{CellView, TableView};

verus! {

/// Whether a number is not before another: the larger of two, both zeros the same, and
/// what is no number behind all numbers.
pub open spec fn not_before(one: FloatBits, other: FloatBits) -> bool {
    float_rank(one) >= float_rank(other)
}

/// The order of numbers by their bits: of two numbers above zero the one with the
/// larger bits is the larger, of two below zero the one with the smaller bits, one
/// below zero comes before one above it, and both zeros stand together. What is no
/// number stands behind all of them.
pub proof fn numbers_are_ordered_by_their_bits(a: FloatBits, b: FloatBits)
    ensures
        a <= 0x7ff0_0000_0000_0000 && b <= 0x7ff0_0000_0000_0000 ==> (not_before(a, b) <==> a >= b),
        0x8000_0000_0000_0000 <= a <= 0xfff0_0000_0000_0000 && 0x8000_0000_0000_0000 <= b
            <= 0xfff0_0000_0000_0000 ==> (not_before(a, b) <==> a <= b),
        a <= 0x7ff0_0000_0000_0000 && 0x8000_0000_0000_0000 <= b <= 0xfff0_0000_0000_0000
            ==> not_before(a, b),
        0 < a <= 0x7ff0_0000_0000_0000 && 0x8000_0000_0000_0000 <= b <= 0xfff0_0000_0000_0000
            ==> !not_before(b, a),
        not_before(0, 0x8000_0000_0000_0000) && not_before(0x8000_0000_0000_0000, 0),
        0x7ff0_0000_0000_0000 < a < 0x8000_0000_0000_0000 ==> not_before(a, b),
        0xfff0_0000_0000_0000 < a ==> not_before(a, b),
        not_before(a, b) || not_before(b, a),
{
}

/// Whether a cell holds a number within bounds, each of them included where it is
/// given. A whole number counts as the double precision number nearest to it.
pub open spec fn is_within(
    cell: CellView,
    min: Option<FloatBits>,
    max: Option<FloatBits>,
) -> bool {
    match cell {
        CellView::Float(bits) => (min matches Some(low) ==> not_before(bits, low)) && (max
            matches Some(high) ==> not_before(high, bits)),
        CellView::Int(n) => (min matches Some(low) ==> not_before(double_of(Number::Int(n)), low))
            && (max matches Some(high) ==> not_before(high, double_of(Number::Int(n)))),
        _ => false,
    }
}

/// Whether a row passes a filter, by what was found in its name, its primary and its
/// secondary category.
pub open spec fn passes(
    df: TableView,
    r: int,
    names: Option<Seq<bool>>,
    categories: Option<(Seq<bool>, Seq<bool>)>,
    min: Option<FloatBits>,
    max: Option<FloatBits>,
) -> bool {
    &&& names matches Some(found) ==> found[r]
    &&& categories matches Some(found) ==> found.0[r] || found.1[r]
    &&& min is Some || max is Some ==> is_within(df.at(r, "expense_amount"@), min, max)
}

/// A filter shows the rows that pass it, in their order and as they are, and no other
/// row. The columns stay.
pub proof fn a_filter_shows_the_rows_that_pass(
    df: TableView,
    names: Option<Seq<bool>>,
    categories: Option<(Seq<bool>, Seq<bool>)>,
    min: Option<FloatBits>,
    max: Option<FloatBits>,
) -> (places: Seq<int>)
    requires
        passing_rows(df, names, categories, min, max) is Ok,
    ensures
        ({
            let after = passing_rows(df, names, categories, min, max)->Ok_0;
            &&& after.columns == df.columns
            &&& after.rows.len() == places.len()
            &&& forall|k: int|
                0 <= k < places.len() ==> 0 <= #[trigger] places[k] < df.rows.len()
                    && after.rows[k] == df.rows[places[k]] && passes(
                    df,
                    places[k],
                    names,
                    categories,
                    min,
                    max,
                )
            &&& forall|i: int, j: int|
                0 <= i < j < places.len() ==> #[trigger] places[i] < #[trigger] places[j]
            &&& forall|r: int|
                0 <= r < df.rows.len() && #[trigger] passes(df, r, names, categories, min, max)
                    ==> places.contains(r)
        }),
{
    let keep = passing(df, names, categories, min, max);
    let places = lemma_kept_places(df.rows, keep, df.rows.len() as int);
    assert forall|r: int| 0 <= r < df.rows.len() implies #[trigger] keep[r] == passes(
        df,
        r,
        names,
        categories,
        min,
        max,
    ) by {}
    assert forall|r: int|
        0 <= r < df.rows.len() && #[trigger] passes(
            df,
            r,
            names,
            categories,
            min,
            max,
        ) implies places.contains(r) by {
        assert(keep[r]);
    }
    assert forall|k: int| 0 <= k < places.len() implies 0 <= #[trigger] places[k] < df.rows.len()
        && passes(df, places[k], names, categories, min, max) by {
        assert(keep[places[k]]);
    }
    places
}

/// A filter that asks for nothing shows everything.
pub proof fn a_filter_for_nothing_shows_everything(df: TableView)
    ensures
        passing_rows(df, None, None, None, None) == Ok::<TableView, ErrorView>(df),
{
    let keep = passing(df, None, None, None, None);
    lemma_all_kept(df.rows, keep, df.rows.len() as int);
    assert(df.rows.take(df.rows.len() as int) =~= df.rows);
}

proof fn lemma_all_kept(rows: Seq<Seq<CellView>>, keep: Seq<bool>, n: int)
    requires
        0 <= n <= rows.len(),
        forall|i: int| 0 <= i < n ==> #[trigger] keep[i],
    ensures
        crate::table::kept(rows, keep, n) == rows.take(n),
    decreases n,
{
    if n > 0 {
        lemma_all_kept(rows, keep, n - 1);
        assert(keep[n - 1]);
        assert(rows.take(n) =~= rows.take(n - 1).push(rows[n - 1]));
    } else {
        assert(rows.take(0) =~= Seq::empty());
    }
}

/// What is found in the rows is found in the column it is looked for in: a part of a
/// name in the names, and a part of a category in the categories. An empty part is not
/// looked for.
pub proof fn a_part_is_found_in_its_column(
    df: TableView,
    name: Option<Seq<char>>,
    category: Option<Seq<char>>,
    names: Option<Seq<Option<bool>>>,
    categories: Option<(Seq<Option<bool>>, Seq<Option<bool>>)>,
    r: int,
)
    requires
        answers_found(df, name, category, names, categories),
        0 <= r < df.rows.len(),
    ensures
        name_flags(names) is Some <==> (name matches Some(part) && part.len() > 0),
        category_flags(categories) is Some <==> (category matches Some(part) && part.len() > 0),
        name_flags(names) matches Some(found) ==> found.len() == df.rows.len() && (found[r] ==> (
        df.at(r, "expense_name"@) matches CellView::Text(text) && found_in(
            text,
            "(?i)"@ + escaped(name->0),
        ))),
        category_flags(categories) matches Some(found) ==> found.0.len() == df.rows.len()
            && found.1.len() == df.rows.len() && (found.0[r] ==> (df.at(r, "primary_category"@)
            matches CellView::Text(text) && found_in(text, "(?i)"@ + escaped(category->0)))) && (
        found.1[r] ==> (df.at(r, "secondary_category"@) matches CellView::Text(text) && found_in(
            text,
            "(?i)"@ + escaped(category->0),
        ))),
{
    if let Some(answers) = names {
        assert(sought(name) == name);
        assert(answers[r] matches Some(here) ==> here == here);
    }
    if let Some(answers) = categories {
        assert(sought(category) == category);
        assert(answers.0[r] matches Some(here) ==> here == here);
        assert(answers.1[r] matches Some(here) ==> here == here);
    }
}

/// Escaping works character by character: a letter, a digit or any character that
/// stands for itself is kept, and a backslash comes before each of the others.
pub proof fn escaping_works_character_by_character(one: Seq<char>, other: Seq<char>, c: char)
    ensures
        escaped(one + other) == escaped(one) + escaped(other),
        escaped(seq![c]) == if is_escaped(c) {
            seq!['\\', c]
        } else {
            seq![c]
        },
        ('a' <= c <= 'z' || 'A' <= c <= 'Z' || '0' <= c <= '9' || c >= '\u{80}') ==> escaped(seq![c])
            == seq![c],
        (c == '.' || c == '*' || c == '+' || c == '?' || c == '(' || c == ')' || c == '[' || c == ']'
            || c == '{' || c == '}' || c == '|' || c == '^' || c == '$' || c == '\\' || c == '#' || c
            == '&' || c == '-' || c == '~') ==> escaped(seq![c]) == seq!['\\', c],
    decreases other.len(),
{
    let none = Seq::<char>::empty();
    assert(seq![c].drop_last() =~= none);
    assert(escaped(none) =~= none);
    assert(none.push('\\').push(c) =~= seq!['\\', c]);
    assert(none.push(c) =~= seq![c]);
    if other.len() == 0 {
        assert(one + other =~= one);
        assert(escaped(one) + none =~= escaped(one));
    } else {
        let rest = other.drop_last();
        escaping_works_character_by_character(one, rest, c);
        assert((one + other).drop_last() =~= one + rest);
        assert((one + other).last() == other.last());
        let last = other.last();
        if is_escaped(last) {
            assert((escaped(one) + escaped(rest)).push('\\').push(last) =~= escaped(one)
                + escaped(rest).push('\\').push(last));
        } else {
            assert((escaped(one) + escaped(rest)).push(last) =~= escaped(one) + escaped(rest).push(
                last,
            ));
        }
    }
}

} // verus!
