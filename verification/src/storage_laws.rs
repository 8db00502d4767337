//! Where the files lie and what their paths tell.

use vstd::prelude::*;
use crate::error::ErrorView;
use crate::paths::{
    before_suffix, component_from_end, components, lemma_pieces_of_two, month_file, month_in_path,
    names_something, pieces, slash_free, year_in_path, year_path, CASHFLOW_FILENAME,
    CREDITS_DEBTS_FILENAME, INVESTMENTS_FILENAME, INVESTMENTS_PRICES_FILENAME, LIQUIDITY_FILENAME,
    PARQUET_SUFFIX, RECURRING_EXPENSES_FILENAME,
};
use crate::summaries::{category_column, summary_filename};
use crate::text::{
    all_digits, decimal, decimal_digits_spell_their_number, digits_value, is_digit, padded,
    signed_decimal, signed_digits_spell_their_number,
};

verus! {

/// Each table of a year lies in the folder of the year under its own name.
pub proof fn each_table_has_its_file(year: i32)
    ensures
        year_path(year as int, CASHFLOW_FILENAME@) == signed_decimal(year as int)
            + "/cashflow.parquet"@,
        year_path(year as int, INVESTMENTS_FILENAME@) == signed_decimal(year as int)
            + "/investments.parquet"@,
        year_path(year as int, INVESTMENTS_PRICES_FILENAME@) == signed_decimal(year as int)
            + "/investments_prices.parquet"@,
        year_path(year as int, LIQUIDITY_FILENAME@) == signed_decimal(year as int)
            + "/liquidity.parquet"@,
        year_path(year as int, CREDITS_DEBTS_FILENAME@) == signed_decimal(year as int)
            + "/credits_debts.parquet"@,
        year_path(year as int, RECURRING_EXPENSES_FILENAME@) == signed_decimal(year as int)
            + "/recurring_expenses.parquet"@,
        forall|month: nat| #[trigger]
            year_path(year as int, month_file(month)) == signed_decimal(year as int) + "/"@ + padded(
                month,
                2,
            ) + "_detailed_expenses.parquet"@,
        year_path(year as int, summary_filename("primary"@)) == signed_decimal(year as int)
            + "/primaries.parquet"@,
        year_path(year as int, summary_filename("secondary"@)) == signed_decimal(year as int)
            + "/secondaries.parquet"@,
        category_column("primary"@) == "primary_category"@,
        category_column("secondary"@) == "secondary_category"@,
{
    let folder = signed_decimal(year as int);
    reveal_strlit("/");
    assert(folder.push('/') =~= folder + "/"@);
    reveal_strlit("primary");
    reveal_strlit("secondary");
    assert("primary"@.len() != "secondary"@.len());
    reveal_strlit("_category");
    reveal_strlit("primary_category");
    reveal_strlit("secondary_category");
    assert("primary"@ + "_category"@ =~= "primary_category"@);
    assert("secondary"@ + "_category"@ =~= "secondary_category"@);
    lemma_in_folder_cashflow(folder);
    lemma_in_folder_investments(folder);
    lemma_in_folder_others(folder);
    assert forall|month: nat| #[trigger] year_path(year as int, month_file(month)) == folder + "/"@
        + padded(month, 2) + "_detailed_expenses.parquet"@ by {
        assert(year_path(year as int, month_file(month)) =~= folder + "/"@ + padded(month, 2)
            + "_detailed_expenses.parquet"@);
    }
}

proof fn lemma_in_folder_cashflow(folder: Seq<char>)
    ensures
        folder.push('/') + "cashflow.parquet"@ == folder + "/cashflow.parquet"@,
        folder.push('/') + "liquidity.parquet"@ == folder + "/liquidity.parquet"@,
        folder.push('/') + "credits_debts.parquet"@ == folder + "/credits_debts.parquet"@,
{
    reveal_strlit("cashflow.parquet");
    reveal_strlit("/cashflow.parquet");
    reveal_strlit("liquidity.parquet");
    reveal_strlit("/liquidity.parquet");
    reveal_strlit("credits_debts.parquet");
    reveal_strlit("/credits_debts.parquet");
    assert(folder.push('/') + "cashflow.parquet"@ =~= folder + "/cashflow.parquet"@);
    assert(folder.push('/') + "liquidity.parquet"@ =~= folder + "/liquidity.parquet"@);
    assert(folder.push('/') + "credits_debts.parquet"@ =~= folder + "/credits_debts.parquet"@);
}

proof fn lemma_in_folder_investments(folder: Seq<char>)
    ensures
        folder.push('/') + "investments.parquet"@ == folder + "/investments.parquet"@,
        folder.push('/') + "investments_prices.parquet"@ == folder + "/investments_prices.parquet"@,
        folder.push('/') + "recurring_expenses.parquet"@ == folder + "/recurring_expenses.parquet"@,
{
    reveal_strlit("investments.parquet");
    reveal_strlit("/investments.parquet");
    reveal_strlit("investments_prices.parquet");
    reveal_strlit("/investments_prices.parquet");
    reveal_strlit("recurring_expenses.parquet");
    reveal_strlit("/recurring_expenses.parquet");
    assert(folder.push('/') + "investments.parquet"@ =~= folder + "/investments.parquet"@);
    assert(folder.push('/') + "investments_prices.parquet"@ =~= folder
        + "/investments_prices.parquet"@);
    assert(folder.push('/') + "recurring_expenses.parquet"@ =~= folder
        + "/recurring_expenses.parquet"@);
}

proof fn lemma_in_folder_others(folder: Seq<char>)
    ensures
        folder.push('/') + "primaries.parquet"@ == folder + "/primaries.parquet"@,
        folder.push('/') + "secondaries.parquet"@ == folder + "/secondaries.parquet"@,
{
    reveal_strlit("primaries.parquet");
    reveal_strlit("/primaries.parquet");
    reveal_strlit("secondaries.parquet");
    reveal_strlit("/secondaries.parquet");
    assert(folder.push('/') + "primaries.parquet"@ =~= folder + "/primaries.parquet"@);
    assert(folder.push('/') + "secondaries.parquet"@ =~= folder + "/secondaries.parquet"@);
}

/// The path of any file of a year tells its year.
pub proof fn a_path_tells_its_year(year: i32, filename: Seq<char>)
    requires
        slash_free(filename),
        filename.len() > 0,
        filename != seq!['.'],
    ensures
        year_in_path(year_path(year as int, filename)) == Ok::<int, ErrorView>(year as int),
{
    let folder = signed_decimal(year as int);
    let path = year_path(year as int, filename);
    signed_digits_spell_their_number(year as int);
    if year < 0 {
        decimal_digits_spell_their_number((-year) as nat, 0);
        assert forall|i: int| 0 <= i < folder.len() implies (#[trigger] folder[i]) != '/' by {
            if i > 0 {
                assert(is_digit(decimal((-year) as nat)[i - 1]));
            }
        }
        assert(folder[0] == '-');
    } else {
        decimal_digits_spell_their_number(year as nat, 0);
        assert forall|i: int| 0 <= i < folder.len() implies (#[trigger] folder[i]) != '/' by {
            assert(is_digit(folder[i]));
        }
        assert(is_digit(folder[0]));
    }
    lemma_pieces_of_two(folder, filename);
    reveal_with_fuel(Seq::<_>::filter, 3);
    assert(seq![folder, filename].drop_last() =~= seq![folder]);
    assert(seq![folder].drop_last() =~= Seq::empty());
    assert(folder != seq!['.']) by {
        assert(seq!['.'][0] == '.');
    }
    assert(folder != seq!['.', '.']) by {
        assert(seq!['.', '.'][0] == '.');
    }
    let all = components(path);
    assert(names_something()(folder) && names_something()(filename));
    assert(all =~= seq![folder, filename]);
}

/// A month that a path tells is spelled by the name of its file, in two digits.
pub proof fn a_month_is_told_by_the_name_of_its_file(path: Seq<char>, month: int)
    requires
        month_in_path(path) == Ok::<int, ErrorView>(month),
    ensures
        1 <= month <= 12,
        components(path).len() > 0,
        components(path).last() == padded(month as nat, 2) + "_detailed_expenses.parquet"@,
{
    let name = component_from_end(path, 0)->0;
    let shown = before_suffix(name, PARQUET_SUFFIX@)->0;
    let other = padded(month as nat, 2);
    assert(shown.len() == 2 && all_digits(shown) && digits_value(shown) == month);
    decimal_digits_spell_their_number(month as nat, 2);
    reveal_with_fuel(decimal, 3);
    reveal_with_fuel(digits_value, 3);
    assert(other.len() == 2);
    assert(is_digit(shown[0]) && is_digit(shown[1]) && is_digit(other[0]) && is_digit(other[1]));
    assert(shown.drop_last().drop_last() =~= Seq::empty());
    assert(other.drop_last().drop_last() =~= Seq::empty());
    assert(shown.drop_last().last() == shown[0]);
    assert(other.drop_last().last() == other[0]);
    assert(shown =~= other);
    assert(name =~= shown + PARQUET_SUFFIX@);
}

/// A path that tells no year or no month is a wrong argument.
pub proof fn a_path_that_tells_nothing_is_refused(path: Seq<char>)
    ensures
        year_in_path(path) matches Err(e) ==> e.status() == 400,
        month_in_path(path) matches Err(e) ==> e.status() == 400,
{
}

/// The components of a path are the stretches between its slashes that name something,
/// in their order.
pub proof fn a_path_is_made_of_its_components(path: Seq<char>, name: Seq<char>)
    requires
        slash_free(name),
    ensures
        components(path.push('/') + name) == if name.len() > 0 && name != seq!['.'] {
            components(path).push(name)
        } else {
            components(path)
        },
{
    lemma_one_more_piece(path, name);
    pieces(path).lemma_filter_push(name, names_something());
}

proof fn lemma_one_more_piece(path: Seq<char>, name: Seq<char>)
    requires
        slash_free(name),
    ensures
        pieces(path.push('/') + name) == pieces(path).push(name),
    decreases name.len(),
{
    let whole = path.push('/') + name;
    if name.len() == 0 {
        assert(whole =~= path.push('/'));
        assert(whole.drop_last() =~= path);
        assert(name =~= Seq::empty());
    } else {
        let front = name.drop_last();
        assert forall|i: int| 0 <= i < front.len() implies (#[trigger] front[i]) != '/' by {
            assert(name[i] == front[i]);
        }
        assert(whole.drop_last() =~= path.push('/') + front);
        assert(whole.last() == name.last());
        assert(name[name.len() - 1] != '/');
        lemma_one_more_piece(path, front);
        let before = pieces(path).push(front);
        assert(before.update(before.len() - 1, before.last().push(name.last())) =~= pieces(path).push(
            name,
        )) by {
            assert(front.push(name.last()) =~= name);
        }
    }
}

} // verus!
