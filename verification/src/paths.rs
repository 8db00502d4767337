//! Where the data files lie, relative to the data folder: one folder per year,
//! with one file of expenses per month and one file per yearly table.

use vstd::prelude::*;
use crate::error::{Error, ErrorView};
use crate::text::{
    all_digits, chars_of, decimal, decimal_digits_spell_their_number, digits_value, is_digit,
    padded, parse_i32, push_decimal, push_padded, push_signed, same_text, signed_decimal,
    signed_digits_spell_their_number, spelled_within,
};

verus! {

/// What follows the month in the name of a file of expenses.
pub const PARQUET_SUFFIX: &'static str = "_detailed_expenses.parquet";

/// File name of the table of primary categories.
pub const PRIMARIES_FILENAME: &'static str = "primaries.parquet";

/// File name of the table of secondary categories.
pub const SECONDARIES_FILENAME: &'static str = "secondaries.parquet";

/// File name of the cashflow table.
pub const CASHFLOW_FILENAME: &'static str = "cashflow.parquet";

/// File name of the investments table.
pub const INVESTMENTS_FILENAME: &'static str = "investments.parquet";

/// File name of the table of investment prices.
pub const INVESTMENTS_PRICES_FILENAME: &'static str = "investments_prices.parquet";

/// File name of the liquidity table.
pub const LIQUIDITY_FILENAME: &'static str = "liquidity.parquet";

/// File name of the table of credits and debts.
pub const CREDITS_DEBTS_FILENAME: &'static str = "credits_debts.parquet";

/// File name of the table of recurring expenses.
pub const RECURRING_EXPENSES_FILENAME: &'static str = "recurring_expenses.parquet";

/// The path of a file of a year.
pub open spec fn year_path(year: int, filename: Seq<char>) -> Seq<char> {
    signed_decimal(year).push('/') + filename
}

/// The file name of the expenses of a month.
pub open spec fn month_file(month: nat) -> Seq<char> {
    padded(month, 2) + PARQUET_SUFFIX@
}

/// The path of a yearly table.
pub fn get_year_summary_path(year: i32, filename: &str) -> (r: String)
    ensures
        r@ == year_path(year as int, filename@),
{
    let mut path = String::new();
    push_signed(&mut path, year as i64);
    path.push('/');
    path.append(filename);
    assert(path@ =~= year_path(year as int, filename@));
    path
}

/// The file name of the expenses of a month.
pub fn month_file_name(month: u32) -> (r: String)
    ensures
        r@ == month_file(month as nat),
{
    let mut name = String::new();
    push_padded(&mut name, month as u64, 2);
    name.append(PARQUET_SUFFIX);
    assert(name@ =~= month_file(month as nat));
    name
}

/// What is wrong with a month that is none of the twelve.
pub open spec fn month_error(month: nat) -> ErrorView {
    ErrorView::InvalidArgument("month must be between 1 and 12, got "@ + decimal(month))
}

/// Fail unless a month is one of the twelve.
pub fn check_month(month: u32) -> (r: Result<(), Error>)
    ensures
        match r {
            Ok(()) => 1 <= month <= 12,
            Err(e) => !(1 <= month <= 12) && e@ == month_error(month as nat),
        },
{
    if 1 <= month && month <= 12 {
        Ok(())
    } else {
        let mut message = "month must be between 1 and 12, got ".to_owned();
        push_decimal(&mut message, month as u64);
        Err(Error::InvalidArgument(message))
    }
}

/// The path of the expenses of a month.
pub fn get_monthly_parquet_path(year: i32, month: u32) -> (r: Result<String, Error>)
    ensures
        match r {
            Ok(path) => 1 <= month <= 12 && path@ == year_path(
                year as int,
                month_file(month as nat),
            ),
            Err(e) => !(1 <= month <= 12) && e@ == month_error(month as nat),
        },
{
    check_month(month)?;
    let name = month_file_name(month);
    Ok(get_year_summary_path(year, name.as_str()))
}

/// The pieces of a path between its slashes.
pub open spec fn pieces(path: Seq<char>) -> Seq<Seq<char>>
    decreases path.len(),
{
    if path.len() == 0 {
        seq![Seq::empty()]
    } else {
        let front = pieces(path.drop_last());
        if path.last() == '/' {
            front.push(Seq::empty())
        } else {
            front.update(front.len() - 1, front.last().push(path.last()))
        }
    }
}

/// Picks the pieces that name something: not empty and not a single dot.
pub open spec fn names_something() -> spec_fn(Seq<char>) -> bool {
    |piece: Seq<char>| piece.len() > 0 && piece != seq!['.']
}

/// The components of a path.
pub open spec fn components(path: Seq<char>) -> Seq<Seq<char>> {
    pieces(path).filter(names_something())
}

/// The component that stands `back` places from the end of a path, unless it
/// leads to the parent folder.
pub open spec fn component_from_end(path: Seq<char>, back: int) -> Option<Seq<char>> {
    let all = components(path);
    if all.len() > back && all[all.len() - 1 - back] != seq!['.', '.'] {
        Some(all[all.len() - 1 - back])
    } else {
        None
    }
}

fn split_components(path: &str) -> (r: Vec<String>)
    ensures
        Seq::new(r@.len(), |i: int| r@[i]@) == components(path@),
{
    let chars = chars_of(path);
    let mut found: Vec<String> = Vec::new();
    let mut piece = String::new();
    let mut i: usize = 0;
    let ghost all = path@;
    proof {
        assert(all.take(0) =~= Seq::empty());
        assert(pieces(all.take(0)).drop_last() =~= Seq::empty());
        reveal(Seq::filter);
        assert(Seq::new(found@.len(), |k: int| found@[k]@) =~= pieces(all.take(0)).drop_last().filter(
            names_something(),
        ));
    }
    while i < chars.len()
        invariant
            i <= chars.len(),
            chars@ == all,
            pieces(all.take(i as int)).len() >= 1,
            piece@ == pieces(all.take(i as int)).last(),
            Seq::new(found@.len(), |k: int| found@[k]@) == pieces(
                all.take(i as int),
            ).drop_last().filter(names_something()),
        decreases chars.len() - i,
    {
        let ghost front = pieces(all.take(i as int));
        proof {
            assert(all.take(i + 1).drop_last() =~= all.take(i as int));
            assert(all.take(i + 1).last() == chars@[i as int]);
        }
        if chars[i] == '/' {
            proof {
                assert(pieces(all.take(i + 1)).drop_last() =~= front);
                assert(front =~= front.drop_last().push(piece@));
                front.drop_last().lemma_filter_push(piece@, names_something());
            }
            let ghost before = Seq::new(found@.len(), |k: int| found@[k]@);
            keep_component(&mut found, &piece);
            piece = String::new();
            assert(piece@ =~= Seq::empty());
        } else {
            piece.push(chars[i]);
            assert(pieces(all.take(i + 1)).drop_last() =~= front.drop_last());
        }
        i = i + 1;
    }
    proof {
        assert(all.take(i as int) =~= all);
        let front = pieces(all);
        assert(front =~= front.drop_last().push(piece@));
        front.drop_last().lemma_filter_push(piece@, names_something());
    }
    keep_component(&mut found, &piece);
    found
}

/// Add a piece of a path to a list, if it names something.
fn keep_component(found: &mut Vec<String>, piece: &String)
    ensures
        Seq::new(final(found)@.len(), |k: int| final(found)@[k]@) == if names_something()(piece@) {
            Seq::new(old(found)@.len(), |k: int| old(found)@[k]@).push(piece@)
        } else {
            Seq::new(old(found)@.len(), |k: int| old(found)@[k]@)
        },
{
    let ghost before = Seq::new(found@.len(), |k: int| found@[k]@);
    let dot = same_text(piece.as_str(), ".");
    proof {
        reveal_strlit(".");
        assert("."@ =~= seq!['.']);
    }
    if !piece.as_str().is_empty() && !dot {
        found.push(piece.clone());
        assert(Seq::new(found@.len(), |k: int| found@[k]@) =~= before.push(piece@));
    }
}

/// The component that stands `back` places from the end of a path, unless it
/// leads to the parent folder.
fn component_back(path: &str, back: usize) -> (r: Option<String>)
    ensures
        match r {
            Some(name) => component_from_end(path@, back as int) == Some(name@),
            None => component_from_end(path@, back as int) is None,
        },
{
    let all = split_components(path);
    let ghost views = Seq::new(all@.len(), |i: int| all@[i]@);
    if all.len() <= back {
        return None;
    }
    let i: usize = all.len() - 1 - back;
    assert(views[i as int] == all@[i as int]@);
    proof {
        reveal_strlit("..");
        assert(".."@ =~= seq!['.', '.']);
    }
    if same_text(all[i].as_str(), "..") {
        None
    } else {
        Some(all[i].clone())
    }
}

/// A text without what it ends in.
pub open spec fn before_suffix(text: Seq<char>, suffix: Seq<char>) -> Option<Seq<char>> {
    if text.len() >= suffix.len() && text.skip(text.len() - suffix.len()) == suffix {
        Some(text.take(text.len() - suffix.len()))
    } else {
        None
    }
}

fn strip_suffix(text: &str, suffix: &str) -> (r: Option<String>)
    ensures
        match r {
            Some(rest) => before_suffix(text@, suffix@) == Some(rest@),
            None => before_suffix(text@, suffix@) is None,
        },
{
    let n: usize = text.unicode_len();
    let m: usize = suffix.unicode_len();
    if n < m {
        return None;
    }
    let end = text.substring_char(n - m, n);
    assert(text@.skip(n - m) =~= text@.subrange(n - m, n as int));
    if same_text(end, suffix) {
        assert(text@.take(n - m) =~= text@.subrange(0, n - m));
        Some(text.substring_char(0, n - m).to_owned())
    } else {
        None
    }
}

/// What reading the month of a path gives: the name of the file is two digits that
/// spell a month, and the suffix.
pub open spec fn month_in_path(path: Seq<char>) -> Result<int, ErrorView> {
    match component_from_end(path, 0) {
        None => Err(ErrorView::InvalidArgument("Invalid path: "@ + path)),
        Some(name) => match before_suffix(name, PARQUET_SUFFIX@) {
            None => Err(
                ErrorView::InvalidArgument(
                    "Filename '"@ + name + "' does not match the expected pattern 'MM"@
                        + PARQUET_SUFFIX@ + "'."@,
                ),
            ),
            Some(shown) => if !(shown.len() == 2 && all_digits(shown)) {
                Err(
                    ErrorView::InvalidArgument(
                        "Could not parse month from filename '"@ + name
                            + "'. Expected the first two characters to be a zero-padded month number."@,
                    ),
                )
            } else if 1 <= digits_value(shown) <= 12 {
                Ok(digits_value(shown))
            } else {
                Err(
                    ErrorView::InvalidArgument(
                        "Parsed month "@ + decimal(digits_value(shown) as nat) + " from '"@ + name
                            + "' is out of range (1–12)."@,
                    ),
                )
            },
        },
    }
}

/// The number that a text of two digits spells.
fn two_digits(text: &str) -> (r: Option<u32>)
    ensures
        match r {
            Some(n) => text@.len() == 2 && all_digits(text@) && n == digits_value(text@),
            None => !(text@.len() == 2 && all_digits(text@)),
        },
{
    if text.unicode_len() != 2 {
        return None;
    }
    let tens = text.get_char(0);
    let ones = text.get_char(1);
    if !('0' <= tens && tens <= '9') {
        assert(!is_digit(text@[0]));
        return None;
    }
    if !('0' <= ones && ones <= '9') {
        assert(!is_digit(text@[1]));
        return None;
    }
    proof {
        assert(text@.drop_last().drop_last() =~= Seq::empty());
        reveal_with_fuel(digits_value, 3);
    }
    Some(10 * (tens as u32 - '0' as u32) + (ones as u32 - '0' as u32))
}

/// The month that the name of a file of expenses gives.
pub fn month_from_parquet_path(path: &str) -> (r: Result<u32, Error>)
    ensures
        match r {
            Ok(month) => month_in_path(path@) == Ok::<int, ErrorView>(month as int),
            Err(e) => month_in_path(path@) == Err::<int, ErrorView>(e@),
        },
{
    let name = match component_back(path, 0) {
        Some(name) => name,
        None => {
            return Err(Error::InvalidArgument("Invalid path: ".to_owned().concat(path)));
        },
    };
    let shown = match strip_suffix(name.as_str(), PARQUET_SUFFIX) {
        Some(shown) => shown,
        None => {
            return Err(
                Error::InvalidArgument(
                    "Filename '".to_owned().concat(name.as_str()).concat(
                        "' does not match the expected pattern 'MM",
                    ).concat(PARQUET_SUFFIX).concat("'."),
                ),
            );
        },
    };
    let month: u32 = match two_digits(shown.as_str()) {
        Some(month) => month,
        None => {
            return Err(
                Error::InvalidArgument(
                    "Could not parse month from filename '".to_owned().concat(name.as_str()).concat(
                        "'. Expected the first two characters to be a zero-padded month number.",
                    ),
                ),
            );
        },
    };
    if 1 <= month && month <= 12 {
        Ok(month)
    } else {
        let mut message = "Parsed month ".to_owned();
        push_decimal(&mut message, month as u64);
        Err(
            Error::InvalidArgument(
                message.concat(" from '").concat(name.as_str()).concat(
                    "' is out of range (1–12).",
                ),
            ),
        )
    }
}

/// What reading the year of a path gives.
pub open spec fn year_in_path(path: Seq<char>) -> Result<int, ErrorView> {
    let parent = match component_from_end(path, 1) {
        Some(name) => name,
        None => Seq::empty(),
    };
    match spelled_within(parent, i32::MIN as int, i32::MAX as int) {
        Some(year) => Ok(year),
        None => Err(
            ErrorView::InvalidArgument(
                "Could not parse year from parent directory '"@ + parent
                    + "'. Expected the parquet file to sit inside a directory named after the year (e.g. '2026/')."@,
            ),
        ),
    }
}

/// The year that the folder of a file gives.
pub fn year_from_parquet_path(path: &str) -> (r: Result<i32, Error>)
    ensures
        match r {
            Ok(year) => year_in_path(path@) == Ok::<int, ErrorView>(year as int),
            Err(e) => year_in_path(path@) == Err::<int, ErrorView>(e@),
        },
{
    let parent = match component_back(path, 1) {
        Some(name) => name,
        None => {
            let none = String::new();
            assert(none@ =~= Seq::empty());
            none
        },
    };
    match parse_i32(parent.as_str()) {
        Some(year) => Ok(year),
        None => Err(
            Error::InvalidArgument(
                "Could not parse year from parent directory '".to_owned().concat(
                    parent.as_str(),
                ).concat(
                    "'. Expected the parquet file to sit inside a directory named after the year (e.g. '2026/').",
                ),
            ),
        ),
    }
}

/// The year and month that the path of a file of expenses gives. What is wrong
/// with the year is reported first.
pub fn year_month_from_parquet_path(path: &str) -> (r: Result<(i32, u32), Error>)
    ensures
        match r {
            Ok(it) => year_in_path(path@) == Ok::<int, ErrorView>(it.0 as int) && month_in_path(
                path@,
            ) == Ok::<int, ErrorView>(it.1 as int),
            Err(e) => year_in_path(path@) == Err::<int, ErrorView>(e@) || (year_in_path(
                path@,
            ) is Ok && month_in_path(path@) == Err::<int, ErrorView>(e@)),
        },
{
    let year: i32 = year_from_parquet_path(path)?;
    let month: u32 = month_from_parquet_path(path)?;
    Ok((year, month))
}

/// Whether a text holds no slash.
pub open spec fn slash_free(text: Seq<char>) -> bool {
    forall|i: int| 0 <= i < text.len() ==> (#[trigger] text[i]) != '/'
}

proof fn lemma_pieces_of_one(text: Seq<char>)
    requires
        slash_free(text),
    ensures
        pieces(text) == seq![text],
    decreases text.len(),
{
    if text.len() > 0 {
        let front = text.drop_last();
        assert forall|i: int| 0 <= i < front.len() implies (#[trigger] front[i]) != '/' by {
            assert(front[i] == text[i]);
        }
        lemma_pieces_of_one(front);
        assert(text[text.len() - 1] != '/');
        assert(front.push(text.last()) =~= text);
        assert(pieces(text) =~= seq![text]);
    } else {
        assert(text =~= Seq::empty());
    }
}

pub proof fn lemma_pieces_of_two(a: Seq<char>, b: Seq<char>)
    requires
        slash_free(a),
        slash_free(b),
    ensures
        pieces(a.push('/') + b) == seq![a, b],
    decreases b.len(),
{
    let whole = a.push('/') + b;
    if b.len() == 0 {
        assert(whole =~= a.push('/'));
        assert(whole.drop_last() =~= a);
        lemma_pieces_of_one(a);
        assert(b =~= Seq::empty());
        assert(pieces(whole) =~= seq![a, b]);
    } else {
        let front = b.drop_last();
        assert forall|i: int| 0 <= i < front.len() implies (#[trigger] front[i]) != '/' by {
            assert(front[i] == b[i]);
        }
        lemma_pieces_of_two(a, front);
        assert(whole.drop_last() =~= a.push('/') + front);
        assert(whole.last() == b[b.len() - 1]);
        assert(front.push(b.last()) =~= b);
        assert(pieces(whole) =~= seq![a, b]);
    }
}

/// The path of the expenses of a month gives its year and month back.
pub proof fn a_monthly_path_gives_its_month_back(year: i32, month: u32)
    requires
        1 <= month <= 12,
    ensures
        year_in_path(year_path(year as int, month_file(month as nat))) == Ok::<int, ErrorView>(
            year as int,
        ),
        month_in_path(year_path(year as int, month_file(month as nat))) == Ok::<int, ErrorView>(
            month as int,
        ),
{
    let folder = signed_decimal(year as int);
    let file = month_file(month as nat);
    let shown = padded(month as nat, 2);
    let path = year_path(year as int, file);
    decimal_digits_spell_their_number(month as nat, 2);
    signed_digits_spell_their_number(year as int);
    reveal_strlit("_detailed_expenses.parquet");
    let suffix = PARQUET_SUFFIX@;
    assert(suffix.len() == 26);
    assert(shown.len() == 2) by {
        reveal_with_fuel(decimal, 3);
    }
    assert forall|i: int| 0 <= i < folder.len() implies (#[trigger] folder[i]) != '/' by {
        if year < 0 {
            decimal_digits_spell_their_number((-year) as nat, 0);
            if i > 0 {
                assert(folder[i] == decimal((-year) as nat)[i - 1]);
                assert(is_digit(decimal((-year) as nat)[i - 1]));
            }
        } else {
            decimal_digits_spell_their_number(year as nat, 0);
            assert(is_digit(decimal(year as nat)[i]));
        }
    }
    assert forall|i: int| 0 <= i < file.len() implies (#[trigger] file[i]) != '/' by {
        if i < shown.len() {
            assert(file[i] == shown[i]);
            assert(is_digit(shown[i]));
        } else {
            assert(file[i] == suffix[i - shown.len()]);
        }
    }
    lemma_pieces_of_two(folder, file);
    assert(folder.len() >= 1 && folder[0] != '.') by {
        if year < 0 {
            decimal_digits_spell_their_number((-year) as nat, 0);
            assert(folder[0] == '-');
        } else {
            decimal_digits_spell_their_number(year as nat, 0);
            assert(is_digit(decimal(year as nat)[0]));
        }
    }
    assert(file[0] != '.') by {
        assert(file[0] == shown[0]);
        assert(is_digit(shown[0]));
    }
    assert(names_something()(folder)) by {
        assert(seq!['.'][0] == '.');
    }
    assert(names_something()(file)) by {
        assert(seq!['.'][0] == '.');
    }
    reveal_with_fuel(Seq::<_>::filter, 3);
    let all = components(path);
    assert(seq![folder, file].drop_last() =~= seq![folder]);
    assert(seq![folder].drop_last() =~= Seq::<Seq<char>>::empty());
    assert(all =~= seq![folder, file]);
    assert(folder != seq!['.', '.']) by {
        assert(seq!['.', '.'][0] == '.');
    }
    assert(file != seq!['.', '.']) by {
        assert(seq!['.', '.'][0] == '.');
    }
    assert(file.skip(file.len() - suffix.len()) =~= suffix);
    assert(file.take(file.len() - suffix.len()) =~= shown);
    assert(shown.len() >= 1 && is_digit(shown[0]));
}

} // verus!
