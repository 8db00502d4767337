//! How the names of categories are spelled.

use vstd::prelude::*;
use crate::config::{KnownCategories, KnownView};
use crate::frames::{cell_text, find_texts, has_texts, text_in};
use crate::table::{Table, TableView};
use crate::text::{
    char_to_uppercase, lower_case, same_text, texts, to_lowercase, upper_case_char,
};

verus! {

/// The spelling of a category that has one of its own, by its name in lower case.
pub open spec fn special_spelling(lower: Seq<char>) -> Option<Seq<char>> {
    if lower == "tv"@ {
        Some("TV"@)
    } else if lower == "otherexpenses"@ {
        Some("OtherExpenses"@)
    } else if lower == "mrstuff"@ {
        Some("MrStuff"@)
    } else if lower == "techdonations"@ {
        Some("TechDonations"@)
    } else if lower == "othergroceries"@ {
        Some("OtherGroceries"@)
    } else if lower == "condofee"@ {
        Some("CondoFee"@)
    } else if lower == "takeaway"@ {
        Some("TakeAway"@)
    } else if lower == "mrclothing"@ {
        Some("MrClothing"@)
    } else if lower == "mrbooks"@ {
        Some("MrBooks"@)
    } else if lower == "mrleisure"@ {
        Some("MrLeisure"@)
    } else if lower == "mrlearning"@ {
        Some("MrLearning"@)
    } else if lower == "otherleisure"@ {
        Some("OtherLeisure"@)
    } else if lower == "otherfees"@ {
        Some("OtherFees"@)
    } else if lower == "unatantum"@ {
        Some("Unatantum"@)
    } else if lower == "charityenv"@ {
        Some("CharityEnv"@)
    } else if lower == "charityhum"@ {
        Some("CharityHum"@)
    } else if lower == "patreon-like"@ {
        Some("Patreon-Like"@)
    } else {
        None
    }
}

fn special_case(lower: &str) -> (r: Option<&'static str>)
    ensures
        match r {
            Some(spelling) => special_spelling(lower@) == Some(spelling@),
            None => special_spelling(lower@) is None,
        },
{
    if same_text(lower, "tv") {
        Some("TV")
    } else if same_text(lower, "otherexpenses") {
        Some("OtherExpenses")
    } else if same_text(lower, "mrstuff") {
        Some("MrStuff")
    } else if same_text(lower, "techdonations") {
        Some("TechDonations")
    } else if same_text(lower, "othergroceries") {
        Some("OtherGroceries")
    } else if same_text(lower, "condofee") {
        Some("CondoFee")
    } else if same_text(lower, "takeaway") {
        Some("TakeAway")
    } else if same_text(lower, "mrclothing") {
        Some("MrClothing")
    } else if same_text(lower, "mrbooks") {
        Some("MrBooks")
    } else if same_text(lower, "mrleisure") {
        Some("MrLeisure")
    } else if same_text(lower, "mrlearning") {
        Some("MrLearning")
    } else if same_text(lower, "otherleisure") {
        Some("OtherLeisure")
    } else if same_text(lower, "otherfees") {
        Some("OtherFees")
    } else if same_text(lower, "unatantum") {
        Some("Unatantum")
    } else if same_text(lower, "charityenv") {
        Some("CharityEnv")
    } else if same_text(lower, "charityhum") {
        Some("CharityHum")
    } else if same_text(lower, "patreon-like") {
        Some("Patreon-Like")
    } else {
        None
    }
}

/// The spelling of a category by its name in lower case: its own, or with its
/// first letter in upper case.
pub open spec fn spelling(lower: Seq<char>) -> Seq<char> {
    match special_spelling(lower) {
        Some(own) => own,
        None => if lower.len() == 0 {
            lower
        } else {
            upper_case_char(lower[0]) + lower.drop_first()
        },
    }
}

/// The spelling of a category by its name in lower case.
pub fn spell(lower: &str) -> (r: String)
    ensures
        r@ == spelling(lower@),
{
    if let Some(own) = special_case(lower) {
        return own.to_owned();
    }
    let len: usize = lower.unicode_len();
    if len == 0 {
        return lower.to_owned();
    }
    let first = char_to_uppercase(lower.get_char(0));
    let rest = lower.substring_char(1, len);
    assert(rest@ =~= lower@.drop_first());
    first.concat(rest)
}

/// The canonical spelling of a category.
pub open spec fn normalized(value: Seq<char>) -> Seq<char> {
    spelling(lower_case(value))
}

/// The canonical spelling of a category.
pub fn normalize_category_value(value: &str) -> (r: String)
    ensures
        r@ == normalized(value@),
{
    spell(to_lowercase(value).as_str())
}

/// Whether two characters are the same letter, in lower and in either case.
pub open spec fn same_letter(lower: char, either: char) -> bool {
    either == lower || ('a' <= lower <= 'z' && either as int + 32 == lower as int)
}

/// A category that has a spelling of its own is spelled with the letters of its name,
/// the first one in upper case; only the case of the others may differ.
pub proof fn a_spelling_of_its_own_keeps_the_letters(lower: Seq<char>)
    requires
        special_spelling(lower) is Some,
    ensures
        ({
            let own = special_spelling(lower)->0;
            &&& own.len() == lower.len()
            &&& own.len() > 0
            &&& 'A' <= own[0] <= 'Z'
            &&& forall|i: int| 0 <= i < lower.len() ==> same_letter(lower[i], #[trigger] own[i])
        }),
{
    reveal_strlit("tv");
    reveal_strlit("TV");
    reveal_strlit("otherexpenses");
    reveal_strlit("OtherExpenses");
    reveal_strlit("mrstuff");
    reveal_strlit("MrStuff");
    reveal_strlit("techdonations");
    reveal_strlit("TechDonations");
    reveal_strlit("othergroceries");
    reveal_strlit("OtherGroceries");
    reveal_strlit("condofee");
    reveal_strlit("CondoFee");
    reveal_strlit("takeaway");
    reveal_strlit("TakeAway");
    reveal_strlit("mrclothing");
    reveal_strlit("MrClothing");
    reveal_strlit("mrbooks");
    reveal_strlit("MrBooks");
    reveal_strlit("mrleisure");
    reveal_strlit("MrLeisure");
    reveal_strlit("mrlearning");
    reveal_strlit("MrLearning");
    reveal_strlit("otherleisure");
    reveal_strlit("OtherLeisure");
    reveal_strlit("otherfees");
    reveal_strlit("OtherFees");
    reveal_strlit("unatantum");
    reveal_strlit("Unatantum");
    reveal_strlit("charityenv");
    reveal_strlit("CharityEnv");
    reveal_strlit("charityhum");
    reveal_strlit("CharityHum");
    reveal_strlit("patreon-like");
    reveal_strlit("Patreon-Like");
}

/// Any other category is spelled with its first letter in upper case, and an empty one
/// stays empty.
pub proof fn other_categories_begin_in_upper_case(lower: Seq<char>)
    requires
        special_spelling(lower) is None,
    ensures
        lower.len() == 0 ==> spelling(lower).len() == 0,
        lower.len() > 0 ==> spelling(lower) == upper_case_char(lower[0]) + lower.skip(1),
{
    if lower.len() > 0 {
        assert(lower.drop_first() =~= lower.skip(1));
    }
}

/// The categories with a spelling of their own, and how each of them is spelled.
pub proof fn some_categories_have_a_spelling_of_their_own()
    ensures
        spelling("tv"@) == "TV"@,
        spelling("otherexpenses"@) == "OtherExpenses"@,
        spelling("mrstuff"@) == "MrStuff"@,
        spelling("techdonations"@) == "TechDonations"@,
        spelling("othergroceries"@) == "OtherGroceries"@,
        spelling("condofee"@) == "CondoFee"@,
        spelling("takeaway"@) == "TakeAway"@,
        spelling("mrclothing"@) == "MrClothing"@,
        spelling("mrbooks"@) == "MrBooks"@,
        spelling("mrleisure"@) == "MrLeisure"@,
        spelling("mrlearning"@) == "MrLearning"@,
        spelling("otherleisure"@) == "OtherLeisure"@,
        spelling("otherfees"@) == "OtherFees"@,
        spelling("unatantum"@) == "Unatantum"@,
        spelling("charityenv"@) == "CharityEnv"@,
        spelling("charityhum"@) == "CharityHum"@,
        spelling("patreon-like"@) == "Patreon-Like"@,
{
    reveal_strlit("tv");
    assert("tv"@.len() == 2);
    reveal_strlit("otherexpenses");
    assert("otherexpenses"@.len() == 13 && "otherexpenses"@[0] == 'o');
    reveal_strlit("mrstuff");
    assert("mrstuff"@.len() == 7 && "mrstuff"@[2] == 's');
    reveal_strlit("techdonations");
    assert("techdonations"@.len() == 13 && "techdonations"@[0] == 't');
    reveal_strlit("othergroceries");
    assert("othergroceries"@.len() == 14);
    reveal_strlit("condofee");
    assert("condofee"@.len() == 8 && "condofee"@[0] == 'c');
    reveal_strlit("takeaway");
    assert("takeaway"@.len() == 8 && "takeaway"@[0] == 't');
    reveal_strlit("mrclothing");
    assert("mrclothing"@.len() == 10 && "mrclothing"@[0] == 'm' && "mrclothing"@[2] == 'c');
    reveal_strlit("mrbooks");
    assert("mrbooks"@.len() == 7 && "mrbooks"@[2] == 'b');
    reveal_strlit("mrleisure");
    assert("mrleisure"@.len() == 9 && "mrleisure"@[0] == 'm');
    reveal_strlit("mrlearning");
    assert("mrlearning"@.len() == 10 && "mrlearning"@[0] == 'm' && "mrlearning"@[2] == 'l');
    reveal_strlit("otherleisure");
    assert("otherleisure"@.len() == 12 && "otherleisure"@[0] == 'o');
    reveal_strlit("otherfees");
    assert("otherfees"@.len() == 9 && "otherfees"@[0] == 'o');
    reveal_strlit("unatantum");
    assert("unatantum"@.len() == 9 && "unatantum"@[0] == 'u');
    reveal_strlit("charityenv");
    assert("charityenv"@.len() == 10 && "charityenv"@[0] == 'c' && "charityenv"@[7] == 'e');
    reveal_strlit("charityhum");
    assert("charityhum"@.len() == 10 && "charityhum"@[0] == 'c' && "charityhum"@[7] == 'h');
    reveal_strlit("patreon-like");
    assert("patreon-like"@.len() == 12 && "patreon-like"@[0] == 'p');
}

/// Whatever the case of a category, its canonical spelling is the same.
pub proof fn the_case_of_a_category_does_not_matter(one: Seq<char>, other: Seq<char>)
    requires
        lower_case(one) == lower_case(other),
    ensures
        normalized(one) == normalized(other),
{
}

/// The first of the first `n` categories that is a name, whatever its case.
pub open spec fn same_name(existing: Seq<Seq<char>>, lower: Seq<char>, n: int) -> Option<Seq<char>>
    decreases n,
{
    if n <= 0 {
        None
    } else {
        match same_name(existing, lower, n - 1) {
            Some(found) => Some(found),
            None => if lower_case(existing[n - 1]) == lower {
                Some(existing[n - 1])
            } else {
                None
            },
        }
    }
}

/// A category as it is spelled among the existing ones, or in its canonical
/// spelling.
pub open spec fn resolved(value: Seq<char>, existing: Seq<Seq<char>>) -> Seq<char> {
    if value.len() == 0 {
        value
    } else {
        match same_name(existing, lower_case(value), existing.len() as int) {
            Some(found) => found,
            None => normalized(value),
        }
    }
}

/// A category as the first of the existing ones spells it, whatever its case, or
/// in its canonical spelling.
pub fn resolve_category(value: &str, existing: &[String]) -> (r: String)
    ensures
        r@ == resolved(value@, texts(existing@)),
{
    if value.unicode_len() == 0 {
        return value.to_owned();
    }
    let lower = to_lowercase(value);
    let ghost all = texts(existing@);
    let mut i: usize = 0;
    while i < existing.len()
        invariant
            i <= existing@.len(),
            all == texts(existing@),
            lower@ == lower_case(value@),
            value@.len() != 0,
            same_name(all, lower@, i as int) is None,
        decreases existing@.len() - i,
    {
        assert(all[i as int] == existing@[i as int]@);
        if same_text(to_lowercase(existing[i].as_str()).as_str(), lower.as_str()) {
            proof {
                lemma_same_name_stays(all, lower@, i + 1, all.len() as int);
            }
            return existing[i].clone();
        }
        i = i + 1;
    }
    normalize_category_value(value)
}

proof fn lemma_same_name_stays(existing: Seq<Seq<char>>, lower: Seq<char>, n: int, m: int)
    requires
        n <= m,
        same_name(existing, lower, n) is Some,
    ensures
        same_name(existing, lower, m) == same_name(existing, lower, n),
    decreases m - n,
{
    if n < m {
        lemma_same_name_stays(existing, lower, n, m - 1);
    }
}

/// A category among the existing ones is found whatever its case, and is spelled
/// as the first of them that has the name.
pub proof fn an_existing_spelling_is_kept(value: Seq<char>, existing: Seq<Seq<char>>, i: int)
    requires
        value.len() > 0,
        0 <= i < existing.len(),
        lower_case(existing[i]) == lower_case(value),
    ensures
        existing.contains(resolved(value, existing)),
        lower_case(resolved(value, existing)) == lower_case(value),
{
    lemma_same_name(existing, lower_case(value), i, existing.len() as int);
}

proof fn lemma_same_name(existing: Seq<Seq<char>>, lower: Seq<char>, i: int, n: int)
    requires
        0 <= i < n <= existing.len(),
        lower_case(existing[i]) == lower,
    ensures
        same_name(existing, lower, n) matches Some(found) && existing.contains(found) && lower_case(
            found,
        ) == lower,
    decreases n,
{
    if i < n - 1 {
        lemma_same_name(existing, lower, i, n - 1);
    } else {
        match same_name(existing, lower, n - 1) {
            Some(found) => {
                lemma_same_name_is_one(existing, lower, n - 1);
            },
            None => {
                assert(existing.contains(existing[i]));
            },
        }
    }
}

proof fn lemma_same_name_is_one(existing: Seq<Seq<char>>, lower: Seq<char>, n: int)
    requires
        0 <= n <= existing.len(),
    ensures
        same_name(existing, lower, n) matches Some(found) ==> existing.contains(found)
            && lower_case(found) == lower,
    decreases n,
{
    if n > 0 {
        lemma_same_name_is_one(existing, lower, n - 1);
        assert(existing.contains(existing[n - 1]));
    }
}

/// The texts of a list that are not empty.
pub open spec fn named(list: Seq<Seq<char>>) -> Seq<Seq<char>> {
    list.filter(|text: Seq<char>| text.len() > 0)
}

/// The categories of a table's column, then those that are known.
pub open spec fn existing_categories(
    df: TableView,
    column: Seq<char>,
    known: Option<KnownView>,
) -> Seq<Seq<char>> {
    let used = if has_texts(df, column) {
        named(Seq::new(df.rows.len(), |i: int| cell_text(df.rows[i][df.column_of(column)])))
    } else {
        Seq::empty()
    };
    match known {
        Some(known) => used + named(
            if column == "primary_category"@ {
                known.primary
            } else {
                known.secondary
            },
        ),
        None => used,
    }
}

/// What optional known categories say.
pub open spec fn known_view(known: Option<&KnownCategories>) -> Option<KnownView> {
    match known {
        Some(known) => Some(known@),
        None => None,
    }
}

fn push_named(list: &mut Vec<String>, from: &Vec<String>)
    ensures
        texts(final(list)@) == texts(old(list)@) + named(texts(from@)),
{
    let ghost before = texts(list@);
    let ghost all = texts(from@);
    let mut i: usize = 0;
    proof {
        assert(all.take(0) =~= Seq::empty());
        reveal(Seq::filter);
        assert(texts(list@) =~= before + named(all.take(0)));
    }
    while i < from.len()
        invariant
            i <= from.len(),
            all == texts(from@),
            texts(list@) == before + named(all.take(i as int)),
        decreases from.len() - i,
    {
        proof {
            assert(all.take(i + 1) =~= all.take(i as int).push(all[i as int]));
            assert(all.take(i + 1).drop_last() =~= all.take(i as int));
            reveal(Seq::filter);
        }
        if from[i].as_str().unicode_len() > 0 {
            let ghost now = texts(list@);
            list.push(from[i].clone());
            assert(texts(list@) =~= now.push(all[i as int]));
            assert(texts(list@) =~= before + named(all.take(i + 1)));
        }
        i = i + 1;
    }
    assert(all.take(all.len() as int) =~= all);
}

/// The categories in use in a column of a table, then those that are known; the
/// known primary ones for the primary column, the secondary ones else. A table
/// without the column has none in use.
pub fn existing_category_set(df: &Table, column: &str, known: Option<&KnownCategories>) -> (r: Vec<
    String,
>)
    ensures
        texts(r@) == existing_categories(df@, column@, known_view(known)),
{
    let mut list: Vec<String> = Vec::new();
    assert(texts(list@) =~= Seq::empty());
    if let Some(c) = find_texts(df, column) {
        let mut used: Vec<String> = Vec::new();
        let mut i: usize = 0;
        while i < df.height()
            invariant
                i <= df@.rows.len(),
                c < df@.columns.len(),
                used@.len() == i,
                forall|k: int|
                    0 <= k < i ==> (#[trigger] used@[k])@ == cell_text(df@.rows[k][c as int]),
            decreases df@.rows.len() - i,
        {
            used.push(text_in(df.cell_at(i, c)));
            i = i + 1;
        }
        assert(texts(used@) =~= Seq::new(
            df@.rows.len(),
            |i: int| cell_text(df@.rows[i][c as int]),
        ));
        push_named(&mut list, &used);
        assert(texts(list@) =~= named(texts(used@)));
    }
    if let Some(known) = known {
        if same_text(column, "primary_category") {
            push_named(&mut list, &known.primary);
        } else {
            push_named(&mut list, &known.secondary);
        }
    }
    list
}

} // verus!
