//! Which categories an expense name stands for, and which categories are known.
//!
//! The settings are read from and written to their files by the program around
//! the library; here they are changed.

use vstd::prelude::*;
use indexmap::IndexMap;
use crate::error::{outcome, Error, ErrorView};
use crate::text::{
    lower_case, rank, same_text, text_before, text_order_is_total, texts, to_lowercase, trim,
    trimmed, Rank,
};

verus! {

/// The category pair of an expense name.
#[derive(Debug, PartialEq, Eq)]
pub struct CategoryMapping {
    /// The primary category, without white space around it, in lower case.
    pub primary_category: String,
    /// The secondary category, without white space around it, in lower case.
    pub secondary_category: String,
}

/// What a [`CategoryMapping`] says.
pub struct MappingView {
    pub primary: Seq<char>,
    pub secondary: Seq<char>,
}

impl View for CategoryMapping {
    type V = MappingView;

    open spec fn view(&self) -> MappingView {
        MappingView { primary: self.primary_category@, secondary: self.secondary_category@ }
    }
}

impl Clone for CategoryMapping {
    fn clone(&self) -> (r: Self)
        ensures
            r@ == self@,
    {
        CategoryMapping {
            primary_category: self.primary_category.clone(),
            secondary_category: self.secondary_category.clone(),
        }
    }
}

/// `indexmap::IndexMap`, a map that keeps its entries in the order in which they
/// were inserted.
#[verifier::external_type_specification]
#[verifier::external_body]
#[verifier::reject_recursive_types(K)]
#[verifier::reject_recursive_types(V)]
#[verifier::reject_recursive_types(S)]
pub struct ExIndexMap<K, V, S>(indexmap::IndexMap<K, V, S>);

/// What a map of mappings holds: each name with its primary and its secondary
/// category, in the order of the map.
pub uninterp spec fn mappings_in(map: IndexMap<String, CategoryMapping>) -> Seq<
    (Seq<char>, MappingView),
>;

/// Where a name stands in a list of mappings.
pub open spec fn place_of(list: Seq<(Seq<char>, MappingView)>, name: Seq<char>) -> Option<int>
    decreases list.len(),
{
    if list.len() == 0 {
        None
    } else {
        match place_of(list.drop_last(), name) {
            Some(i) => Some(i),
            None => if list.last().0 == name {
                Some(list.len() - 1)
            } else {
                None
            },
        }
    }
}

/// The categories of a name in a list of mappings.
pub open spec fn lookup(list: Seq<(Seq<char>, MappingView)>, name: Seq<char>) -> Option<
    MappingView,
> {
    match place_of(list, name) {
        Some(i) => Some(list[i].1),
        None => None,
    }
}

/// A list of mappings with a name set: in its place if it is there, else at the
/// end.
pub open spec fn with_mapping(
    list: Seq<(Seq<char>, MappingView)>,
    name: Seq<char>,
    mapping: MappingView,
) -> Seq<(Seq<char>, MappingView)> {
    match place_of(list, name) {
        Some(i) => list.update(i, (name, mapping)),
        None => list.push((name, mapping)),
    }
}

/// A list of mappings without a name; the others keep their order.
pub open spec fn without_mapping(list: Seq<(Seq<char>, MappingView)>, name: Seq<char>) -> Seq<
    (Seq<char>, MappingView),
> {
    match place_of(list, name) {
        Some(i) => list.remove(i),
        None => list,
    }
}

/// `indexmap::IndexMap::new`: an empty map.
#[verifier::external_body]
fn no_mappings() -> (r: IndexMap<String, CategoryMapping>)
    ensures
        mappings_in(r) == Seq::<(Seq<char>, MappingView)>::empty(),
{
    IndexMap::new()
}

/// `indexmap::IndexMap::get`: a copy of the value of a key, if the key is there.
#[verifier::external_body]
fn mapping_of(map: &IndexMap<String, CategoryMapping>, key: &str) -> (r: Option<CategoryMapping>)
    ensures
        match r {
            Some(mapping) => lookup(mappings_in(*map), key@) == Some(mapping@),
            None => lookup(mappings_in(*map), key@) is None,
        },
{
    map.get(key).cloned()
}

/// `indexmap::IndexMap::insert`: a key that is there keeps its place and gets the
/// new value; a new key goes to the end.
#[verifier::external_body]
fn set_mapping(map: &mut IndexMap<String, CategoryMapping>, key: String, mapping: CategoryMapping)
    ensures
        mappings_in(*final(map)) == with_mapping(mappings_in(*old(map)), key@, mapping@),
{
    map.insert(key, mapping);
}

/// `indexmap::IndexMap::shift_remove`: takes a key out and hands back its value;
/// the entries behind it move up, in their order.
#[verifier::external_body]
fn take_mapping(map: &mut IndexMap<String, CategoryMapping>, key: &str) -> (r: Option<
    CategoryMapping,
>)
    ensures
        mappings_in(*final(map)) == without_mapping(mappings_in(*old(map)), key@),
        match r {
            Some(mapping) => lookup(mappings_in(*old(map)), key@) == Some(mapping@),
            None => lookup(mappings_in(*old(map)), key@) is None,
        },
{
    map.shift_remove(key)
}

/// The form in which names and categories are stored: without white space around
/// them, in lower case.
pub open spec fn stored(text: Seq<char>) -> Seq<char> {
    lower_case(trimmed(text))
}

fn store_form(text: &str) -> (r: String)
    ensures
        r@ == stored(text@),
{
    to_lowercase(trim(text).as_str())
}

/// A name that has a mapping already.
pub open spec fn mapped_error(key: Seq<char>, existing: MappingView) -> ErrorView {
    ErrorView::AlreadyExists(
        "Mapping for '"@ + key + "' already exists: {'primary_category': '"@ + existing.primary
            + "', 'secondary_category': '"@ + existing.secondary
            + "'}. Pass overwrite=true to replace it."@,
    )
}

/// Give a stored name its categories, already in the form they are stored in. A
/// name that has some is only changed with `overwrite`.
pub fn add_stored_mapping(
    mappings: &mut IndexMap<String, CategoryMapping>,
    key: String,
    mapping: CategoryMapping,
    overwrite: bool,
) -> (r: Result<(), Error>)
    ensures
        match lookup(mappings_in(*old(mappings)), key@) {
            Some(existing) if !overwrite => outcome(r) == Err::<(), ErrorView>(
                mapped_error(key@, existing),
            ) && mappings_in(*final(mappings)) == mappings_in(*old(mappings)),
            _ => outcome(r) == Ok::<(), ErrorView>(()) && mappings_in(*final(mappings))
                == with_mapping(mappings_in(*old(mappings)), key@, mapping@),
        },
{
    if !overwrite {
        if let Some(existing) = mapping_of(mappings, key.as_str()) {
            return Err(
                Error::AlreadyExists(
                    "Mapping for '".to_owned().concat(key.as_str()).concat(
                        "' already exists: {'primary_category': '",
                    ).concat(existing.primary_category.as_str()).concat(
                        "', 'secondary_category': '",
                    ).concat(existing.secondary_category.as_str()).concat(
                        "'}. Pass overwrite=true to replace it.",
                    ),
                ),
            );
        }
    }
    set_mapping(mappings, key, mapping);
    Ok(())
}

/// Give an expense name its categories. Without `overwrite` a name that has some
/// is left alone, and the error names them.
pub fn add_mapping(
    mappings: &mut IndexMap<String, CategoryMapping>,
    expense_name: &str,
    primary_category: &str,
    secondary_category: &str,
    overwrite: bool,
) -> (r: Result<(), Error>)
    ensures
        ({
            let key = stored(expense_name@);
            let mapping = MappingView {
                primary: stored(primary_category@),
                secondary: stored(secondary_category@),
            };
            match lookup(mappings_in(*old(mappings)), key) {
                Some(existing) if !overwrite => outcome(r) == Err::<(), ErrorView>(
                    mapped_error(key, existing),
                ) && mappings_in(*final(mappings)) == mappings_in(*old(mappings)),
                _ => outcome(r) == Ok::<(), ErrorView>(()) && mappings_in(*final(mappings))
                    == with_mapping(mappings_in(*old(mappings)), key, mapping),
            }
        }),
{
    let mapping = CategoryMapping {
        primary_category: store_form(primary_category),
        secondary_category: store_form(secondary_category),
    };
    add_stored_mapping(mappings, store_form(expense_name), mapping, overwrite)
}

/// A name without a mapping.
pub open spec fn unmapped_error(key: Seq<char>) -> ErrorView {
    ErrorView::NotFound("No mapping found for '"@ + key + "'."@)
}

/// Remove the categories of a stored name and hand them back.
pub fn remove_stored_mapping(mappings: &mut IndexMap<String, CategoryMapping>, key: &str) -> (r:
    Result<CategoryMapping, Error>)
    ensures
        match r {
            Ok(removed) => lookup(mappings_in(*old(mappings)), key@) == Some(removed@),
            Err(e) => lookup(mappings_in(*old(mappings)), key@) is None && e@ == unmapped_error(
                key@,
            ),
        },
        mappings_in(*final(mappings)) == without_mapping(mappings_in(*old(mappings)), key@),
{
    match take_mapping(mappings, key) {
        Some(removed) => Ok(removed),
        None => Err(
            Error::NotFound("No mapping found for '".to_owned().concat(key).concat("'.")),
        ),
    }
}

/// Remove the categories of an expense name and hand them back.
pub fn remove_mapping(mappings: &mut IndexMap<String, CategoryMapping>, expense_name: &str) -> (r:
    Result<CategoryMapping, Error>)
    ensures
        ({
            let key = stored(expense_name@);
            match r {
                Ok(removed) => lookup(mappings_in(*old(mappings)), key) == Some(removed@),
                Err(e) => lookup(mappings_in(*old(mappings)), key) is None && e@ == unmapped_error(
                    key,
                ),
            }
        }),
        mappings_in(*final(mappings)) == without_mapping(
            mappings_in(*old(mappings)),
            stored(expense_name@),
        ),
{
    let key = store_form(expense_name);
    remove_stored_mapping(mappings, key.as_str())
}

/// The categories of an expense name, if it has some.
pub fn get_mapping(mappings: &IndexMap<String, CategoryMapping>, expense_name: &str) -> (r: Option<
    CategoryMapping,
>)
    ensures
        match r {
            Some(mapping) => lookup(mappings_in(*mappings), stored(expense_name@)) == Some(
                mapping@,
            ),
            None => lookup(mappings_in(*mappings), stored(expense_name@)) is None,
        },
{
    let key = store_form(expense_name);
    mapping_of(mappings, key.as_str())
}

/// Remove the categories of every name.
pub fn clear_all_mappings(mappings: &mut IndexMap<String, CategoryMapping>)
    ensures
        mappings_in(*final(mappings)) == Seq::<(Seq<char>, MappingView)>::empty(),
{
    *mappings = no_mappings();
}

/// The categories the user has registered by hand.
#[derive(Debug, PartialEq, Eq)]
pub struct KnownCategories {
    /// The registered primary categories, sorted.
    pub primary: Vec<String>,
    /// The registered secondary categories, sorted.
    pub secondary: Vec<String>,
}

/// What [`KnownCategories`] say.
pub struct KnownView {
    pub primary: Seq<Seq<char>>,
    pub secondary: Seq<Seq<char>>,
}

impl View for KnownCategories {
    type V = KnownView;

    open spec fn view(&self) -> KnownView {
        KnownView { primary: texts(self.primary@), secondary: texts(self.secondary@) }
    }
}

impl Default for KnownCategories {
    fn default() -> (r: Self)
        ensures
            r@ == (KnownView { primary: Seq::empty(), secondary: Seq::empty() }),
    {
        let r = KnownCategories { primary: Vec::new(), secondary: Vec::new() };
        assert(texts(r.primary@) =~= Seq::empty());
        assert(texts(r.secondary@) =~= Seq::empty());
        r
    }
}

fn copied(list: &Vec<String>) -> (r: Vec<String>)
    ensures
        texts(r@) == texts(list@),
{
    let mut out: Vec<String> = Vec::new();
    let mut i: usize = 0;
    while i < list.len()
        invariant
            i <= list.len(),
            out@.len() == i,
            forall|k: int| 0 <= k < i ==> (#[trigger] out@[k])@ == list@[k]@,
        decreases list.len() - i,
    {
        out.push(list[i].clone());
        i = i + 1;
    }
    assert(texts(out@) =~= texts(list@));
    out
}

impl Clone for KnownCategories {
    fn clone(&self) -> (r: Self)
        ensures
            r@ == self@,
    {
        KnownCategories { primary: copied(&self.primary), secondary: copied(&self.secondary) }
    }
}

/// Whether a kind of category is one of the two there are.
pub open spec fn is_kind(kind: Seq<char>) -> bool {
    kind == "primary"@ || kind == "secondary"@
}

/// A kind of category there is not.
pub open spec fn kind_error(kind: Seq<char>) -> ErrorView {
    ErrorView::InvalidArgument(
        "kind must be 'primary' or 'secondary', got '"@ + kind + "'"@,
    )
}

/// Succeed for a kind of category there is.
pub fn validate_kind(kind: &str) -> (r: Result<(), Error>)
    ensures
        outcome(r) == if is_kind(kind@) {
            Ok::<(), ErrorView>(())
        } else {
            Err(kind_error(kind@))
        },
{
    if !same_text(kind, "primary") && !same_text(kind, "secondary") {
        return Err(
            Error::InvalidArgument(
                "kind must be 'primary' or 'secondary', got '".to_owned().concat(kind).concat("'"),
            ),
        );
    }
    Ok(())
}

impl KnownView {
    /// The categories of a kind.
    pub open spec fn of_kind(self, kind: Seq<char>) -> Seq<Seq<char>> {
        if kind == "primary"@ {
            self.primary
        } else {
            self.secondary
        }
    }

    /// The same with the categories of a kind replaced.
    pub open spec fn with_kind(self, kind: Seq<char>, list: Seq<Seq<char>>) -> KnownView {
        if kind == "primary"@ {
            KnownView { primary: list, secondary: self.secondary }
        } else {
            KnownView { primary: self.primary, secondary: list }
        }
    }
}

/// Whether texts stand in order.
pub open spec fn in_order(list: Seq<Seq<char>>) -> bool {
    forall|i: int, j: int|
        0 <= i < j < list.len() ==> !text_before(#[trigger] list[j], #[trigger] list[i])
}

/// Whether a list holds the texts of another, as often as it does, in order.
pub open spec fn is_sorted_form(sorted: Seq<Seq<char>>, list: Seq<Seq<char>>) -> bool {
    in_order(sorted) && sorted.to_multiset() == list.to_multiset()
}

fn put_in_order(list: &mut Vec<String>, text: String)
    requires
        in_order(texts(old(list)@)),
    ensures
        in_order(texts(final(list)@)),
        texts(final(list)@).to_multiset() == texts(old(list)@).to_multiset().insert(text@),
{
    let ghost before = texts(list@);
    let ghost word = text@;
    proof {
        text_order_is_total();
    }
    let mut i: usize = list.len();
    while i > 0 && rank(list[i - 1].as_str(), text.as_str()) == Rank::After
        invariant
            i <= list.len(),
            before == texts(list@),
            word == text@,
            forall|k: int| i <= k < before.len() ==> text_before(word, #[trigger] before[k]),
        decreases i,
    {
        assert(before[i - 1] == list@[i - 1]@);
        i = i - 1;
    }
    assert(i > 0 ==> !text_before(word, before[i - 1])) by {
        if i > 0 {
            assert(before[i - 1] == list@[i - 1]@);
        }
    }
    list.insert(i, text);
    let ghost after = texts(list@);
    proof {
        text_order_is_total();
        assert(after =~= before.insert(i as int, word));
        assert forall|a: int, b: int| 0 <= a < b < after.len() implies !text_before(
            #[trigger] after[b],
            #[trigger] after[a],
        ) by {
            if a < i && b > i {
                assert(!text_before(before[b - 1], before[a]));
            } else if b < i {
                assert(!text_before(before[b], before[a]));
            } else if a > i {
                assert(!text_before(before[b - 1], before[a - 1]));
            } else if a == i {
                assert(text_before(word, before[b - 1]));
            } else {
                if a < i - 1 {
                    assert(!text_before(before[i - 1], before[a]));
                }
                assert(!text_before(word, before[i - 1]));
            }
        }
        vstd::seq_lib::to_multiset_insert(before, i as int, word);
    }
}

/// The texts of a list in order.
fn sorted(list: &Vec<String>) -> (r: Vec<String>)
    ensures
        is_sorted_form(texts(r@), texts(list@)),
{
    let ghost all = texts(list@);
    let mut out: Vec<String> = Vec::new();
    let mut i: usize = 0;
    proof {
        assert(texts(out@) =~= Seq::empty());
        assert(all.take(0) =~= Seq::empty());
    }
    while i < list.len()
        invariant
            i <= list.len(),
            all == texts(list@),
            in_order(texts(out@)),
            texts(out@).to_multiset() == all.take(i as int).to_multiset(),
        decreases list.len() - i,
    {
        put_in_order(&mut out, list[i].clone());
        proof {
            assert(all.take(i + 1) =~= all.take(i as int).push(all[i as int]));
            vstd::seq_lib::to_multiset_build(all.take(i as int), all[i as int]);
        }
        i = i + 1;
    }
    assert(all.take(all.len() as int) =~= all);
    out
}

/// A category that is registered already.
pub open spec fn registered_error(name: Seq<char>, kind: Seq<char>) -> ErrorView {
    ErrorView::AlreadyExists(
        "Category '"@ + name + "' already exists in "@ + kind + " categories."@,
    )
}

/// A category that is not registered.
pub open spec fn unregistered_error(name: Seq<char>, kind: Seq<char>) -> ErrorView {
    ErrorView::NotFound("Category '"@ + name + "' not found in "@ + kind + " categories."@)
}

fn find_text(list: &Vec<String>, name: &str) -> (r: Option<usize>)
    ensures
        match r {
            Some(i) => i < list@.len() && texts(list@)[i as int] == name@ && forall|k: int|
                0 <= k < i ==> (#[trigger] texts(list@)[k]) != name@,
            None => !texts(list@).contains(name@),
        },
{
    let ghost all = texts(list@);
    let mut i: usize = 0;
    while i < list.len()
        invariant
            i <= list.len(),
            all == texts(list@),
            forall|k: int| 0 <= k < i ==> (#[trigger] all[k]) != name@,
        decreases list.len() - i,
    {
        assert(all[i as int] == list@[i as int]@);
        if same_text(list[i].as_str(), name) {
            return Some(i);
        }
        i = i + 1;
    }
    None
}

/// Register a category. Its list is sorted afterwards.
pub fn add_known_category(data: &mut KnownCategories, name: &str, kind: &str) -> (r: Result<
    (),
    Error,
>)
    ensures
        ({
            let list = old(data)@.of_kind(kind@);
            if !is_kind(kind@) {
                outcome(r) == Err::<(), ErrorView>(kind_error(kind@)) && final(data)@ == old(data)@
            } else if list.contains(name@) {
                outcome(r) == Err::<(), ErrorView>(registered_error(name@, kind@)) && final(data)@
                    == old(data)@
            } else {
                outcome(r) == Ok::<(), ErrorView>(()) && final(data)@ == old(data)@.with_kind(
                    kind@,
                    final(data)@.of_kind(kind@),
                ) && is_sorted_form(final(data)@.of_kind(kind@), list.push(name@))
            }
        }),
{
    match validate_kind(kind) {
        Ok(()) => {},
        Err(e) => return Err(e),
    }
    let primary = same_text(kind, "primary");
    let found = if primary {
        find_text(&data.primary, name)
    } else {
        find_text(&data.secondary, name)
    };
    if let Some(i) = found {
        assert(data@.of_kind(kind@)[i as int] == name@);
        return Err(
            Error::AlreadyExists(
                "Category '".to_owned().concat(name).concat("' already exists in ").concat(
                    kind,
                ).concat(" categories."),
            ),
        );
    }
    let ghost before = data@;
    let mut list = if primary {
        copied(&data.primary)
    } else {
        copied(&data.secondary)
    };
    let ghost grown = texts(list@);
    list.push(name.to_owned());
    assert(texts(list@) =~= grown.push(name@));
    let list = sorted(&list);
    if primary {
        data.primary = list;
    } else {
        data.secondary = list;
    }
    Ok(())
}

/// Where a text first stands in a list.
pub open spec fn is_first_place(list: Seq<Seq<char>>, name: Seq<char>, i: int) -> bool {
    0 <= i < list.len() && list[i] == name && forall|k: int|
        0 <= k < i ==> (#[trigger] list[k]) != name
}

/// Remove a registered category.
pub fn remove_known_category(data: &mut KnownCategories, name: &str, kind: &str) -> (r: Result<
    (),
    Error,
>)
    ensures
        ({
            let list = old(data)@.of_kind(kind@);
            if !is_kind(kind@) {
                outcome(r) == Err::<(), ErrorView>(kind_error(kind@)) && final(data)@ == old(data)@
            } else if !list.contains(name@) {
                outcome(r) == Err::<(), ErrorView>(unregistered_error(name@, kind@)) && final(data)@
                    == old(data)@
            } else {
                outcome(r) == Ok::<(), ErrorView>(()) && exists|i: int| #[trigger]
                    is_first_place(list, name@, i) && final(data)@ == old(data)@.with_kind(
                        kind@,
                        list.remove(i),
                    )
            }
        }),
{
    match validate_kind(kind) {
        Ok(()) => {},
        Err(e) => return Err(e),
    }
    let primary = same_text(kind, "primary");
    let found = if primary {
        find_text(&data.primary, name)
    } else {
        find_text(&data.secondary, name)
    };
    let ghost list = data@.of_kind(kind@);
    match found {
        None => Err(
            Error::NotFound(
                "Category '".to_owned().concat(name).concat("' not found in ").concat(kind).concat(
                    " categories.",
                ),
            ),
        ),
        Some(i) => {
            assert(is_first_place(list, name@, i as int));
            assert(list.contains(name@));
            if primary {
                data.primary.remove(i);
                assert(texts(data.primary@) =~= list.remove(i as int));
            } else {
                data.secondary.remove(i);
                assert(texts(data.secondary@) =~= list.remove(i as int));
            }
            Ok(())
        },
    }
}

} // verus!
