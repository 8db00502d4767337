//! What holds of the settings whatever is changed in them.

use vstd::prelude::*;
use vstd::relations::{sorted_by, total_ordering};
use crate::config::{
    in_order, is_first_place, is_sorted_form, lookup, place_of, stored, with_mapping,
    without_mapping, KnownView, MappingView,
};
use crate::fx::code_of;
use crate::text::{
    lower_case, text_before, text_order_is_total, upper_case, white_space,
    white_space_around_does_not_matter,
};

verus! {

/// Whether no name occurs twice.
pub open spec fn names_are_distinct(list: Seq<(Seq<char>, MappingView)>) -> bool {
    forall|i: int, j: int|
        0 <= i < j < list.len() ==> (#[trigger] list[i]).0 != (#[trigger] list[j]).0
}

proof fn lemma_place(list: Seq<(Seq<char>, MappingView)>, name: Seq<char>)
    ensures
        match place_of(list, name) {
            Some(i) => 0 <= i < list.len() && list[i].0 == name && forall|k: int|
                0 <= k < i ==> (#[trigger] list[k]).0 != name,
            None => forall|k: int| 0 <= k < list.len() ==> (#[trigger] list[k]).0 != name,
        },
    decreases list.len(),
{
    if list.len() > 0 {
        lemma_place(list.drop_last(), name);
        assert forall|k: int| 0 <= k < list.len() - 1 implies (#[trigger] list[k]) == list.drop_last()[k] by {
        }
    }
}

/// A name is found with the categories it was given last, and every other name
/// keeps what it had.
pub proof fn an_added_mapping_is_found(
    list: Seq<(Seq<char>, MappingView)>,
    name: Seq<char>,
    mapping: MappingView,
    other: Seq<char>,
)
    requires
        other != name,
    ensures
        lookup(with_mapping(list, name, mapping), name) == Some(mapping),
        lookup(with_mapping(list, name, mapping), other) == lookup(list, other),
{
    let after = with_mapping(list, name, mapping);
    lemma_place(list, name);
    lemma_place(list, other);
    lemma_place(after, name);
    lemma_place(after, other);
    match place_of(list, name) {
        Some(i) => {
            assert(after[i] == (name, mapping));
            let j = place_of(after, name)->Some_0;
            if j != i {
                assert(list[j] == after[j]);
            }
            if let Some(k) = place_of(list, other) {
                assert(after[k] == list[k]);
                let l = place_of(after, other)->Some_0;
                assert(list[l] == after[l]);
                assert(l == k) by {
                    if l < k {
                        assert(list[l].0 != other);
                    } else if k < l {
                        assert(after[k].0 != other);
                    }
                }
            } else if let Some(l) = place_of(after, other) {
                assert(list[l] == after[l]);
            }
        },
        None => {
            let last = list.len() as int;
            assert(after[last] == (name, mapping));
            let j = place_of(after, name)->Some_0;
            if j != last {
                assert(list[j] == after[j]);
            }
            if let Some(k) = place_of(list, other) {
                assert(after[k] == list[k]);
                let l = place_of(after, other)->Some_0;
                assert(list[l] == after[l]);
                assert(l == k) by {
                    if l < k {
                        assert(list[l].0 != other);
                    } else if k < l {
                        assert(after[k].0 != other);
                    }
                }
            } else if let Some(l) = place_of(after, other) {
                assert(list[l] == after[l]);
            }
        },
    }
}

/// Names stay distinct whatever is added or removed.
pub proof fn names_stay_distinct(
    list: Seq<(Seq<char>, MappingView)>,
    name: Seq<char>,
    mapping: MappingView,
)
    requires
        names_are_distinct(list),
    ensures
        names_are_distinct(with_mapping(list, name, mapping)),
        names_are_distinct(without_mapping(list, name)),
{
    lemma_place(list, name);
    let more = with_mapping(list, name, mapping);
    let less = without_mapping(list, name);
    assert forall|i: int, j: int| 0 <= i < j < more.len() implies (#[trigger] more[i]).0 != (
    #[trigger] more[j]).0 by {
        match place_of(list, name) {
            Some(k) => {
                assert(more[i].0 == list[i].0 && more[j].0 == list[j].0);
            },
            None => {
                assert(more[i] == list[i]);
                if j < list.len() {
                    assert(more[j] == list[j]);
                }
            },
        }
    }
    assert forall|i: int, j: int| 0 <= i < j < less.len() implies (#[trigger] less[i]).0 != (
    #[trigger] less[j]).0 by {
        if let Some(k) = place_of(list, name) {
            let a = if i < k {
                i
            } else {
                i + 1
            };
            let b = if j < k {
                j
            } else {
                j + 1
            };
            assert(less[i] == list[a] && less[j] == list[b]);
        }
    }
}

/// A removed name is not found any more, and every other name keeps what it had.
pub proof fn a_removed_mapping_is_gone(
    list: Seq<(Seq<char>, MappingView)>,
    name: Seq<char>,
    other: Seq<char>,
)
    requires
        names_are_distinct(list),
        other != name,
    ensures
        lookup(without_mapping(list, name), name) is None,
        lookup(without_mapping(list, name), other) == lookup(list, other),
{
    lemma_place(list, name);
    lemma_place(list, other);
    let after = without_mapping(list, name);
    lemma_place(after, name);
    lemma_place(after, other);
    if let Some(i) = place_of(list, name) {
        assert forall|k: int| 0 <= k < after.len() implies (#[trigger] after[k]) == list[if k < i {
            k
        } else {
            k + 1
        }] by {
        }
        if let Some(j) = place_of(after, name) {
            let a = if j < i {
                j
            } else {
                j + 1
            };
            assert(after[j] == list[a]);
            if a < i {
                assert(list[a].0 != list[i].0);
            } else {
                assert(list[i].0 != list[a].0);
            }
        }
        match place_of(list, other) {
            Some(k) => {
                assert(k != i);
                let here = if k < i {
                    k
                } else {
                    k - 1
                };
                assert(after[here] == list[k]);
                let l = place_of(after, other)->Some_0;
                let there = if l < i {
                    l
                } else {
                    l + 1
                };
                assert(after[l] == list[there]);
                assert(there == k) by {
                    if there < k {
                        assert(list[there].0 != list[k].0);
                    } else if k < there {
                        assert(list[k].0 != list[there].0);
                    }
                }
            },
            None => {
                if let Some(l) = place_of(after, other) {
                    let there = if l < i {
                        l
                    } else {
                        l + 1
                    };
                    assert(after[l] == list[there]);
                }
            },
        }
    }
}

/// Adding a new name and removing it again gives the list back.
pub proof fn an_added_mapping_can_be_removed(
    list: Seq<(Seq<char>, MappingView)>,
    name: Seq<char>,
    mapping: MappingView,
)
    requires
        lookup(list, name) is None,
    ensures
        without_mapping(with_mapping(list, name, mapping), name) == list,
{
    lemma_place(list, name);
    let more = with_mapping(list, name, mapping);
    assert(more.drop_last() =~= list);
    assert(place_of(more, name) == Some(list.len() as int));
    assert(more.remove(list.len() as int) =~= list);
}

/// A list has one sorted form only.
pub proof fn the_sorted_form_is_unique(
    one: Seq<Seq<char>>,
    other: Seq<Seq<char>>,
    list: Seq<Seq<char>>,
)
    requires
        is_sorted_form(one, list),
        is_sorted_form(other, list),
    ensures
        one == other,
{
    text_order_is_total();
    let leq = |a: Seq<char>, b: Seq<char>| !text_before(b, a);
    assert(total_ordering(leq)) by {
        assert forall|a: Seq<char>, b: Seq<char>| #[trigger] leq(a, b) && #[trigger] leq(
            b,
            a,
        ) implies a == b by {
            text_order_is_total();
        }
        assert forall|a: Seq<char>, b: Seq<char>, c: Seq<char>| #[trigger] leq(a, b) && #[trigger] leq(
            b,
            c,
        ) implies leq(a, c) by {
            text_order_is_total();
            if text_before(c, a) {
                if a == b {
                } else {
                    assert(text_before(a, b));
                    assert(text_before(c, b));
                }
            }
        }
        assert forall|a: Seq<char>, b: Seq<char>| #[trigger] leq(a, b) || leq(b, a) by {
            text_order_is_total();
        }
        assert forall|a: Seq<char>| #[trigger] leq(a, a) by {
            text_order_is_total();
        }
    }
    assert(sorted_by(one, leq));
    assert(sorted_by(other, leq));
    vstd::seq_lib::lemma_sorted_unique(one, other, leq);
}

/// Registering a category in a sorted list and removing it again gives the list
/// back.
pub proof fn a_registered_category_can_be_removed(
    list: Seq<Seq<char>>,
    name: Seq<char>,
    grown: Seq<Seq<char>>,
    i: int,
)
    requires
        in_order(list),
        !list.contains(name),
        is_sorted_form(grown, list.push(name)),
        is_first_place(grown, name, i),
    ensures
        grown.remove(i) == list,
{
    let less = grown.remove(i);
    vstd::seq_lib::to_multiset_remove(grown, i);
    vstd::seq_lib::to_multiset_build(list, name);
    broadcast use vstd::multiset::group_multiset_axioms;

    assert(less.to_multiset() =~= list.to_multiset());
    assert forall|a: int, b: int| 0 <= a < b < less.len() implies !text_before(
        #[trigger] less[b],
        #[trigger] less[a],
    ) by {
        let x = if a < i {
            a
        } else {
            a + 1
        };
        let y = if b < i {
            b
        } else {
            b + 1
        };
        assert(less[a] == grown[x] && less[b] == grown[y]);
    }
    the_sorted_form_is_unique(less, list, list);
}

/// Each kind of category has its own list: the primary ones are in one and the secondary
/// ones in the other, and replacing one leaves the other as it is.
pub proof fn each_kind_has_its_own_list(known: KnownView, list: Seq<Seq<char>>)
    ensures
        known.of_kind("primary"@) == known.primary,
        known.of_kind("secondary"@) == known.secondary,
        known.with_kind("primary"@, list) == (KnownView {
            primary: list,
            secondary: known.secondary,
        }),
        known.with_kind("secondary"@, list) == (KnownView {
            primary: known.primary,
            secondary: list,
        }),
{
    reveal_strlit("primary");
    reveal_strlit("secondary");
    assert("primary"@.len() != "secondary"@.len());
}

/// White space around a name does not matter to the form it is stored in.
pub proof fn a_name_is_stored_without_white_space_around_it(
    before: Seq<char>,
    name: Seq<char>,
    after: Seq<char>,
)
    requires
        forall|i: int| 0 <= i < before.len() ==> white_space(#[trigger] before[i]),
        forall|i: int| 0 <= i < after.len() ==> white_space(#[trigger] after[i]),
    ensures
        stored(before + name + after) == stored(name),
        code_of(before + name + after) == code_of(name),
        name.len() > 0 && !white_space(name[0]) && !white_space(name.last()) ==> stored(name)
            == lower_case(name) && code_of(name) == upper_case(name),
{
    white_space_around_does_not_matter(before, name, after);
    if name.len() > 0 && !white_space(name[0]) {
        assert(crate::text::trimmed_end(name) == if white_space(name.last()) {
            crate::text::trimmed_end(name.drop_last())
        } else {
            name
        });
    }
}

} // verus!
