//! Maps from text to values, kept in the order of their keys.

use vstd::prelude::*;
use crate::text::{rank, text_before, text_order_is_total, Rank};

verus! {

/// A value that can be copied with nothing lost of what it says.
pub trait Duplicate: View + Sized {
    /// A second value that says the same.
    fn duplicate(&self) -> (r: Self)
        ensures
            r@ == self@,
    ;
}

impl Duplicate for u64 {
    fn duplicate(&self) -> (r: Self) {
        *self
    }
}

impl Duplicate for String {
    fn duplicate(&self) -> (r: Self) {
        self.clone()
    }
}

impl<V: Duplicate> Duplicate for TextMap<V> {
    fn duplicate(&self) -> (r: Self) {
        self.clone()
    }
}

/// A map from text to values, kept in the order of its keys.
#[derive(Debug, PartialEq, Eq)]
pub struct TextMap<V> {
    cells: Vec<(String, V)>,
}

/// The map that a list of keys and values spells out.
pub open spec fn pairs_map<W>(cells: Seq<(Seq<char>, W)>) -> Map<Seq<char>, W>
    decreases cells.len(),
{
    if cells.len() == 0 {
        Map::empty()
    } else {
        pairs_map(cells.drop_last()).insert(cells.last().0, cells.last().1)
    }
}

/// Whether keys stand in strictly increasing order, so that none occurs twice.
pub open spec fn keys_increase<W>(cells: Seq<(Seq<char>, W)>) -> bool {
    forall|i: int, j: int|
        0 <= i < j < cells.len() ==> text_before((#[trigger] cells[i]).0, (#[trigger] cells[j]).0)
}

/// Facts on the map that a list with distinct keys spells out.
pub proof fn lemma_pairs_map<W>(cells: Seq<(Seq<char>, W)>)
    requires
        keys_increase(cells),
    ensures
        forall|k: Seq<char>| #[trigger]
            pairs_map(cells).contains_key(k) <==> exists|i: int|
                0 <= i < cells.len() && (#[trigger] cells[i]).0 == k,
        forall|i: int|
            0 <= i < cells.len() ==> pairs_map(cells).contains_key((#[trigger] cells[i]).0)
                && pairs_map(cells)[cells[i].0] == cells[i].1,
    decreases cells.len(),
{
    text_order_is_total();
    if cells.len() > 0 {
        let front = cells.drop_last();
        assert forall|i: int, j: int| 0 <= i < j < front.len() implies text_before(
            (#[trigger] front[i]).0,
            (#[trigger] front[j]).0,
        ) by {
            assert(front[i] == cells[i] && front[j] == cells[j]);
        }
        lemma_pairs_map(front);
        let n = cells.len() - 1;
        assert(pairs_map(cells) == pairs_map(front).insert(cells[n].0, cells[n].1));
        assert forall|k: Seq<char>| #[trigger]
            pairs_map(cells).contains_key(k) <==> exists|i: int|
                0 <= i < cells.len() && (#[trigger] cells[i]).0 == k by {
            if pairs_map(cells).contains_key(k) {
                if k == cells[n].0 {
                    assert(0 <= n < cells.len() && cells[n].0 == k);
                } else {
                    assert(pairs_map(front).contains_key(k));
                    let i = choose|i: int| 0 <= i < front.len() && (#[trigger] front[i]).0 == k;
                    assert(cells[i].0 == k);
                }
            }
            if exists|i: int| 0 <= i < cells.len() && (#[trigger] cells[i]).0 == k {
                let i = choose|i: int| 0 <= i < cells.len() && (#[trigger] cells[i]).0 == k;
                if i < n {
                    assert(front[i].0 == k);
                    assert(pairs_map(front).contains_key(k));
                }
            }
        }
        assert forall|i: int| 0 <= i < cells.len() implies pairs_map(cells).contains_key(
            (#[trigger] cells[i]).0,
        ) && pairs_map(cells)[cells[i].0] == cells[i].1 by {
            if i < n {
                assert(front[i] == cells[i]);
                assert(text_before(cells[i].0, cells[n].0));
            }
        }
    }
}

impl<V: View> TextMap<V> {
    /// The keys and values, in the order of the keys.
    pub closed spec fn pairs(&self) -> Seq<(Seq<char>, V::V)> {
        Seq::new(self.cells@.len(), |i: int| (self.cells@[i].0@, self.cells@[i].1@))
    }
}

impl<V> TextMap<V> {
    /// The keys stand in their order, none twice.
    #[verifier::type_invariant]
    closed spec fn keys_are_ordered(self) -> bool {
        forall|i: int, j: int|
            0 <= i < j < self.cells@.len() ==> text_before(
                (#[trigger] self.cells@[i]).0@,
                (#[trigger] self.cells@[j]).0@,
            )
    }
}

impl<V: View> TextMap<V> {
    /// A map with no keys.
    pub fn new() -> (r: Self)
        ensures
            r@ == Map::<Seq<char>, V::V>::empty(),
    {
        let cells: Vec<(String, V)> = Vec::new();
        let r = TextMap { cells };
        assert(r.pairs() =~= Seq::empty());
        r
    }

    /// The number of keys.
    pub fn len(&self) -> (n: usize)
        ensures
            n == self.pairs().len(),
    {
        self.cells.len()
    }

    /// The key at a position.
    pub fn key_at(&self, i: usize) -> (c: &str)
        requires
            i < self.pairs().len(),
        ensures
            c@ == self.pairs()[i as int].0,
    {
        self.cells[i].0.as_str()
    }

    /// The value at a position.
    pub fn value_at(&self, i: usize) -> (v: &V)
        requires
            i < self.pairs().len(),
        ensures
            v@ == self.pairs()[i as int].1,
    {
        &self.cells[i].1
    }

    /// Where a key stands or would stand, and whether it is there.
    fn find(&self, key: &str) -> (r: (usize, bool))
        ensures
            r.0 <= self.pairs().len(),
            r.1 <==> r.0 < self.pairs().len() && self.pairs()[r.0 as int].0 == key@,
            forall|j: int| 0 <= j < r.0 ==> text_before((#[trigger] self.pairs()[j]).0, key@),
            !r.1 ==> forall|j: int|
                r.0 <= j < self.pairs().len() ==> text_before(
                    key@,
                    (#[trigger] self.pairs()[j]).0,
                ),
    {
        let ghost pairs = self.pairs();
        proof {
            use_type_invariant(self);
            text_order_is_total();
        }
        let mut i: usize = 0;
        while i < self.cells.len()
            invariant
                i <= self.cells.len(),
                pairs == self.pairs(),
                keys_increase(pairs),
                forall|j: int| 0 <= j < i ==> text_before((#[trigger] pairs[j]).0, key@),
            decreases self.cells.len() - i,
        {
            assert(pairs[i as int].0 == self.cells@[i as int].0@);
            let place = rank(self.cells[i].0.as_str(), key);
            if place == Rank::Same {
                return (i, true);
            }
            if place == Rank::After {
                proof {
                    text_order_is_total();
                    assert forall|j: int| i <= j < pairs.len() implies text_before(
                        key@,
                        (#[trigger] pairs[j]).0,
                    ) by {
                        if j > i {
                            assert(text_before(pairs[i as int].0, pairs[j].0));
                        }
                    }
                }
                return (i, false);
            }
            i = i + 1;
        }
        (i, false)
    }

    /// The value of a key, if the map has that key.
    pub fn get(&self, key: &str) -> (r: Option<&V>)
        ensures
            match r {
                Some(v) => self@.contains_key(key@) && v@ == self@[key@],
                None => !self@.contains_key(key@),
            },
    {
        let (i, found) = self.find(key);
        proof {
            use_type_invariant(self);
            lemma_pairs_map(self.pairs());
            text_order_is_total();
        }
        if found {
            assert(self.pairs()[i as int].0 == key@);
            Some(&self.cells[i].1)
        } else {
            assert forall|j: int| 0 <= j < self.pairs().len() implies (#[trigger] self.pairs()[j]).0
                != key@ by {
                if j < i {
                    assert(text_before(self.pairs()[j].0, key@));
                } else {
                    assert(text_before(key@, self.pairs()[j].0));
                }
            }
            None
        }
    }

    /// Give a key a value, adding the key where the map lacks it.
    pub fn insert(&mut self, key: String, value: V)
        ensures
            final(self)@ == old(self)@.insert(key@, value@),
    {
        let (i, found) = self.find(key.as_str());
        let ghost before = self.pairs();
        proof {
            use_type_invariant(&*self);
            lemma_pairs_map(before);
            text_order_is_total();
        }
        let ghost name = key@;
        let ghost said = value@;
        let mut cells: Vec<(String, V)> = Vec::new();
        core::mem::swap(&mut self.cells, &mut cells);
        if found {
            cells.set(i, (key, value));
        } else {
            cells.insert(i, (key, value));
        }
        proof {
            let after = Seq::new(cells@.len(), |j: int| (cells@[j].0@, cells@[j].1@));
            if found {
                assert(after =~= before.update(i as int, (name, said)));
                assert forall|a: int, b: int| 0 <= a < b < after.len() implies text_before(
                    (#[trigger] after[a]).0,
                    (#[trigger] after[b]).0,
                ) by {
                    assert(text_before(before[a].0, before[b].0));
                }
            } else {
                assert(after =~= before.insert(i as int, (name, said)));
                assert forall|a: int, b: int| 0 <= a < b < after.len() implies text_before(
                    (#[trigger] after[a]).0,
                    (#[trigger] after[b]).0,
                ) by {
                    if a < i && b > i {
                        assert(text_before(before[a].0, before[b - 1].0));
                    } else if b < i {
                        assert(text_before(before[a].0, before[b].0));
                    } else if a > i {
                        assert(text_before(before[a - 1].0, before[b - 1].0));
                    } else if a == i {
                        assert(text_before(name, before[b - 1].0));
                    } else {
                        assert(text_before(before[a].0, name));
                    }
                }
            }
            lemma_pairs_map(after);
            let old_map = pairs_map(before);
            let new_map = pairs_map(after);
            assert forall|k: Seq<char>| #[trigger]
                new_map.contains_key(k) <==> old_map.insert(name, said).contains_key(k) by {
                if new_map.contains_key(k) && k != name {
                    let j = choose|j: int| 0 <= j < after.len() && (#[trigger] after[j]).0 == k;
                    if found || j < i {
                        assert(before[j].0 == k);
                    } else {
                        assert(before[j - 1].0 == k);
                    }
                }
                if old_map.contains_key(k) {
                    let j = choose|j: int| 0 <= j < before.len() && (#[trigger] before[j]).0 == k;
                    if found || j < i {
                        assert(after[j].0 == before[j].0);
                    } else {
                        assert(after[j + 1].0 == before[j].0);
                    }
                }
                assert(after[i as int].0 == name);
            }
            assert forall|k: Seq<char>| #[trigger] new_map.contains_key(k) implies new_map[k]
                == old_map.insert(name, said)[k] by {
                let j = choose|j: int| 0 <= j < after.len() && (#[trigger] after[j]).0 == k;
                assert(new_map[k] == after[j].1);
                if k == name {
                    assert(after[i as int].0 == name);
                    if j < i {
                        assert(text_before(after[j].0, after[i as int].0));
                    } else if j > i {
                        assert(text_before(after[i as int].0, after[j].0));
                    }
                } else {
                    if found || j < i {
                        assert(before[j] == after[j]);
                    } else {
                        assert(before[j - 1] == after[j]);
                    }
                }
            }
            assert(new_map =~= old_map.insert(name, said));
            assert forall|a: int, b: int| 0 <= a < b < cells@.len() implies text_before(
                (#[trigger] cells@[a]).0@,
                (#[trigger] cells@[b]).0@,
            ) by {
                assert(text_before(after[a].0, after[b].0));
            }
        }
        self.cells = cells;
    }

}

impl<V: Duplicate> Clone for TextMap<V> {
    fn clone(&self) -> (r: Self)
        ensures
            r@ == self@,
            r.pairs() == self.pairs(),
    {
        let mut cells: Vec<(String, V)> = Vec::new();
        let mut i: usize = 0;
        while i < self.cells.len()
            invariant
                i <= self.cells.len(),
                cells@.len() == i,
                forall|j: int|
                    0 <= j < i ==> (#[trigger] cells@[j]).0@ == self.cells@[j].0@ && cells@[j].1@
                        == self.cells@[j].1@,
            decreases self.cells.len() - i,
        {
            cells.push((self.cells[i].0.clone(), self.cells[i].1.duplicate()));
            i = i + 1;
        }
        proof {
            use_type_invariant(self);
            assert(Seq::new(cells@.len(), |j: int| (cells@[j].0@, cells@[j].1@)) =~= self.pairs());
        }
        TextMap { cells }
    }
}

impl<V: View> View for TextMap<V> {
    type V = Map<Seq<char>, V::V>;

    open spec fn view(&self) -> Map<Seq<char>, V::V> {
        pairs_map(self.pairs())
    }
}

/// Whether a key is the last one that stands before a bound.
pub open spec fn is_last_before(keys: Set<Seq<char>>, bound: Seq<char>, key: Seq<char>) -> bool {
    &&& keys.contains(key)
    &&& text_before(key, bound)
    &&& forall|k: Seq<char>| #[trigger]
        keys.contains(k) && text_before(k, bound) ==> k == key || text_before(k, key)
}

/// Whether a key is the last of all.
pub open spec fn is_last(keys: Set<Seq<char>>, key: Seq<char>) -> bool {
    &&& keys.contains(key)
    &&& forall|k: Seq<char>| #[trigger] keys.contains(k) ==> k == key || text_before(k, key)
}

/// Whether a key is the first of all.
pub open spec fn is_first(keys: Set<Seq<char>>, key: Seq<char>) -> bool {
    &&& keys.contains(key)
    &&& forall|k: Seq<char>| #[trigger] keys.contains(k) ==> k == key || text_before(key, k)
}

/// The last key that stands before a bound, if there is one.
pub open spec fn last_before(keys: Set<Seq<char>>, bound: Seq<char>) -> Option<Seq<char>> {
    if exists|key: Seq<char>| is_last_before(keys, bound, key) {
        Some(choose|key: Seq<char>| is_last_before(keys, bound, key))
    } else {
        None
    }
}

/// The last key, if there is one.
pub open spec fn last_key(keys: Set<Seq<char>>) -> Option<Seq<char>> {
    if exists|key: Seq<char>| is_last(keys, key) {
        Some(choose|key: Seq<char>| is_last(keys, key))
    } else {
        None
    }
}

/// The first key, if there is one.
pub open spec fn first_key(keys: Set<Seq<char>>) -> Option<Seq<char>> {
    if exists|key: Seq<char>| is_first(keys, key) {
        Some(choose|key: Seq<char>| is_first(keys, key))
    } else {
        None
    }
}

impl<V: View> TextMap<V> {
    proof fn lemma_positions(&self)
        requires
            keys_increase(self.pairs()),
        ensures
            forall|k: Seq<char>| #[trigger]
                self@.dom().contains(k) <==> exists|i: int|
                    0 <= i < self.pairs().len() && (#[trigger] self.pairs()[i]).0 == k,
            forall|i: int|
                0 <= i < self.pairs().len() ==> self@.contains_key((#[trigger] self.pairs()[i]).0)
                    && self@[self.pairs()[i].0] == self.pairs()[i].1,
    {
        lemma_pairs_map(self.pairs());
        assert forall|k: Seq<char>| #[trigger] self@.dom().contains(k) <==> exists|i: int|
            0 <= i < self.pairs().len() && (#[trigger] self.pairs()[i]).0 == k by {
            assert(self@.dom().contains(k) == self@.contains_key(k));
        }
    }

    /// Where the last key before a bound stands.
    pub fn last_before(&self, bound: &str) -> (r: Option<usize>)
        ensures
            match r {
                Some(i) => i < self.pairs().len() && last_before(self@.dom(), bound@) == Some(
                    self.pairs()[i as int].0,
                ) && self@.contains_key(self.pairs()[i as int].0)
                    && self@[self.pairs()[i as int].0] == self.pairs()[i as int].1,
                None => last_before(self@.dom(), bound@) is None,
            },
    {
        let (n, _) = self.find(bound);
        let ghost pairs = self.pairs();
        proof {
            use_type_invariant(self);
            text_order_is_total();
            assert(keys_increase(pairs)) by {
                assert forall|i: int, j: int| 0 <= i < j < pairs.len() implies text_before(
                    (#[trigger] pairs[i]).0,
                    (#[trigger] pairs[j]).0,
                ) by {
                    assert(text_before(self.cells@[i].0@, self.cells@[j].0@));
                }
            }
            self.lemma_positions();
            assert forall|j: int| n <= j < pairs.len() implies !text_before(
                (#[trigger] pairs[j]).0,
                bound@,
            ) by {
                if n < pairs.len() && pairs[n as int].0 == bound@ {
                    if j > n {
                        assert(text_before(pairs[n as int].0, pairs[j].0));
                    }
                }
            }
        }
        if n == 0 {
            proof {
                assert forall|key: Seq<char>| !is_last_before(self@.dom(), bound@, key) by {
                    if self@.dom().contains(key) {
                        let j = choose|j: int| 0 <= j < pairs.len() && (#[trigger] pairs[j]).0
                            == key;
                        assert(!text_before(pairs[j].0, bound@));
                    }
                }
            }
            None
        } else {
            proof {
                let key = pairs[n - 1].0;
                assert forall|k: Seq<char>| #[trigger]
                    self@.dom().contains(k) && text_before(k, bound@) implies k == key
                    || text_before(k, key) by {
                    let j = choose|j: int| 0 <= j < pairs.len() && (#[trigger] pairs[j]).0 == k;
                    if j < n - 1 {
                        assert(text_before(pairs[j].0, pairs[n - 1].0));
                    } else if j >= n {
                        assert(!text_before(pairs[j].0, bound@));
                    }
                }
                assert(is_last_before(self@.dom(), bound@, key));
                let chosen = choose|k: Seq<char>| is_last_before(self@.dom(), bound@, k);
                assert(is_last_before(self@.dom(), bound@, chosen));
                assert(self@.dom().contains(chosen) && self@.dom().contains(key));
            }
            Some(n - 1)
        }
    }

    /// Where the last key stands.
    pub fn last(&self) -> (r: Option<usize>)
        ensures
            match r {
                Some(i) => i < self.pairs().len() && last_key(self@.dom()) == Some(
                    self.pairs()[i as int].0,
                ) && self@.contains_key(self.pairs()[i as int].0)
                    && self@[self.pairs()[i as int].0] == self.pairs()[i as int].1,
                None => last_key(self@.dom()) is None,
            },
    {
        let n: usize = self.cells.len();
        let ghost pairs = self.pairs();
        proof {
            use_type_invariant(self);
            text_order_is_total();
            assert(keys_increase(pairs)) by {
                assert forall|i: int, j: int| 0 <= i < j < pairs.len() implies text_before(
                    (#[trigger] pairs[i]).0,
                    (#[trigger] pairs[j]).0,
                ) by {
                    assert(text_before(self.cells@[i].0@, self.cells@[j].0@));
                }
            }
            self.lemma_positions();
        }
        if n == 0 {
            None
        } else {
            proof {
                let key = pairs[n - 1].0;
                assert forall|k: Seq<char>| #[trigger] self@.dom().contains(k) implies k == key
                    || text_before(k, key) by {
                    let j = choose|j: int| 0 <= j < pairs.len() && (#[trigger] pairs[j]).0 == k;
                    if j < n - 1 {
                        assert(text_before(pairs[j].0, pairs[n - 1].0));
                    }
                }
                assert(is_last(self@.dom(), key));
                let chosen = choose|k: Seq<char>| is_last(self@.dom(), k);
                assert(is_last(self@.dom(), chosen));
                assert(self@.dom().contains(chosen) && self@.dom().contains(key));
            }
            Some(n - 1)
        }
    }

    /// The first key.
    pub fn first(&self) -> (r: Option<&str>)
        ensures
            match r {
                Some(key) => first_key(self@.dom()) == Some(key@),
                None => first_key(self@.dom()) is None,
            },
    {
        let ghost pairs = self.pairs();
        proof {
            use_type_invariant(self);
            text_order_is_total();
            assert(keys_increase(pairs)) by {
                assert forall|i: int, j: int| 0 <= i < j < pairs.len() implies text_before(
                    (#[trigger] pairs[i]).0,
                    (#[trigger] pairs[j]).0,
                ) by {
                    assert(text_before(self.cells@[i].0@, self.cells@[j].0@));
                }
            }
            self.lemma_positions();
        }
        if self.cells.len() == 0 {
            None
        } else {
            proof {
                let key = pairs[0].0;
                assert forall|k: Seq<char>| #[trigger] self@.dom().contains(k) implies k == key
                    || text_before(key, k) by {
                    let j = choose|j: int| 0 <= j < pairs.len() && (#[trigger] pairs[j]).0 == k;
                    if j > 0 {
                        assert(text_before(pairs[0].0, pairs[j].0));
                    }
                }
                assert(is_first(self@.dom(), key));
                let chosen = choose|k: Seq<char>| is_first(self@.dom(), k);
                assert(is_first(self@.dom(), chosen));
                assert(self@.dom().contains(chosen) && self@.dom().contains(key));
            }
            Some(self.cells[0].0.as_str())
        }
    }

    /// Whether the map has a key.
    pub fn contains_key(&self, key: &str) -> (r: bool)
        ensures
            r == self@.contains_key(key@),
    {
        self.get(key).is_some()
    }
}

} // verus!
