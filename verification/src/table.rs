//! A map from text to values, kept in the order of its keys.

use crate::text;
use vstd::prelude::*;
use vstd::string::*;

verus! {

/// Keys in strictly ascending order.
pub open spec fn ascending(keys: Seq<Seq<char>>) -> bool {
    forall|i: int, j: int|
        0 <= i < j < keys.len() ==> text::lex_lt(#[trigger] keys[i], #[trigger] keys[j])
}

/// The map that pairs `keys[i]` with `values[i]`.
pub open spec fn paired<V>(keys: Seq<Seq<char>>, values: Seq<V>) -> Map<Seq<char>, V> {
    Map::new(|k: Seq<char>| keys.contains(k), |k: Seq<char>| values[keys.index_of(k)])
}

/// Ascending keys are all different.
pub proof fn ascending_distinct(keys: Seq<Seq<char>>)
    requires
        ascending(keys),
    ensures
        keys.no_duplicates(),
        forall|i: int| 0 <= i < keys.len() ==> keys.index_of(#[trigger] keys[i]) == i,
{
    assert forall|i: int, j: int| 0 <= i < keys.len() && 0 <= j < keys.len() && i != j implies keys[i]
        != keys[j] by {
        if i < j {
            text::lex_asymmetric(keys[i], keys[j]);
        } else {
            text::lex_asymmetric(keys[j], keys[i]);
        }
    }
    assert forall|i: int| 0 <= i < keys.len() implies keys.index_of(#[trigger] keys[i]) == i by {
        assert(keys.contains(keys[i]));
    }
}

/// A list drawn in order from the first `i` of ascending keys stays so with the next key behind it.
pub proof fn picked_in_order(keys: Seq<Seq<char>>, i: int, list: Seq<Seq<char>>)
    requires
        ascending(keys),
        0 <= i < keys.len(),
        ascending(list),
        forall|j: int| 0 <= j < list.len() ==> keys.take(i).contains(#[trigger] list[j]),
    ensures
        ascending(list.push(keys[i])),
        forall|j: int| 0 <= j < list.len() ==> keys.take(i + 1).contains(#[trigger] list[j]),
        forall|j: int|
            0 <= j < list.len() + 1 ==> keys.take(i + 1).contains(
                #[trigger] list.push(keys[i])[j],
            ),
{
    let more = list.push(keys[i]);
    assert(keys.take(i + 1) =~= keys.take(i).push(keys[i]));
    assert forall|j: int| 0 <= j < list.len() implies keys.take(i + 1).contains(
        #[trigger] list[j],
    ) by {
        text::contains_push(keys.take(i), keys[i], list[j]);
    }
    assert forall|j: int| 0 <= j < list.len() + 1 implies keys.take(i + 1).contains(
        #[trigger] more[j],
    ) by {
        text::contains_push(keys.take(i), keys[i], more[j]);
        if j < list.len() {
            assert(more[j] == list[j]);
        }
    }
    assert forall|a: int, b: int| 0 <= a < b < more.len() implies text::lex_lt(
        #[trigger] more[a],
        #[trigger] more[b],
    ) by {
        if b == list.len() {
            assert(more[a] == list[a]);
            let j = keys.take(i).index_of(list[a]);
            assert(keys[j] == list[a]);
        } else {
            assert(more[a] == list[a] && more[b] == list[b]);
        }
    }
}

/// A map from text to `V`; its entries stand in ascending order of their keys.
pub struct Table<V> {
    entries: Vec<(String, V)>,
}

impl<V> Table<V> {
    /// The keys, in order.
    pub closed spec fn keys(self) -> Seq<Seq<char>> {
        self.entries@.map_values(|e: (String, V)| e.0@)
    }

    /// The values, in the order of their keys.
    pub closed spec fn values(self) -> Seq<V> {
        self.entries@.map_values(|e: (String, V)| e.1)
    }

    #[verifier::type_invariant]
    spec fn ordered(self) -> bool {
        ascending(self.keys())
    }

    /// An empty table.
    pub fn new() -> (t: Table<V>)
        ensures
            t@ == Map::<Seq<char>, V>::empty(),
            t.keys().len() == 0,
    {
        let t = Table { entries: Vec::new() };
        assert(t@ =~= Map::<Seq<char>, V>::empty());
        t
    }

    /// The number of entries.
    pub fn len(&self) -> (n: usize)
        ensures
            n == self.keys().len(),
            n == self.values().len(),
            ascending(self.keys()),
            self@ == paired(self.keys(), self.values()),
            forall|i: int|
                0 <= i < n ==> self@.contains_key(#[trigger] self.keys()[i])
                    && self@[self.keys()[i]] == self.values()[i],
    {
        proof {
            use_type_invariant(self);
            ascending_distinct(self.keys());
            assert forall|i: int| 0 <= i < self.keys().len() implies self@.contains_key(
                #[trigger] self.keys()[i],
            ) && self@[self.keys()[i]] == self.values()[i] by {}
        }
        self.entries.len()
    }

    /// The key of the `i`th entry.
    pub fn key_at(&self, i: usize) -> (k: &String)
        requires
            i < self.keys().len(),
        ensures
            k@ == self.keys()[i as int],
    {
        &self.entries[i].0
    }

    /// The value of the `i`th entry.
    pub fn value_at(&self, i: usize) -> (v: &V)
        requires
            i < self.keys().len(),
        ensures
            *v == self.values()[i as int],
            self@.contains_key(self.keys()[i as int]),
            *v == self@[self.keys()[i as int]],
    {
        proof {
            use_type_invariant(self);
            ascending_distinct(self.keys());
            assert(self.keys().contains(self.keys()[i as int]));
        }
        &self.entries[i].1
    }

    /// The position of `k`, or the position at which it would stand.
    fn position(&self, k: &str) -> (r: (bool, usize))
        ensures
            r.1 <= self.keys().len(),
            r.0 ==> r.1 < self.keys().len() && self.keys()[r.1 as int] == k@,
            !r.0 ==> !self.keys().contains(k@),
            !r.0 ==> forall|i: int| 0 <= i < r.1 ==> text::lex_lt(#[trigger] self.keys()[i], k@),
            !r.0 ==> forall|i: int|
                r.1 <= i < self.keys().len() ==> text::lex_lt(k@, #[trigger] self.keys()[i]),
    {
        proof {
            use_type_invariant(self);
        }
        let ghost keys = self.keys();
        let mut lo: usize = 0;
        let mut hi: usize = self.entries.len();
        while lo < hi
            invariant
                lo <= hi <= keys.len(),
                keys == self.keys(),
                keys.len() == self.entries.len(),
                ascending(keys),
                forall|i: int| 0 <= i < lo ==> text::lex_lt(#[trigger] keys[i], k@),
                forall|i: int| hi <= i < keys.len() ==> text::lex_lt(k@, #[trigger] keys[i]),
            decreases hi - lo,
        {
            let mid: usize = lo + (hi - lo) / 2;
            let probe = &self.entries[mid].0;
            proof {
                assert(probe@ == keys[mid as int]);
            }
            if text::before(probe.as_str(), k) {
                proof {
                    assert forall|i: int| 0 <= i < mid + 1 implies text::lex_lt(
                        #[trigger] keys[i],
                        k@,
                    ) by {
                        if i < mid {
                            text::lex_transitive(keys[i], keys[mid as int], k@);
                        }
                    }
                }
                lo = mid + 1;
            } else if text::before(k, probe.as_str()) {
                proof {
                    assert forall|i: int| mid <= i < keys.len() implies text::lex_lt(
                        k@,
                        #[trigger] keys[i],
                    ) by {
                        if i > mid {
                            text::lex_transitive(k@, keys[mid as int], keys[i]);
                        }
                    }
                }
                hi = mid;
            } else {
                proof {
                    text::lex_total(probe@, k@);
                }
                return (true, mid);
            }
        }
        proof {
            if keys.contains(k@) {
                let i = keys.index_of(k@);
                text::lex_irreflexive(k@);
                assert(keys[i] == k@);
            }
        }
        (false, lo)
    }

    /// The value of `k`.
    pub fn get(&self, k: &str) -> (v: Option<&V>)
        ensures
            match v {
                Some(x) => self@.contains_key(k@) && *x == self@[k@],
                None => !self@.contains_key(k@),
            },
    {
        let (found, i) = self.position(k);
        if found {
            Some(self.value_at(i))
        } else {
            None
        }
    }

    /// Whether `k` has a value.
    pub fn contains_key(&self, k: &str) -> (r: bool)
        ensures
            r == self@.contains_key(k@),
    {
        let (found, i) = self.position(k);
        proof {
            if found {
                assert(self.keys().contains(self.keys()[i as int]));
            }
        }
        found
    }

    /// Gives `k` the value `v`, in place of any earlier one.
    pub fn insert(&mut self, k: String, v: V)
        ensures
            final(self)@ == old(self)@.insert(k@, v),
    {
        let (found, i) = self.position(k.as_str());
        proof {
            use_type_invariant(&*self);
        }
        let ghost keys = self.keys();
        let ghost values = self.values();
        let mut entries: Vec<(String, V)> = Vec::new();
        std::mem::swap(&mut entries, &mut self.entries);
        if found {
            let ghost before = entries@;
            let slot = (k, v);
            entries[i] = slot;
            let ghost keys2 = entries@.map_values(|e: (String, V)| e.0@);
            let ghost values2 = entries@.map_values(|e: (String, V)| e.1);
            proof {
                assert(keys2 =~= keys);
                assert(values2 =~= values.update(i as int, v));
                ascending_distinct(keys);
                assert(paired(keys2, values2) =~= paired(keys, values).insert(k@, v));
            }
        } else {
            entries.insert(i, (k, v));
            let ghost keys2 = entries@.map_values(|e: (String, V)| e.0@);
            let ghost values2 = entries@.map_values(|e: (String, V)| e.1);
            proof {
                assert(keys2 =~= keys.insert(i as int, k@));
                assert(values2 =~= values.insert(i as int, v));
                assert(ascending(keys2)) by {
                    assert forall|a: int, b: int| 0 <= a < b < keys2.len() implies text::lex_lt(
                        #[trigger] keys2[a],
                        #[trigger] keys2[b],
                    ) by {
                        let a0 = if a < i { a } else { a - 1 };
                        let b0 = if b < i { b } else { b - 1 };
                        if a != i {
                            assert(keys2[a] == keys[a0]);
                        }
                        if b != i {
                            assert(keys2[b] == keys[b0]);
                        }
                    }
                }
                ascending_distinct(keys);
                ascending_distinct(keys2);
                let m = paired(keys, values).insert(k@, v);
                let m2 = paired(keys2, values2);
                assert forall|x: Seq<char>|
                    #![trigger m2.dom().contains(x)]
                    #![trigger m2[x]]
                    m.dom().contains(x) == m2.dom().contains(x) && (m2.dom().contains(x) ==> m[x]
                        == m2[x]) by {
                    if keys2.contains(x) {
                        let j = keys2.index_of(x);
                        assert(keys2[j] == x);
                        if j < i {
                            assert(keys[j] == x);
                        } else if j > i {
                            assert(keys[j - 1] == x);
                        }
                    }
                    if keys.contains(x) {
                        let j = keys.index_of(x);
                        assert(keys[j] == x);
                        if j < i {
                            assert(keys2[j] == x);
                        } else {
                            assert(keys2[j + 1] == x);
                        }
                    }
                    if x == k@ {
                        assert(keys2[i as int] == x);
                    }
                }
                assert(m2 =~= m);
            }
        }
        self.entries = entries;
    }

    /// Takes the entry of `k` out.
    pub fn remove(&mut self, k: &str) -> (r: Option<V>)
        ensures
            final(self)@ == old(self)@.remove(k@),
            match r {
                Some(v) => old(self)@.contains_key(k@) && v == old(self)@[k@],
                None => !old(self)@.contains_key(k@),
            },
    {
        let (found, i) = self.position(k);
        proof {
            use_type_invariant(&*self);
            ascending_distinct(self.keys());
        }
        if !found {
            assert(self@.remove(k@) =~= self@);
            return None;
        }
        let ghost keys = self.keys();
        let ghost values = self.values();
        let mut entries: Vec<(String, V)> = Vec::new();
        std::mem::swap(&mut entries, &mut self.entries);
        let (_, v) = entries.remove(i);
        proof {
            let keys2 = entries@.map_values(|e: (String, V)| e.0@);
            let values2 = entries@.map_values(|e: (String, V)| e.1);
            assert(keys2 =~= keys.remove(i as int));
            assert(values2 =~= values.remove(i as int));
            assert forall|a: int, b: int| 0 <= a < b < keys2.len() implies text::lex_lt(
                #[trigger] keys2[a],
                #[trigger] keys2[b],
            ) by {
                let a0 = if a < i { a } else { a + 1 };
                let b0 = if b < i { b } else { b + 1 };
                assert(keys2[a] == keys[a0]);
                assert(keys2[b] == keys[b0]);
            }
            ascending_distinct(keys2);
            let m = paired(keys, values).remove(k@);
            let m2 = paired(keys2, values2);
            assert forall|x: Seq<char>|
                #![trigger m2.dom().contains(x)]
                #![trigger m2[x]]
                m.dom().contains(x) == m2.dom().contains(x) && (m2.dom().contains(x) ==> m[x]
                    == m2[x]) by {
                if keys2.contains(x) {
                    let j = keys2.index_of(x);
                    assert(keys2[j] == x);
                    if j < i {
                        assert(keys[j] == x);
                    } else {
                        assert(keys[j + 1] == x);
                    }
                }
                if keys.contains(x) && x != k@ {
                    let j = keys.index_of(x);
                    assert(keys[j] == x);
                    if j < i {
                        assert(keys2[j] == x);
                    } else {
                        assert(keys2[j - 1] == x);
                    }
                }
            }
            assert(m2 =~= m);
        }
        self.entries = entries;
        Some(v)
    }
}

impl<V> Table<V> {
    /// Takes the entries of all these keys out.
    pub fn remove_all(&mut self, keys: &Vec<String>)
        ensures
            final(self)@ == old(self)@.remove_keys(text::views(keys@).to_set()),
    {
        let ghost before = self@;
        let ghost all = text::views(keys@);
        let mut i: usize = 0;
        proof {
            assert(before =~= before.remove_keys(all.take(0).to_set()));
        }
        while i < keys.len()
            invariant
                i <= keys@.len(),
                all == text::views(keys@),
                self@ == before.remove_keys(all.take(i as int).to_set()),
            decreases keys@.len() - i,
        {
            self.remove(keys[i].as_str());
            proof {
                let now = all.take(i as int);
                let next = all.take(i + 1);
                assert(next =~= now.push(all[i as int]));
                assert(next.to_set() =~= now.to_set().insert(all[i as int])) by {
                    assert forall|x: Seq<char>| next.contains(x) == now.to_set().insert(
                        all[i as int],
                    ).contains(x) by {
                        if next.contains(x) {
                            let j = next.index_of(x);
                            if j < i {
                                assert(now[j] == x);
                            }
                        }
                        if now.contains(x) {
                            assert(next[now.index_of(x)] == x);
                        }
                        assert(next[i as int] == all[i as int]);
                    }
                }
                assert(before.remove_keys(now.to_set()).remove(all[i as int])
                    =~= before.remove_keys(next.to_set()));
            }
            i += 1;
        }
        proof {
            assert(all.take(i as int) =~= all);
        }
    }
}

/// Mapping the values of a map commutes with adding an entry.
pub proof fn mapped_insert<V, W>(m: Map<Seq<char>, V>, f: spec_fn(V) -> W, k: Seq<char>, v: V)
    ensures
        m.insert(k, v).map_values(f) == m.map_values(f).insert(k, f(v)),
{
    assert(m.insert(k, v).map_values(f) =~= m.map_values(f).insert(k, f(v)));
}

/// Mapping the values of a map commutes with removing keys.
pub proof fn mapped_remove_keys<V, W>(
    m: Map<Seq<char>, V>,
    f: spec_fn(V) -> W,
    keys: Set<Seq<char>>,
)
    ensures
        m.remove_keys(keys).map_values(f) == m.map_values(f).remove_keys(keys),
{
    assert(m.remove_keys(keys).map_values(f) =~= m.map_values(f).remove_keys(keys));
}

/// Mapping the values of a map commutes with removing a key.
pub proof fn mapped_remove<V, W>(m: Map<Seq<char>, V>, f: spec_fn(V) -> W, k: Seq<char>)
    ensures
        m.remove(k).map_values(f) == m.map_values(f).remove(k),
{
    assert(m.remove(k).map_values(f) =~= m.map_values(f).remove(k));
}

impl<V> View for Table<V> {
    type V = Map<Seq<char>, V>;

    open spec fn view(&self) -> Map<Seq<char>, V> {
        paired(self.keys(), self.values())
    }
}

/// Keys are in ascending order where each comes before the next.
pub proof fn ascending_means_each_before_the_next(keys: Seq<Seq<char>>)
    ensures
        ascending(keys) <==> forall|i: int|
            #![trigger keys[i]]
            0 <= i && i + 1 < keys.len() ==> text::lex_lt(keys[i], keys[i + 1]),
{
    if forall|i: int|
        #![trigger keys[i]]
        0 <= i && i + 1 < keys.len() ==> text::lex_lt(keys[i], keys[i + 1]) {
        assert forall|i: int, j: int| 0 <= i < j < keys.len() implies text::lex_lt(
            #[trigger] keys[i],
            #[trigger] keys[j],
        ) by {
            steps_add_up(keys, i, j);
        }
    }
}

proof fn steps_add_up(keys: Seq<Seq<char>>, i: int, j: int)
    requires
        0 <= i < j < keys.len(),
        forall|k: int|
            #![trigger keys[k]]
            0 <= k && k + 1 < keys.len() ==> text::lex_lt(keys[k], keys[k + 1]),
    ensures
        text::lex_lt(keys[i], keys[j]),
    decreases j - i,
{
    if i + 1 < j {
        steps_add_up(keys, i, j - 1);
        assert(text::lex_lt(keys[j - 1], keys[(j - 1) + 1]));
        text::lex_transitive(keys[i], keys[j - 1], keys[j]);
    } else {
        assert(text::lex_lt(keys[i], keys[i + 1]));
    }
}

} // verus!
