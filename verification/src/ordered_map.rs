//! A map from strings to values that iterates in key order, stored as a
//! vector of entries kept sorted by key and searched by bisection.

use vstd::prelude::*;
use crate::text::{lex_lt, str_lex_less, str_equal, lemma_lex_irreflexive, lemma_lex_transitive,
    lemma_lex_total, lemma_lex_asymmetric, to_owned_string, string_seq_view};

verus! {

/// The keys of a list of entries.
pub open spec fn keys_of<V>(e: Seq<(String, V)>) -> Seq<Seq<char>> {
    e.map_values(|p: (String, V)| p.0@)
}

/// Keys strictly increasing in lexicographic order.
pub open spec fn strictly_sorted(ks: Seq<Seq<char>>) -> bool {
    forall|i: int, j: int| 0 <= i < j < ks.len() ==> lex_lt(#[trigger] ks[i], #[trigger] ks[j])
}

/// The map denoted by a list of entries with distinct keys.
pub open spec fn entries_map<V>(e: Seq<(String, V)>) -> Map<Seq<char>, V> {
    Map::new(|k: Seq<char>| keys_of(e).contains(k), |k: Seq<char>| e[keys_of(e).index_of(k)].1)
}

/// Strictly sorted keys are distinct.
proof fn lemma_sorted_distinct(ks: Seq<Seq<char>>, i: int, j: int)
    requires
        strictly_sorted(ks),
        0 <= i < ks.len(),
        0 <= j < ks.len(),
        i != j,
    ensures
        ks[i] != ks[j],
{
    if i < j {
        assert(lex_lt(ks[i], ks[j]));
        lemma_lex_irreflexive(ks[i]);
    } else {
        assert(lex_lt(ks[j], ks[i]));
        lemma_lex_irreflexive(ks[i]);
    }
}

/// In sorted entries, the value of the key at index `i` is the `i`th value.
proof fn lemma_entry_at<V>(e: Seq<(String, V)>, i: int)
    requires
        strictly_sorted(keys_of(e)),
        0 <= i < e.len(),
    ensures
        entries_map(e).contains_key(e[i].0@),
        entries_map(e)[e[i].0@] == e[i].1,
{
    let ks = keys_of(e);
    assert(ks[i] == e[i].0@);
    assert(ks.contains(e[i].0@));
    let j = ks.index_of(e[i].0@);
    if j != i {
        lemma_sorted_distinct(ks, i, j);
    }
}

/// A map from strings to values, iterated in lexicographic key order.
#[derive(Debug)]
pub struct OrderedMap<V> {
    entries: Vec<(String, V)>,
}

impl<V> View for OrderedMap<V> {
    type V = Map<Seq<char>, V>;

    closed spec fn view(&self) -> Map<Seq<char>, V> {
        entries_map(self.entries@)
    }
}

impl<V> OrderedMap<V> {
    #[verifier::type_invariant]
    closed spec fn sorted(&self) -> bool {
        strictly_sorted(keys_of(self.entries@))
    }

    /// The keys in ascending order.
    pub closed spec fn key_seq(&self) -> Seq<Seq<char>> {
        keys_of(self.entries@)
    }

    /// The entries `(key, value)` in ascending key order.
    pub closed spec fn entry_seq(&self) -> Seq<(String, V)> {
        self.entries@
    }

    /// An empty map.
    pub fn new() -> (m: Self)
        ensures
            m@ == Map::<Seq<char>, V>::empty(),
            m.key_seq() == Seq::<Seq<char>>::empty(),
    {
        let m = OrderedMap { entries: Vec::new() };
        assert(m@ =~= Map::<Seq<char>, V>::empty());
        assert(m.key_seq() =~= Seq::<Seq<char>>::empty());
        m
    }

    /// Position of `key`, found by binary search: the first entry whose key
    /// is not below it, and whether that entry's key equals it.
    fn find(&self, key: &str) -> (r: (usize, bool))
        ensures
            r.0 <= self.entries@.len(),
            forall|i: int| 0 <= i < r.0 ==> lex_lt(#[trigger] keys_of(self.entries@)[i], key@),
            r.1 ==> r.0 < self.entries@.len() && keys_of(self.entries@)[r.0 as int] == key@,
            !r.1 ==> r.0 == self.entries@.len() || lex_lt(key@, keys_of(self.entries@)[r.0 as int]),
    {
        proof {
            use_type_invariant(self);
        }
        // binary search: keys below `lo` are below `key`, keys from `hi` on are not
        let mut lo: usize = 0;
        let mut hi: usize = self.entries.len();
        while lo < hi
            invariant
                lo <= hi <= self.entries@.len(),
                strictly_sorted(keys_of(self.entries@)),
                forall|j: int| 0 <= j < lo ==> lex_lt(#[trigger] keys_of(self.entries@)[j], key@),
                forall|j: int| hi <= j < self.entries@.len() ==> !lex_lt(#[trigger] keys_of(self.entries@)[j], key@),
            decreases hi - lo,
        {
            let mid = lo + (hi - lo) / 2;
            let ghost ks = keys_of(self.entries@);
            assert(ks[mid as int] == self.entries@[mid as int].0@);
            if str_lex_less(self.entries[mid].0.as_str(), key) {
                assert forall|j: int| 0 <= j < mid + 1 implies lex_lt(#[trigger] ks[j], key@) by {
                    if j < mid {
                        assert(lex_lt(ks[j], ks[mid as int]));
                        lemma_lex_transitive(ks[j], ks[mid as int], key@);
                    }
                }
                lo = mid + 1;
            } else {
                assert forall|j: int| mid <= j < self.entries@.len() implies !lex_lt(#[trigger] ks[j], key@) by {
                    if mid < j && lex_lt(ks[j], key@) {
                        assert(lex_lt(ks[mid as int], ks[j]));
                        lemma_lex_transitive(ks[mid as int], ks[j], key@);
                    }
                }
                hi = mid;
            }
        }
        let i = lo;
        if i < self.entries.len() {
            let found = str_equal(self.entries[i].0.as_str(), key);
            proof {
                let ki = keys_of(self.entries@)[i as int];
                assert(ki == self.entries@[i as int].0@);
                if !found {
                    lemma_lex_total(ki, key@);
                }
            }
            (i, found)
        } else {
            (i, false)
        }
    }

    /// The value stored under `key`.
    pub fn get(&self, key: &str) -> (r: Option<&V>)
        ensures
            r is Some <==> self@.contains_key(key@),
            r matches Some(v) ==> *v == self@[key@],
    {
        proof {
            use_type_invariant(self);
        }
        let (i, found) = self.find(key);
        if found {
            proof {
                lemma_entry_at(self.entries@, i as int);
            }
            Some(&self.entries[i].1)
        } else {
            proof {
                self.lemma_absent(key@, i as int);
            }
            None
        }
    }

    proof fn lemma_absent(&self, k: Seq<char>, i: int)
        requires
            strictly_sorted(keys_of(self.entries@)),
            0 <= i <= self.entries@.len(),
            forall|j: int| 0 <= j < i ==> lex_lt(#[trigger] keys_of(self.entries@)[j], k),
            i == self.entries@.len() || lex_lt(k, keys_of(self.entries@)[i]),
        ensures
            !self@.contains_key(k),
            !keys_of(self.entries@).contains(k),
    {
        let ks = keys_of(self.entries@);
        if ks.contains(k) {
            let j = choose|j: int| 0 <= j < ks.len() && ks[j] == k;
            if j < i {
                lemma_lex_irreflexive(k);
            } else if j == i {
                lemma_lex_irreflexive(k);
            } else {
                assert(lex_lt(ks[i], ks[j]));
                lemma_lex_transitive(k, ks[i], k);
                lemma_lex_irreflexive(k);
            }
        }
    }

    /// Whether `key` is present.
    pub fn contains_key(&self, key: &str) -> (b: bool)
        ensures
            b == self@.contains_key(key@),
    {
        proof {
            use_type_invariant(self);
        }
        let (i, found) = self.find(key);
        if found {
            proof {
                lemma_entry_at(self.entries@, i as int);
            }
        } else {
            proof {
                self.lemma_absent(key@, i as int);
            }
        }
        found
    }

    /// Stores `value` under `key`, returning the value it replaces.
    pub fn insert(&mut self, key: String, value: V) -> (r: Option<V>)
        ensures
            final(self)@ == old(self)@.insert(key@, value),
            r is Some <==> old(self)@.contains_key(key@),
            r matches Some(v) ==> v == old(self)@[key@],
    {
        proof {
            use_type_invariant(&*self);
        }
        let (i, found) = self.find(key.as_str());
        let ghost old_e = self.entries@;
        let ghost k = key@;
        if found {
            proof {
                lemma_entry_at(old_e, i as int);
            }
            let ghost mid = old_e.remove(i as int);
            proof {
                lemma_keys_remove(old_e, i as int);
            }
            let mut e: Vec<(String, V)> = Vec::new();
            std::mem::swap(&mut e, &mut self.entries);
            let prev = e.remove(i);
            proof {
                lemma_keys_insert(mid, i as int, (key, value));
            }
            e.insert(i, (key, value));
            proof {
                lemma_map_replace(old_e, i as int, (key, value));
            }
            self.entries = e;
            Some(prev.1)
        } else {
            proof {
                self.lemma_absent(k, i as int);
                lemma_keys_insert(old_e, i as int, (key, value));
            }
            let mut e: Vec<(String, V)> = Vec::new();
            std::mem::swap(&mut e, &mut self.entries);
            e.insert(i, (key, value));
            proof {
                lemma_map_insert_new(old_e, i as int, (key, value));
            }
            self.entries = e;
            None
        }
    }

    /// Removes `key`, returning its value.
    pub fn remove(&mut self, key: &str) -> (r: Option<V>)
        ensures
            final(self)@ == old(self)@.remove(key@),
            r is Some <==> old(self)@.contains_key(key@),
            r matches Some(v) ==> v == old(self)@[key@],
    {
        proof {
            use_type_invariant(&*self);
        }
        let (i, found) = self.find(key);
        let ghost old_e = self.entries@;
        if found {
            proof {
                lemma_entry_at(old_e, i as int);
                lemma_keys_remove(old_e, i as int);
            }
            let mut e: Vec<(String, V)> = Vec::new();
            std::mem::swap(&mut e, &mut self.entries);
            let prev = e.remove(i);
            proof {
                lemma_map_remove(old_e, i as int);
            }
            self.entries = e;
            Some(prev.1)
        } else {
            proof {
                self.lemma_absent(key@, i as int);
                assert(self@ =~= old(self)@.remove(key@));
            }
            None
        }
    }

    /// Number of entries.
    pub fn len(&self) -> (n: usize)
        ensures
            n == self@.len(),
    {
        proof {
            use_type_invariant(self);
            lemma_dom_len(self.entries@);
        }
        self.entries.len()
    }

    /// Whether the map is empty.
    pub fn is_empty(&self) -> (b: bool)
        ensures
            b == (self@.len() == 0),
    {
        self.len() == 0
    }

    /// The entries in ascending key order.
    pub fn entries(&self) -> (r: &[(String, V)])
        ensures
            r@ == self.entry_seq(),
            strictly_sorted(keys_of(r@)),
            entries_map(r@) == self@,
            r@.len() == self@.len(),
            forall|k: Seq<char>| #[trigger] self@.contains_key(k) <==> keys_of(r@).contains(k),
    {
        proof {
            use_type_invariant(self);
            lemma_dom_len(self.entries@);
        }
        self.entries.as_slice()
    }

    /// The keys in ascending order.
    pub fn keys(&self) -> (r: Vec<String>)
        ensures
            string_seq_view(r@) == self.key_seq(),
            strictly_sorted(string_seq_view(r@)),
            string_seq_view(r@).len() == self@.len(),
            forall|k: Seq<char>| #[trigger] self@.contains_key(k) <==> string_seq_view(r@).contains(k),
    {
        proof {
            use_type_invariant(self);
            lemma_dom_len(self.entries@);
        }
        let mut r: Vec<String> = Vec::new();
        let mut i: usize = 0;
        while i < self.entries.len()
            invariant
                i <= self.entries@.len(),
                r@.len() == i,
                string_seq_view(r@) == keys_of(self.entries@).subrange(0, i as int),
            decreases self.entries.len() - i,
        {
            let s = self.entries[i].0.clone();
            let ghost before = r@;
            r.push(s);
            proof {
                assert forall|j: int| 0 <= j < i + 1 implies #[trigger] string_seq_view(r@)[j]
                    == keys_of(self.entries@).subrange(0, i + 1)[j] by {
                    if j < i {
                        assert(r@[j] == before[j]);
                        assert(string_seq_view(before)[j] == keys_of(self.entries@).subrange(0, i as int)[j]);
                    }
                }
            }
            i = i + 1;
            assert(string_seq_view(r@) =~= keys_of(self.entries@).subrange(0, i as int));
        }
        assert(keys_of(self.entries@).subrange(0, i as int) =~= keys_of(self.entries@));
        r
    }
}

impl OrderedMap<String> {
    /// A copy of a map of strings.
    pub fn duplicate(&self) -> (r: Self)
        ensures
            forall|k: Seq<char>| #[trigger] r@.contains_key(k) <==> self@.contains_key(k),
            forall|k: Seq<char>| self@.contains_key(k) ==> (#[trigger] r@[k])@ == self@[k]@,
            r.key_seq() == self.key_seq(),
    {
        proof {
            use_type_invariant(self);
        }
        let mut e: Vec<(String, String)> = Vec::new();
        let mut i: usize = 0;
        while i < self.entries.len()
            invariant
                i <= self.entries@.len(),
                e@.len() == i,
                forall|j: int| 0 <= j < i ==> (#[trigger] e@[j]).0@ == self.entries@[j].0@
                    && e@[j].1@ == self.entries@[j].1@,
            decreases self.entries.len() - i,
        {
            let k = self.entries[i].0.clone();
            let v = self.entries[i].1.clone();
            e.push((k, v));
            i = i + 1;
        }
        assert(keys_of(e@) =~= keys_of(self.entries@));
        let r = OrderedMap { entries: e };
        proof {
            assert forall|k: Seq<char>| r@.contains_key(k) implies (#[trigger] r@[k])@ == self@[k]@ by {
                let j = keys_of(e@).index_of(k);
                lemma_entry_at(e@, j);
                lemma_entry_at(self.entries@, j);
            }
        }
        r
    }
}

proof fn lemma_dom_len<V>(e: Seq<(String, V)>)
    requires
        strictly_sorted(keys_of(e)),
    ensures
        entries_map(e).dom().finite(),
        entries_map(e).len() == e.len(),
{
    let ks = keys_of(e);
    assert(ks.no_duplicates()) by {
        assert forall|i: int, j: int| 0 <= i < ks.len() && 0 <= j < ks.len() && i != j implies ks[i] != ks[j] by {
            lemma_sorted_distinct(ks, i, j);
        }
    }
    ks.unique_seq_to_set();
    assert(entries_map(e).dom() =~= ks.to_set());
}

proof fn lemma_keys_remove<V>(e: Seq<(String, V)>, i: int)
    requires
        strictly_sorted(keys_of(e)),
        0 <= i < e.len(),
    ensures
        keys_of(e.remove(i)) == keys_of(e).remove(i),
        strictly_sorted(keys_of(e.remove(i))),
{
    assert(keys_of(e.remove(i)) =~= keys_of(e).remove(i));
    let ks = keys_of(e).remove(i);
    assert forall|a: int, b: int| 0 <= a < b < ks.len() implies lex_lt(#[trigger] ks[a], #[trigger] ks[b]) by {
        let a2 = if a < i { a } else { a + 1 };
        let b2 = if b < i { b } else { b + 1 };
        assert(ks[a] == keys_of(e)[a2]);
        assert(ks[b] == keys_of(e)[b2]);
    }
}

proof fn lemma_keys_insert<V>(e: Seq<(String, V)>, i: int, p: (String, V))
    requires
        strictly_sorted(keys_of(e)),
        0 <= i <= e.len(),
        forall|j: int| 0 <= j < i ==> lex_lt(#[trigger] keys_of(e)[j], p.0@),
        i == e.len() || lex_lt(p.0@, keys_of(e)[i]),
    ensures
        keys_of(e.insert(i, p)) == keys_of(e).insert(i, p.0@),
        strictly_sorted(keys_of(e.insert(i, p))),
{
    assert(keys_of(e.insert(i, p)) =~= keys_of(e).insert(i, p.0@));
    let old_ks = keys_of(e);
    let ks = keys_of(e).insert(i, p.0@);
    assert forall|a: int, b: int| 0 <= a < b < ks.len() implies lex_lt(#[trigger] ks[a], #[trigger] ks[b]) by {
        if b < i {
            assert(ks[a] == old_ks[a] && ks[b] == old_ks[b]);
        } else if b == i {
            assert(ks[a] == old_ks[a]);
        } else if a == i {
            assert(ks[b] == old_ks[b - 1]);
            if b - 1 > i {
                assert(lex_lt(old_ks[i], old_ks[b - 1]));
                lemma_lex_transitive(p.0@, old_ks[i], old_ks[b - 1]);
            }
        } else if a < i {
            assert(ks[a] == old_ks[a] && ks[b] == old_ks[b - 1]);
        } else {
            assert(ks[a] == old_ks[a - 1] && ks[b] == old_ks[b - 1]);
        }
    }
}

proof fn lemma_map_insert_new<V>(e: Seq<(String, V)>, i: int, p: (String, V))
    requires
        strictly_sorted(keys_of(e)),
        strictly_sorted(keys_of(e.insert(i, p))),
        keys_of(e.insert(i, p)) == keys_of(e).insert(i, p.0@),
        0 <= i <= e.len(),
        !keys_of(e).contains(p.0@),
    ensures
        entries_map(e.insert(i, p)) == entries_map(e).insert(p.0@, p.1),
{
    let e2 = e.insert(i, p);
    let m1 = entries_map(e);
    let m2 = entries_map(e2);
    assert forall|k: Seq<char>| #[trigger] m2.contains_key(k) <==> m1.insert(p.0@, p.1).contains_key(k) by {
        if keys_of(e).contains(k) {
            let j = choose|j: int| 0 <= j < keys_of(e).len() && keys_of(e)[j] == k;
            let j2 = if j < i { j } else { j + 1 };
            assert(keys_of(e2)[j2] == k);
        }
        if keys_of(e2).contains(k) && k != p.0@ {
            let j2 = choose|j: int| 0 <= j < keys_of(e2).len() && keys_of(e2)[j] == k;
            let j = if j2 < i { j2 } else { j2 - 1 };
            assert(j2 != i);
            assert(keys_of(e)[j] == k);
        }
        assert(keys_of(e2)[i] == p.0@);
    }
    assert forall|k: Seq<char>| m2.contains_key(k) implies #[trigger] m2[k] == m1.insert(p.0@, p.1)[k] by {
        let j2 = choose|j: int| 0 <= j < keys_of(e2).len() && keys_of(e2)[j] == k;
        lemma_entry_at(e2, j2);
        if j2 != i {
            let j = if j2 < i { j2 } else { j2 - 1 };
            assert(e2[j2] == e[j]);
            lemma_entry_at(e, j);
        }
    }
    assert(m2 =~= m1.insert(p.0@, p.1));
}

proof fn lemma_map_replace<V>(e: Seq<(String, V)>, i: int, p: (String, V))
    requires
        strictly_sorted(keys_of(e)),
        0 <= i < e.len(),
        keys_of(e)[i] == p.0@,
        strictly_sorted(keys_of(e.remove(i).insert(i, p))),
    ensures
        entries_map(e.remove(i).insert(i, p)) == entries_map(e).insert(p.0@, p.1),
{
    let e2 = e.remove(i).insert(i, p);
    assert(e2 =~= e.update(i, p));
    let m1 = entries_map(e);
    let m2 = entries_map(e2);
    assert(keys_of(e2) =~= keys_of(e));
    assert forall|k: Seq<char>| m2.contains_key(k) implies #[trigger] m2[k] == m1.insert(p.0@, p.1)[k] by {
        let j = choose|j: int| 0 <= j < keys_of(e2).len() && keys_of(e2)[j] == k;
        lemma_entry_at(e2, j);
        if j != i {
            lemma_entry_at(e, j);
            lemma_sorted_distinct(keys_of(e), i, j);
        }
    }
    assert(m2 =~= m1.insert(p.0@, p.1));
}

proof fn lemma_map_remove<V>(e: Seq<(String, V)>, i: int)
    requires
        strictly_sorted(keys_of(e)),
        0 <= i < e.len(),
        strictly_sorted(keys_of(e.remove(i))),
        keys_of(e.remove(i)) == keys_of(e).remove(i),
    ensures
        entries_map(e.remove(i)) == entries_map(e).remove(e[i].0@),
{
    let e2 = e.remove(i);
    let k0 = e[i].0@;
    let m1 = entries_map(e);
    let m2 = entries_map(e2);
    assert(keys_of(e)[i] == k0);
    assert forall|k: Seq<char>| #[trigger] m2.contains_key(k) <==> m1.remove(k0).contains_key(k) by {
        if keys_of(e2).contains(k) {
            let j2 = choose|j: int| 0 <= j < keys_of(e2).len() && keys_of(e2)[j] == k;
            let j = if j2 < i { j2 } else { j2 + 1 };
            assert(keys_of(e)[j] == k);
            lemma_sorted_distinct(keys_of(e), i, j);
        }
        if keys_of(e).contains(k) && k != k0 {
            let j = choose|j: int| 0 <= j < keys_of(e).len() && keys_of(e)[j] == k;
            assert(j != i);
            let j2 = if j < i { j } else { j - 1 };
            assert(keys_of(e2)[j2] == k);
        }
    }
    assert forall|k: Seq<char>| m2.contains_key(k) implies #[trigger] m2[k] == m1.remove(k0)[k] by {
        let j2 = choose|j: int| 0 <= j < keys_of(e2).len() && keys_of(e2)[j] == k;
        lemma_entry_at(e2, j2);
        let j = if j2 < i { j2 } else { j2 + 1 };
        assert(e2[j2] == e[j]);
        lemma_entry_at(e, j);
    }
    assert(m2 =~= m1.remove(k0));
}

/// Reading a key right after storing it gives back the stored value, and
/// storing never disturbs other keys.
pub proof fn lemma_read_after_write<V>(before: Map<Seq<char>, V>, after: Map<Seq<char>, V>, k: Seq<char>, v: V, other: Seq<char>)
    requires
        after == before.insert(k, v),
    ensures
        after.contains_key(k),
        after[k] == v,
        other != k ==> (after.contains_key(other) == before.contains_key(other)),
        other != k && before.contains_key(other) ==> after[other] == before[other],
{
}

} // verus!
