//! A map from strings to values, kept as a list of entries with distinct keys.
use vstd::prelude::*;

use crate::deep_clone::DeepClone;
use crate::ordering::str_eq;

verus! {

/// No two entries share a key.
pub open spec fn unique_string_keys<V>(s: Seq<(String, V)>) -> bool {
    forall|i: int, j: int| #![trigger s[i], s[j]] 0 <= i < j < s.len() ==> s[i].0@ != s[j].0@
}

/// The map that a list of entries stands for; a later entry overrides an earlier one.
pub open spec fn entries_map<V>(s: Seq<(String, V)>) -> Map<Seq<char>, V>
    decreases s.len(),
{
    if s.len() == 0 {
        Map::empty()
    } else {
        entries_map(s.drop_last()).insert(s.last().0@, s.last().1)
    }
}

/// The entries after `insert(k, v)`: the entry with key `k` gets value `v` in
/// place, or a new entry is added at the end.
pub open spec fn entries_insert<V>(s: Seq<(String, V)>, k: String, v: V) -> Seq<(String, V)> {
    if exists|i: int| 0 <= i < s.len() && #[trigger] s[i].0@ == k@ {
        let i = choose|i: int| 0 <= i < s.len() && #[trigger] s[i].0@ == k@;
        s.update(i, (s[i].0, v))
    } else {
        s.push((k, v))
    }
}

/// What a list of entries with distinct keys stands for: exactly its keys, each
/// with its value.
pub proof fn lemma_entries_map<V>(s: Seq<(String, V)>)
    requires
        unique_string_keys(s),
    ensures
        forall|i: int|
            0 <= i < s.len() ==> #[trigger] entries_map(s).contains_key(s[i].0@) && entries_map(
                s,
            )[s[i].0@] == s[i].1,
        forall|k: Seq<char>|
            entries_map(s).contains_key(k) <==> exists|i: int|
                0 <= i < s.len() && #[trigger] s[i].0@ == k,
        entries_map(s).dom().finite(),
        entries_map(s).len() == s.len(),
    decreases s.len(),
{
    if s.len() > 0 {
        let s0 = s.drop_last();
        assert(unique_string_keys(s0)) by {
            assert forall|i: int, j: int| #![trigger s0[i], s0[j]] 0 <= i < j < s0.len() implies s0[i].0@
                != s0[j].0@ by {
                assert(s0[i] == s[i] && s0[j] == s[j]);
            }
        }
        lemma_entries_map(s0);
        let m0 = entries_map(s0);
        let last = s.last();
        assert(!m0.contains_key(last.0@)) by {
            if m0.contains_key(last.0@) {
                let i = choose|i: int| 0 <= i < s0.len() && #[trigger] s0[i].0@ == last.0@;
                assert(s[i] == s0[i]);
                assert(s[i].0@ != s[s.len() - 1].0@);
            }
        }
        assert forall|i: int|
            0 <= i < s.len() implies #[trigger] entries_map(s).contains_key(s[i].0@) && entries_map(
            s,
        )[s[i].0@] == s[i].1 by {
            if i < s.len() - 1 {
                assert(s[i] == s0[i]);
                assert(s[i].0@ != s[s.len() - 1].0@);
            }
        }
        assert forall|k: Seq<char>|
            entries_map(s).contains_key(k) implies exists|i: int|
                0 <= i < s.len() && #[trigger] s[i].0@ == k by {
            if k == last.0@ {
                assert(s[s.len() - 1].0@ == k);
            } else {
                let i = choose|i: int| 0 <= i < s0.len() && #[trigger] s0[i].0@ == k;
                assert(s[i] == s0[i]);
            }
        }
        assert forall|k: Seq<char>|
            (exists|i: int| 0 <= i < s.len() && #[trigger] s[i].0@ == k) implies entries_map(
            s,
        ).contains_key(k) by {
            let i = choose|i: int| 0 <= i < s.len() && #[trigger] s[i].0@ == k;
            if i < s.len() - 1 {
                assert(s[i] == s0[i]);
            }
        }
    } else {
        assert(entries_map(s).dom() =~= Set::empty());
    }
}

/// A map from strings to values. Its entries keep the order in which their keys
/// were first inserted.
#[derive(Debug)]
pub struct StringMap<V> {
    entries: Vec<(String, V)>,
}

impl<V> StringMap<V> {
    #[verifier::type_invariant]
    spec fn keys_unique(self) -> bool {
        unique_string_keys(self.entries@)
    }

    /// The entries, in order.
    pub closed spec fn spec_entries(&self) -> Seq<(String, V)> {
        self.entries@
    }

    pub fn new() -> (r: Self)
        ensures
            r.spec_entries() == Seq::<(String, V)>::empty(),
            r@ == Map::<Seq<char>, V>::empty(),
    {
        StringMap { entries: Vec::new() }
    }

    /// The entries, in order; their keys are distinct.
    pub fn entries(&self) -> (r: &Vec<(String, V)>)
        ensures
            r@ == self.spec_entries(),
            unique_string_keys(r@),
    {
        proof {
            use_type_invariant(self);
        }
        &self.entries
    }

    /// The entries, in order, taken out of the map.
    pub fn into_entries(self) -> (r: Vec<(String, V)>)
        ensures
            r@ == self.spec_entries(),
            unique_string_keys(r@),
    {
        proof {
            use_type_invariant(&self);
        }
        self.entries
    }

    pub fn len(&self) -> (r: usize)
        ensures
            r == self.spec_entries().len(),
            r == self@.len(),
    {
        proof {
            use_type_invariant(self);
            lemma_entries_map(self.entries@);
        }
        self.entries.len()
    }

    pub fn is_empty(&self) -> (r: bool)
        ensures
            r == (self.spec_entries().len() == 0),
            r == (self@.len() == 0),
    {
        self.len() == 0
    }

    /// The position of the entry with key `k`, if there is one.
    fn position(&self, k: &str) -> (r: Option<usize>)
        ensures
            match r {
                Some(i) => i < self.spec_entries().len() && self.spec_entries()[i as int].0@ == k@,
                None => forall|i: int|
                    0 <= i < self.spec_entries().len() ==> #[trigger] self.spec_entries()[i].0@
                        != k@,
            },
    {
        let mut i: usize = 0;
        while i < self.entries.len()
            invariant
                i <= self.entries@.len(),
                forall|j: int| 0 <= j < i ==> #[trigger] self.entries@[j].0@ != k@,
            decreases self.entries@.len() - i,
        {
            if str_eq(self.entries[i].0.as_str(), k) {
                return Some(i);
            }
            i = i + 1;
        }
        None
    }

    pub fn contains_key(&self, k: &str) -> (r: bool)
        ensures
            r == self@.contains_key(k@),
    {
        proof {
            use_type_invariant(self);
            lemma_entries_map(self.entries@);
        }
        self.position(k).is_some()
    }

    pub fn get(&self, k: &str) -> (r: Option<&V>)
        ensures
            match r {
                Some(v) => self@.contains_key(k@) && *v == self@[k@],
                None => !self@.contains_key(k@),
            },
    {
        proof {
            use_type_invariant(self);
            lemma_entries_map(self.entries@);
        }
        match self.position(k) {
            Some(i) => {
                proof {
                    assert(entries_map(self.entries@).contains_key(self.entries@[i as int].0@));
                }
                Some(&self.entries[i].1)
            },
            None => None,
        }
    }

    /// Sets the value of key `k` to `v`, and returns the value it had, if any.
    pub fn insert(&mut self, k: String, v: V) -> (r: Option<V>)
        ensures
            final(self)@ == old(self)@.insert(k@, v),
            final(self).spec_entries() == entries_insert(old(self).spec_entries(), k, v),
            match r {
                Some(w) => old(self)@.contains_key(k@) && w == old(self)@[k@],
                None => !old(self)@.contains_key(k@),
            },
    {
        proof {
            use_type_invariant(&*self);
            lemma_entries_map(self.entries@);
        }
        let ghost s = self.entries@;
        let pos = self.position(k.as_str());
        assert(s == self.spec_entries());
        assert(pos is None ==> forall|j: int| 0 <= j < s.len() ==> #[trigger] s[j].0@ != k@);
        let mut entries: Vec<(String, V)> = Vec::new();
        std::mem::swap(&mut entries, &mut self.entries);
        match pos {
            Some(i) => {
                let (key, old) = entries.remove(i);
                entries.insert(i, (key, v));
                proof {
                    let t = s.update(i as int, (s[i as int].0, v));
                    assert(entries@ =~= t);
                    assert(s[i as int].0@ == k@);
                    assert(unique_string_keys(t)) by {
                        assert forall|a: int, b: int| #![trigger t[a], t[b]] 0 <= a < b < t.len() implies t[a].0@
                            != t[b].0@ by {
                            assert(t[a].0 == s[a].0 && t[b].0 == s[b].0);
                        }
                    }
                    let j = choose|j: int| 0 <= j < s.len() && #[trigger] s[j].0@ == k@;
                    assert(j == i);
                    lemma_entries_map(t);
                    assert(entries_map(t) =~= entries_map(s).insert(k@, v)) by {
                        assert forall|key: Seq<char>| #[trigger]
                            entries_map(t).contains_key(key) implies entries_map(s).insert(
                            k@,
                            v,
                        ).contains_key(key) by {
                            let a = choose|a: int| 0 <= a < t.len() && #[trigger] t[a].0@ == key;
                            assert(t[a].0 == s[a].0);
                        }
                        assert forall|key: Seq<char>| #[trigger]
                            entries_map(s).insert(k@, v).contains_key(key) implies entries_map(
                            t,
                        ).contains_key(key) && entries_map(t)[key] == entries_map(s).insert(
                            k@,
                            v,
                        )[key] by {
                            if key != k@ {
                                let a = choose|a: int| 0 <= a < s.len() && #[trigger] s[a].0@ == key;
                                assert(t[a] == s[a]);
                            } else {
                                assert(t[i as int].0@ == key);
                            }
                        }
                    }
                    assert(old == s[i as int].1);
                }
                self.entries = entries;
                Some(old)
            },
            None => {
                let ghost t = s.push((k, v));
                let ghost kv = k@;
                entries.push((k, v));
                proof {
                    assert(entries@ == t);
                    assert(t[t.len() - 1].0@ == kv);
                    assert(forall|j: int| 0 <= j < s.len() ==> #[trigger] s[j].0@ != kv);
                    assert(unique_string_keys(t)) by {
                        assert forall|a: int, b: int| #![trigger t[a], t[b]] 0 <= a < b < t.len() implies t[a].0@
                            != t[b].0@ by {
                            assert(t[a] == s[a]);
                            if b < s.len() {
                                assert(t[b] == s[b]);
                            } else {
                                assert(s[a].0@ != kv);
                            }
                        }
                    }
                    assert(t.drop_last() =~= s);
                    assert(!(exists|j: int| 0 <= j < s.len() && #[trigger] s[j].0@ == kv));
                }
                self.entries = entries;
                None
            },
        }
    }

    /// Removes the entry with key `k`, if there is one, and returns its value.
    /// The other entries keep their order.
    pub fn remove(&mut self, k: &str) -> (r: Option<V>)
        ensures
            final(self)@ == old(self)@.remove(k@),
            match r {
                Some(w) => old(self)@.contains_key(k@) && w == old(self)@[k@],
                None => !old(self)@.contains_key(k@),
            },
    {
        proof {
            use_type_invariant(&*self);
            lemma_entries_map(self.entries@);
        }
        let ghost s = self.entries@;
        let pos = self.position(k);
        assert(s == self.spec_entries());
        match pos {
            Some(i) => {
                let mut entries: Vec<(String, V)> = Vec::new();
                std::mem::swap(&mut entries, &mut self.entries);
                let (_key, old) = entries.remove(i);
                proof {
                    let t = s.remove(i as int);
                    assert(entries@ == t);
                    assert(forall|a: int| 0 <= a < t.len() ==> #[trigger] t[a] == s[if a < i {
                        a
                    } else {
                        a + 1
                    }]);
                    assert(unique_string_keys(t)) by {
                        assert forall|a: int, b: int| #![trigger t[a], t[b]] 0 <= a < b < t.len() implies t[a].0@
                            != t[b].0@ by {
                            let a2 = if a < i { a } else { a + 1 };
                            let b2 = if b < i { b } else { b + 1 };
                            assert(t[a] == s[a2] && t[b] == s[b2]);
                        }
                    }
                    lemma_entries_map(t);
                    assert(entries_map(t) =~= entries_map(s).remove(k@)) by {
                        assert forall|key: Seq<char>| #[trigger]
                            entries_map(t).contains_key(key) implies entries_map(s).remove(
                            k@,
                        ).contains_key(key) && entries_map(t)[key] == entries_map(s)[key] by {
                            let a = choose|a: int| 0 <= a < t.len() && #[trigger] t[a].0@ == key;
                            let a2 = if a < i { a } else { a + 1 };
                            assert(t[a] == s[a2]);
                            assert(s[a2].0@ != s[i as int].0@);
                        }
                        assert forall|key: Seq<char>| #[trigger]
                            entries_map(s).remove(k@).contains_key(key) implies entries_map(
                            t,
                        ).contains_key(key) by {
                            let a = choose|a: int| 0 <= a < s.len() && #[trigger] s[a].0@ == key;
                            assert(a != i);
                            let a1 = if a < i { a } else { a - 1 };
                            assert(t[a1] == s[a]);
                        }
                    }
                }
                self.entries = entries;
                Some(old)
            },
            None => {
                proof {
                    assert(self@.remove(k@) =~= self@);
                }
                None
            },
        }
    }
}

/// The texts of a map whose values are strings.
pub open spec fn text_map(m: Map<Seq<char>, String>) -> Map<Seq<char>, Seq<char>> {
    m.map_values(|v: String| v@)
}

impl StringMap<String> {
    /// Whether both maps hold the same keys, each with the same text.
    pub fn same_texts(&self, other: &Self) -> (r: bool)
        ensures
            r == (text_map(self@) == text_map(other@)),
    {
        proof {
            use_type_invariant(self);
            use_type_invariant(other);
            lemma_entries_map(self.entries@);
            lemma_entries_map(other.entries@);
        }
        let a = &self.entries;
        let mut i: usize = 0;
        while i < a.len()
            invariant
                i <= a@.len(),
                a@ == self.spec_entries(),
                unique_string_keys(a@),
                forall|j: int|
                    0 <= j < i ==> #[trigger] other@.contains_key(a@[j].0@) && other@[a@[j].0@]@
                        == a@[j].1@,
            decreases a@.len() - i,
        {
            match other.get(a[i].0.as_str()) {
                Some(w) => {
                    if !str_eq(w.as_str(), a[i].1.as_str()) {
                        proof {
                            lemma_entries_map(a@);
                            assert(self@[a@[i as int].0@] == a@[i as int].1);
                            assert(text_map(self@)[a@[i as int].0@] != text_map(other@)[a@[
                                i as int
                            ].0@]);
                        }
                        return false;
                    }
                },
                None => {
                    proof {
                        lemma_entries_map(a@);
                        assert(self@.contains_key(a@[i as int].0@));
                        assert(text_map(self@).dom().contains(a@[i as int].0@));
                        assert(!text_map(other@).dom().contains(a@[i as int].0@));
                    }
                    return false;
                },
            }
            i = i + 1;
        }
        let b = &other.entries;
        let mut j: usize = 0;
        while j < b.len()
            invariant
                j <= b@.len(),
                b@ == other.spec_entries(),
                unique_string_keys(b@),
                forall|m: int| 0 <= m < j ==> #[trigger] self@.contains_key(b@[m].0@),
            decreases b@.len() - j,
        {
            if !self.contains_key(b[j].0.as_str()) {
                proof {
                    lemma_entries_map(b@);
                    assert(other@.contains_key(b@[j as int].0@));
                    assert(text_map(other@).dom().contains(b@[j as int].0@));
                    assert(!text_map(self@).dom().contains(b@[j as int].0@));
                }
                return false;
            }
            j = j + 1;
        }
        proof {
            assert forall|k: Seq<char>| self@.contains_key(k) <==> other@.contains_key(k) by {
                if self@.contains_key(k) {
                    let m = choose|m: int| 0 <= m < a@.len() && #[trigger] a@[m].0@ == k;
                    assert(other@.contains_key(a@[m].0@));
                }
                if other@.contains_key(k) {
                    let m = choose|m: int| 0 <= m < b@.len() && #[trigger] b@[m].0@ == k;
                    assert(self@.contains_key(b@[m].0@));
                }
            }
            assert forall|k: Seq<char>| #[trigger] self@.contains_key(k) implies self@[k]@ == other@[
                k
            ]@ by {
                let m = choose|m: int| 0 <= m < a@.len() && #[trigger] a@[m].0@ == k;
                assert(other@[a@[m].0@]@ == a@[m].1@);
            }
            assert(text_map(self@) =~= text_map(other@));
        }
        true
    }
}

impl<V> View for StringMap<V> {
    type V = Map<Seq<char>, V>;

    open spec fn view(&self) -> Map<Seq<char>, V> {
        entries_map(self.spec_entries())
    }
}

impl<V: DeepView> DeepView for StringMap<V> {
    type V = Seq<(Seq<char>, V::V)>;

    open spec fn deep_view(&self) -> Seq<(Seq<char>, V::V)> {
        Seq::new(self.spec_entries().len(), |i: int| self.spec_entries()[i].deep_view())
    }
}

impl<V: DeepClone> DeepClone for StringMap<V> {
    fn deep_clone(&self) -> (r: Self) {
        proof {
            use_type_invariant(self);
        }
        let entries = self.entries.deep_clone();
        proof {
            assert(entries.deep_view().len() == entries@.len());
            assert(self.entries.deep_view().len() == self.entries@.len());
            assert forall|a: int, b: int| #![trigger entries@[a], entries@[b]] 0 <= a < b
                < entries@.len() implies entries@[a].0@ != entries@[b].0@ by {
                assert(entries.deep_view()[a] == self.entries.deep_view()[a]);
                assert(entries.deep_view()[b] == self.entries.deep_view()[b]);
                assert(entries.deep_view()[a].0 == entries@[a].0@);
                assert(entries.deep_view()[b].0 == entries@[b].0@);
                assert(self.entries.deep_view()[a].0 == self.entries@[a].0@);
                assert(self.entries.deep_view()[b].0 == self.entries@[b].0@);
                assert(self.entries@[a].0@ != self.entries@[b].0@);
            }
        }
        let r = StringMap { entries };
        assert(r.deep_view() =~= self.deep_view()) by {
            assert forall|i: int| 0 <= i < r.spec_entries().len() implies r.deep_view()[i]
                == self.deep_view()[i] by {
                assert(r.entries.deep_view()[i] == self.entries.deep_view()[i]);
            }
        }
        r
    }
}

impl<V: DeepClone> Clone for StringMap<V> {
    fn clone(&self) -> (r: Self)
        ensures
            r.deep_view() == self.deep_view(),
    {
        self.deep_clone()
    }
}

} // verus!
