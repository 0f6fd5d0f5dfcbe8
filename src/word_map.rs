//! An insertion-ordered map from words to values, with unique keys.

use vstd::prelude::*;
use vstd::string::*;

verus! {

/// A map from words to values that keeps its keys in order of first insertion.
pub struct WordMap<V> {
    entries: Vec<(String, V)>,
}

/// Whether two strings hold the same characters.
pub fn str_eq(a: &str, b: &str) -> (r: bool)
    ensures
        r == (a@ == b@),
{
    let n = a.unicode_len();
    if n != b.unicode_len() {
        return false;
    }
    let mut i: usize = 0;
    while i < n
        invariant
            n == a@.len() == b@.len(),
            i <= n,
            forall|k: int| 0 <= k < i ==> a@[k] == b@[k],
        decreases n - i,
    {
        if a.get_char(i) != b.get_char(i) {
            return false;
        }
        i += 1;
    }
    assert(a@ =~= b@);
    true
}

impl<V> WordMap<V> {
    /// The keys, in order.
    pub closed spec fn keys(&self) -> Seq<Seq<char>> {
        self.entries@.map_values(|e: (String, V)| e.0@)
    }

    /// The values, in the order of their keys.
    pub closed spec fn vals(&self) -> Seq<V> {
        self.entries@.map_values(|e: (String, V)| e.1)
    }

    /// Keys are distinct and every key has its value.
    pub open spec fn wf(&self) -> bool {
        &&& self.keys().len() == self.vals().len()
        &&& forall|i: int, j: int|
            0 <= i < j < self.keys().len() ==> self.keys()[i] != self.keys()[j]
    }

    /// The position of a key.
    pub open spec fn pos(&self, k: Seq<char>) -> int {
        choose|i: int| 0 <= i < self.keys().len() && self.keys()[i] == k
    }

    pub open spec fn view(&self) -> Map<Seq<char>, V> {
        Map::new(|k: Seq<char>| self.keys().contains(k), |k: Seq<char>| self.vals()[self.pos(k)])
    }

    /// The entry at position `i` is in the map.
    pub proof fn lemma_entry(&self, i: int)
        requires
            self.wf(),
            0 <= i < self.keys().len(),
        ensures
            self@.contains_key(self.keys()[i]),
            self@[self.keys()[i]] == self.vals()[i],
            self.pos(self.keys()[i]) == i,
    {
        assert(self.keys()[i] == self.keys()[i]);
        assert(self.keys().contains(self.keys()[i]));
        let p = self.pos(self.keys()[i]);
        assert(0 <= p < self.keys().len() && self.keys()[p] == self.keys()[i]);
    }

    /// Every key of the map stands at some position.
    pub proof fn lemma_key(&self, k: Seq<char>)
        requires
            self.wf(),
            self@.contains_key(k),
        ensures
            0 <= self.pos(k) < self.keys().len(),
            self.keys()[self.pos(k)] == k,
            self@[k] == self.vals()[self.pos(k)],
    {
    }

    /// The number of keys is the size of the map.
    pub proof fn lemma_len(&self)
        requires
            self.wf(),
        ensures
            self@.dom().finite(),
            self@.dom().len() == self.keys().len(),
    {
        assert(self@.dom() =~= self.keys().to_set());
        self.keys().unique_seq_to_set();
    }

    pub fn new() -> (r: Self)
        ensures
            r.wf(),
            r@ == Map::<Seq<char>, V>::empty(),
            r.keys().len() == 0,
    {
        let r = WordMap { entries: Vec::new() };
        assert(r@ =~= Map::<Seq<char>, V>::empty());
        r
    }

    pub fn len(&self) -> (r: usize)
        ensures
            r == self.keys().len(),
    {
        self.entries.len()
    }

    /// The key at position `i`.
    pub fn key_at(&self, i: usize) -> (r: &String)
        requires
            i < self.keys().len(),
        ensures
            r@ == self.keys()[i as int],
    {
        &self.entries[i].0
    }

    /// The value at position `i`.
    pub fn value_at(&self, i: usize) -> (r: &V)
        requires
            i < self.keys().len(),
        ensures
            *r == self.vals()[i as int],
    {
        &self.entries[i].1
    }

    /// The position of `k`, if it is a key.
    pub fn find(&self, k: &str) -> (r: Option<usize>)
        requires
            self.wf(),
        ensures
            r is None <==> !self@.contains_key(k@),
            r matches Some(i) ==> i < self.keys().len() && self.keys()[i as int] == k@
                && i == self.pos(k@),
    {
        let mut i: usize = 0;
        while i < self.entries.len()
            invariant
                self.wf(),
                i <= self.keys().len(),
                forall|j: int| 0 <= j < i ==> self.keys()[j] != k@,
            decreases self.entries.len() - i,
        {
            if str_eq(self.entries[i].0.as_str(), k) {
                proof {
                    self.lemma_entry(i as int);
                }
                return Some(i);
            }
            i += 1;
        }
        None
    }

    pub fn contains_key(&self, k: &str) -> (r: bool)
        requires
            self.wf(),
        ensures
            r == self@.contains_key(k@),
    {
        self.find(k).is_some()
    }

    pub fn get(&self, k: &str) -> (r: Option<&V>)
        requires
            self.wf(),
        ensures
            r is Some <==> self@.contains_key(k@),
            r matches Some(v) ==> *v == self@[k@],
    {
        match self.find(k) {
            Some(i) => {
                proof {
                    self.lemma_entry(i as int);
                }
                Some(&self.entries[i].1)
            },
            None => None,
        }
    }

    /// Sets the value of `k`; a new key goes after all others.
    pub fn insert(&mut self, k: String, v: V)
        requires
            old(self).wf(),
        ensures
            final(self).wf(),
            final(self)@ == old(self)@.insert(k@, v),
            old(self)@.contains_key(k@) ==> final(self).keys() == old(self).keys(),
            !old(self)@.contains_key(k@) ==> final(self).keys() == old(self).keys().push(k@),
    {
        let ghost k_view = k@;
        match self.find(k.as_str()) {
            Some(i) => {
                self.entries.set(i, (k, v));
                assert(self.keys() =~= old(self).keys());
                assert(self.vals() =~= old(self).vals().update(i as int, v));
                assert forall|key: Seq<char>| #[trigger] self@.contains_key(key) implies
                    self@[key] == old(self)@.insert(k_view, v)[key] by {
                    self.lemma_key(key);
                    if key != k_view {
                        old(self).lemma_key(key);
                    }
                };
                assert(self@ =~= old(self)@.insert(k_view, v));
            },
            None => {
                self.entries.push((k, v));
                assert(self.keys() =~= old(self).keys().push(k_view));
                assert(self.vals() =~= old(self).vals().push(v));
                assert forall|key: Seq<char>| #[trigger] self@.contains_key(key) implies
                    self@[key] == old(self)@.insert(k_view, v)[key] by {
                    self.lemma_key(key);
                    if key != k_view {
                        old(self).lemma_key(key);
                    } else {
                        self.lemma_entry(old(self).keys().len() as int);
                    }
                };
                assert forall|key: Seq<char>| self@.contains_key(key) <==>
                    old(self)@.insert(k_view, v).contains_key(key) by {
                    if key == k_view {
                        assert(self.keys()[old(self).keys().len() as int] == key);
                    }
                    if old(self)@.contains_key(key) {
                        old(self).lemma_key(key);
                        assert(self.keys()[old(self).pos(key)] == key);
                    }
                    if self@.contains_key(key) && key != k_view {
                        self.lemma_key(key);
                        assert(old(self).keys()[self.pos(key)] == key);
                    }
                };
                assert(self@ =~= old(self)@.insert(k_view, v));
            },
        }
    }

    /// Removes `k`, returning its value; the other keys keep their order.
    pub fn remove(&mut self, k: &str) -> (r: Option<V>)
        requires
            old(self).wf(),
        ensures
            final(self).wf(),
            final(self)@ == old(self)@.remove(k@),
            r is Some <==> old(self)@.contains_key(k@),
            r matches Some(v) ==> v == old(self)@[k@],
    {
        match self.find(k) {
            Some(i) => {
                proof {
                    old(self).lemma_entry(i as int);
                }
                let e = self.entries.remove(i);
                assert(self.keys() =~= old(self).keys().remove(i as int));
                assert(self.vals() =~= old(self).vals().remove(i as int));
                assert forall|a: int, b: int| 0 <= a < b < self.keys().len() implies
                    self.keys()[a] != self.keys()[b] by {
                    let oa = if a < i { a } else { a + 1 };
                    let ob = if b < i { b } else { b + 1 };
                    assert(self.keys()[a] == old(self).keys()[oa]);
                    assert(self.keys()[b] == old(self).keys()[ob]);
                };
                assert forall|key: Seq<char>| self@.contains_key(key) <==>
                    old(self)@.remove(k@).contains_key(key) by {
                    if self@.contains_key(key) {
                        self.lemma_key(key);
                        let p = self.pos(key);
                        let op = if p < i { p } else { p + 1 };
                        assert(old(self).keys()[op] == key);
                        old(self).lemma_entry(op);
                    }
                    if old(self)@.remove(k@).contains_key(key) {
                        old(self).lemma_key(key);
                        let op = old(self).pos(key);
                        let p = if op < i { op } else { op - 1 };
                        assert(self.keys()[p] == key);
                    }
                };
                assert forall|key: Seq<char>| #[trigger] self@.contains_key(key) implies
                    self@[key] == old(self)@[key] by {
                    self.lemma_key(key);
                    let p = self.pos(key);
                    let op = if p < i { p } else { p + 1 };
                    assert(old(self).keys()[op] == key);
                    old(self).lemma_entry(op);
                };
                assert(self@ =~= old(self)@.remove(k@));
                Some(e.1)
            },
            None => {
                assert(self@ =~= old(self)@.remove(k@));
                None
            },
        }
    }

    /// Removes every entry.
    pub fn clear(&mut self)
        ensures
            final(self).wf(),
            final(self)@ == Map::<Seq<char>, V>::empty(),
            final(self).keys().len() == 0,
    {
        self.entries = Vec::new();
        assert(self@ =~= Map::<Seq<char>, V>::empty());
    }
}

pub proof fn lemma_push_to_set<T>(s: Seq<T>, x: T)
    ensures
        s.push(x).to_set() == s.to_set().insert(x),
{
    assert forall|y: T| #[trigger] s.push(x).contains(y) == (s.contains(y) || y == x) by {
        if s.push(x).contains(y) {
            let j = choose|j: int| 0 <= j < s.len() + 1 && s.push(x)[j] == y;
            if j < s.len() {
                assert(s[j] == y);
            }
        }
        if s.contains(y) {
            let j = choose|j: int| 0 <= j < s.len() && s[j] == y;
            assert(s.push(x)[j] == y);
        }
        if y == x {
            assert(s.push(x)[s.len() as int] == x);
        }
    }
    assert(s.push(x).to_set() =~= s.to_set().insert(x));
}

/// The texts of a map of strings.
pub open spec fn text_map(m: Map<Seq<char>, String>) -> Map<Seq<char>, Seq<char>> {
    m.map_values(|v: String| v@)
}

/// The map built by filing each pair in turn, a later pair overriding an earlier one.
pub open spec fn pair_map(s: Seq<(Seq<char>, Seq<char>)>) -> Map<Seq<char>, Seq<char>>
    decreases s.len(),
{
    if s.len() == 0 {
        Map::empty()
    } else {
        pair_map(s.drop_last()).insert(s.last().0, s.last().1)
    }
}

pub open spec fn pairs_view(s: Seq<(String, String)>) -> Seq<(Seq<char>, Seq<char>)> {
    s.map_values(|p: (String, String)| (p.0@, p.1@))
}

pub proof fn lemma_text_map_insert(m: Map<Seq<char>, String>, k: Seq<char>, v: String)
    ensures
        text_map(m.insert(k, v)) == text_map(m).insert(k, v@),
{
    assert(text_map(m.insert(k, v)) =~= text_map(m).insert(k, v@));
}

impl WordMap<String> {
    /// The entries as pairs of texts, in order.
    pub closed spec fn text_pairs(&self) -> Seq<(Seq<char>, Seq<char>)> {
        self.entries@.map_values(|e: (String, String)| (e.0@, e.1@))
    }

    /// The entries as pairs, in order.
    pub fn pairs(&self) -> (r: Vec<(String, String)>)
        requires
            self.wf(),
        ensures
            pairs_view(r@) == self.text_pairs(),
            pair_map(pairs_view(r@)) == text_map(self@),
            forall|i: int, j: int|
                0 <= i < j < r@.len() ==> (#[trigger] r@[i]).0@ != (#[trigger] r@[j]).0@,
    {
        let mut out: Vec<(String, String)> = Vec::new();
        let mut i: usize = 0;
        while i < self.entries.len()
            invariant
                self.wf(),
                i <= self.keys().len(),
                out@.len() == i,
                pairs_view(out@) == self.text_pairs().subrange(0, i as int),
                forall|j: int| 0 <= j < i ==> (#[trigger] out@[j]).0@ == self.keys()[j],
                forall|j: int| 0 <= j < i ==> (#[trigger] out@[j]).1@ == self.vals()[j]@,
                pair_map(pairs_view(out@)) == text_map(self@).restrict(
                    self.keys().subrange(0, i as int).to_set(),
                ),
            decreases self.entries.len() - i,
        {
            let k = self.entries[i].0.clone();
            let v = self.entries[i].1.clone();
            let ghost before = out@;
            out.push((k, v));
            proof {
                self.lemma_entry(i as int);
                assert(pairs_view(out@).drop_last() =~= pairs_view(before));
                assert(pairs_view(out@) =~= self.text_pairs().subrange(0, i as int + 1));
                let key_i = self.keys()[i as int];
                assert(pairs_view(out@).last() == (key_i, self.vals()[i as int]@));
                assert(pair_map(pairs_view(out@)) == pair_map(pairs_view(before)).insert(
                    key_i,
                    self.vals()[i as int]@,
                ));
                assert(self.keys().subrange(0, i as int + 1) =~= self.keys().subrange(
                    0,
                    i as int,
                ).push(key_i));
                lemma_push_to_set(self.keys().subrange(0, i as int), key_i);
                assert(self.keys().subrange(0, i as int + 1).to_set() =~= self.keys().subrange(
                    0,
                    i as int,
                ).to_set().insert(key_i));
                assert(text_map(self@)[key_i] == self.vals()[i as int]@);
                assert(pair_map(pairs_view(out@)) =~= text_map(self@).restrict(
                    self.keys().subrange(0, i as int + 1).to_set(),
                ));
            }
            i += 1;
        }
        proof {
            assert(self.keys().subrange(0, i as int) =~= self.keys());
            assert(self.text_pairs().subrange(0, i as int) =~= self.text_pairs());
            assert(text_map(self@).restrict(self.keys().to_set()) =~= text_map(self@));
        }
        out
    }
}

pub open spec fn kv_pairs(keys: Seq<Seq<char>>, vals: Seq<u32>) -> Seq<(Seq<char>, u32)> {
    Seq::new(keys.len(), |i: int| (keys[i], vals[i]))
}

pub open spec fn nested_kv(keys: Seq<Seq<char>>, vals: Seq<WordMap<u32>>) -> Seq<
    (Seq<char>, Seq<(Seq<char>, u32)>),
> {
    Seq::new(keys.len(), |i: int| (keys[i], kv_pairs(vals[i].keys(), vals[i].vals())))
}

impl WordMap<u32> {
    /// The entries as (key, value) pairs, in order.
    pub fn count_pairs(&self) -> (r: Vec<(String, u32)>)
        requires
            self.wf(),
        ensures
            r@.len() == self.keys().len(),
            forall|i: int| 0 <= i < r@.len() ==> (#[trigger] r@[i]).0@ == self.keys()[i] && r@[i].1
                == self.vals()[i],
            crate::json::u32_pairs_view(r@) == kv_pairs(self.keys(), self.vals()),
    {
        let mut out: Vec<(String, u32)> = Vec::new();
        let mut i: usize = 0;
        while i < self.entries.len()
            invariant
                i <= self.keys().len(),
                self.wf(),
                out@.len() == i,
                forall|j: int| 0 <= j < i ==> (#[trigger] out@[j]).0@ == self.keys()[j] && out@[j].1
                    == self.vals()[j],
            decreases self.entries.len() - i,
        {
            out.push((self.entries[i].0.clone(), self.entries[i].1));
            i += 1;
        }
        assert(crate::json::u32_pairs_view(out@) =~= kv_pairs(self.keys(), self.vals()));
        out
    }
}

impl WordMap<WordMap<u32>> {
    /// The entries as (key, follower pairs), in order.
    pub fn nested_pairs(&self) -> (r: Vec<(String, Vec<(String, u32)>)>)
        requires
            self.wf(),
            forall|i: int| 0 <= i < self.vals().len() ==> (#[trigger] self.vals()[i]).wf(),
        ensures
            r@.len() == self.keys().len(),
            forall|i: int| 0 <= i < r@.len() ==> (#[trigger] r@[i]).0@ == self.keys()[i],
            crate::json::nested_u32_view(r@) == nested_kv(self.keys(), self.vals()),
    {
        let mut out: Vec<(String, Vec<(String, u32)>)> = Vec::new();
        let mut i: usize = 0;
        while i < self.entries.len()
            invariant
                i <= self.keys().len(),
                self.wf(),
                forall|j: int| 0 <= j < self.vals().len() ==> (#[trigger] self.vals()[j]).wf(),
                out@.len() == i,
                forall|j: int| 0 <= j < i ==> (#[trigger] out@[j]).0@ == self.keys()[j],
                forall|j: int| 0 <= j < i ==> crate::json::u32_pairs_view((#[trigger] out@[j]).1@)
                    == kv_pairs(self.vals()[j].keys(), self.vals()[j].vals()),
            decreases self.entries.len() - i,
        {
            assert(self.vals()[i as int] == self.entries@[i as int].1);
            let inner = self.entries[i].1.count_pairs();
            out.push((self.entries[i].0.clone(), inner));
            i += 1;
        }
        assert(crate::json::nested_u32_view(out@) =~= nested_kv(self.keys(), self.vals()));
        out
    }
}

} // verus!
