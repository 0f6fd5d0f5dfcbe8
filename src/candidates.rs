//! A bounded top-K collector of candidates, one entry per text, best first.

use crate::word_map::str_eq;
use vstd::prelude::*;

verus! {

/// A predicted word with a confidence from 0 to 255.
pub struct Candidate {
    pub text: String,
    pub secondary_text: Option<String>,
    pub confidence: u8,
}

pub open spec fn cview(c: Candidate) -> (Seq<char>, u8) {
    (c.text@, c.confidence)
}

pub open spec fn cviews(s: Seq<Candidate>) -> Seq<(Seq<char>, u8)> {
    s.map_values(|c: Candidate| cview(c))
}

pub open spec fn sorted_by_conf(s: Seq<(Seq<char>, u8)>) -> bool {
    forall|i: int, j: int| 0 <= i < j < s.len() ==> (#[trigger] s[i]).1 >= (#[trigger] s[j]).1
}

pub open spec fn unique_texts(s: Seq<(Seq<char>, u8)>) -> bool {
    forall|i: int, j: int| 0 <= i < j < s.len() ==> (#[trigger] s[i]).0 != (#[trigger] s[j]).0
}

/// The confidence of each text in `s`.
pub open spec fn conf_map(s: Seq<(Seq<char>, u8)>) -> Map<Seq<char>, u8> {
    Map::new(
        |t: Seq<char>| exists|i: int| 0 <= i < s.len() && s[i].0 == t,
        |t: Seq<char>| s[choose|i: int| 0 <= i < s.len() && s[i].0 == t].1,
    )
}

/// A confidence in fixed point (10000 for 1.0), clamped to [0, 1] and scaled to 0..255.
pub open spec fn quantize(conf: i64) -> u8 {
    if conf <= 0 {
        0
    } else if conf >= 10000 {
        255
    } else {
        (255 * conf / 10000) as u8
    }
}

proof fn lemma_conf_map_at(s: Seq<(Seq<char>, u8)>, i: int)
    requires
        unique_texts(s),
        0 <= i < s.len(),
    ensures
        conf_map(s).contains_key(s[i].0),
        conf_map(s)[s[i].0] == s[i].1,
{
    let t = s[i].0;
    assert(exists|k: int| 0 <= k < s.len() && s[k].0 == t);
    let k = choose|k: int| 0 <= k < s.len() && s[k].0 == t;
    if k != i {
        if k < i {
            assert(s[k].0 != s[i].0);
        } else {
            assert(s[i].0 != s[k].0);
        }
    }
}

proof fn lemma_conf_map_remove(s: Seq<(Seq<char>, u8)>, i: int)
    requires
        unique_texts(s),
        0 <= i < s.len(),
    ensures
        unique_texts(s.remove(i)),
        conf_map(s.remove(i)) == conf_map(s).remove(s[i].0),
{
    let r = s.remove(i);
    assert forall|a: int, b: int| 0 <= a < b < r.len() implies (#[trigger] r[a]).0 != (#[trigger] r[b]).0 by {
        let oa = if a < i { a } else { a + 1 };
        let ob = if b < i { b } else { b + 1 };
        assert(r[a] == s[oa]);
        assert(r[b] == s[ob]);
    }
    assert forall|t: Seq<char>| conf_map(r).contains_key(t) <==> conf_map(s).remove(s[i].0).contains_key(t) by {
        if conf_map(r).contains_key(t) {
            let k = choose|k: int| 0 <= k < r.len() && r[k].0 == t;
            let ok = if k < i { k } else { k + 1 };
            assert(s[ok].0 == t);
            assert(ok != i);
        }
        if conf_map(s).remove(s[i].0).contains_key(t) {
            let k = choose|k: int| 0 <= k < s.len() && s[k].0 == t;
            assert(k != i);
            let rk = if k < i { k } else { k - 1 };
            assert(r[rk].0 == t);
        }
    }
    assert forall|t: Seq<char>| #[trigger] conf_map(r).contains_key(t) implies conf_map(r)[t] == conf_map(s)[t] by {
        let k = choose|k: int| 0 <= k < r.len() && r[k].0 == t;
        let ok = if k < i { k } else { k + 1 };
        lemma_conf_map_at(r, k);
        lemma_conf_map_at(s, ok);
    }
    assert(conf_map(r) =~= conf_map(s).remove(s[i].0));
}

proof fn lemma_conf_map_insert(s: Seq<(Seq<char>, u8)>, p: int, x: (Seq<char>, u8))
    requires
        unique_texts(s),
        0 <= p <= s.len(),
        !conf_map(s).contains_key(x.0),
    ensures
        unique_texts(s.insert(p, x)),
        conf_map(s.insert(p, x)) == conf_map(s).insert(x.0, x.1),
{
    let r = s.insert(p, x);
    assert forall|k: int| 0 <= k < s.len() implies s[k].0 != x.0 by {
        if s[k].0 == x.0 {
            assert(conf_map(s).contains_key(x.0));
        }
    }
    assert forall|a: int, b: int| 0 <= a < b < r.len() implies (#[trigger] r[a]).0 != (#[trigger] r[b]).0 by {
        if a != p && b != p {
            let oa = if a < p { a } else { a - 1 };
            let ob = if b < p { b } else { b - 1 };
            assert(r[a] == s[oa]);
            assert(r[b] == s[ob]);
        } else if a == p {
            let ob = b - 1;
            assert(r[b] == s[ob]);
        } else {
            assert(r[a] == s[a]);
        }
    }
    assert forall|t: Seq<char>| conf_map(r).contains_key(t) <==> conf_map(s).insert(x.0, x.1).contains_key(t) by {
        if conf_map(r).contains_key(t) {
            let k = choose|k: int| 0 <= k < r.len() && r[k].0 == t;
            if k != p {
                let ok = if k < p { k } else { k - 1 };
                assert(s[ok].0 == t);
            }
        }
        if t == x.0 {
            assert(r[p].0 == t);
        } else if conf_map(s).contains_key(t) {
            let k = choose|k: int| 0 <= k < s.len() && s[k].0 == t;
            let rk = if k < p { k } else { k + 1 };
            assert(r[rk].0 == t);
        }
    }
    assert forall|t: Seq<char>| #[trigger] conf_map(r).contains_key(t) implies conf_map(r)[t] == conf_map(s).insert(x.0, x.1)[t] by {
        let k = choose|k: int| 0 <= k < r.len() && r[k].0 == t;
        lemma_conf_map_at(r, k);
        if k != p {
            let ok = if k < p { k } else { k - 1 };
            assert(r[k] == s[ok]);
            lemma_conf_map_at(s, ok);
        }
    }
    assert(conf_map(r) =~= conf_map(s).insert(x.0, x.1));
}

/// Where an entry of confidence `q` goes: before the first entry below `q`.
pub open spec fn pos_for(s: Seq<(Seq<char>, u8)>, q: u8) -> int
    decreases s.len(),
{
    if s.len() == 0 {
        0
    } else {
        let p = pos_for(s.drop_last(), q);
        if p < s.len() - 1 {
            p
        } else if s.last().1 < q {
            s.len() - 1
        } else {
            s.len() as int
        }
    }
}

proof fn lemma_pos_for(s: Seq<(Seq<char>, u8)>, q: u8)
    ensures
        0 <= pos_for(s, q) <= s.len(),
        forall|k: int| 0 <= k < pos_for(s, q) ==> (#[trigger] s[k]).1 >= q,
        pos_for(s, q) < s.len() ==> s[pos_for(s, q)].1 < q,
    decreases s.len(),
{
    if s.len() > 0 {
        lemma_pos_for(s.drop_last(), q);
        assert forall|k: int| 0 <= k < s.len() - 1 implies s.drop_last()[k] == s[k] by {}
    }
}

/// The first position of text `t`, if any.
pub open spec fn index_of_text(s: Seq<(Seq<char>, u8)>, t: Seq<char>) -> Option<int>
    decreases s.len(),
{
    if s.len() == 0 {
        None
    } else {
        match index_of_text(s.drop_last(), t) {
            Some(i) => Some(i),
            None => if s.last().0 == t { Some(s.len() - 1) } else { None },
        }
    }
}

proof fn lemma_index_of_text(s: Seq<(Seq<char>, u8)>, t: Seq<char>)
    ensures
        index_of_text(s, t) matches Some(i) ==> 0 <= i < s.len() && s[i].0 == t && forall|k: int|
            0 <= k < i ==> (#[trigger] s[k]).0 != t,
        index_of_text(s, t) is None ==> forall|k: int| 0 <= k < s.len() ==> (#[trigger] s[k]).0 != t,
    decreases s.len(),
{
    if s.len() > 0 {
        lemma_index_of_text(s.drop_last(), t);
        assert forall|k: int| 0 <= k < s.len() - 1 implies s.drop_last()[k] == s[k] by {}
    }
}

/// The entries after offering `t` with quantized confidence `q` to a queue of capacity `cap`.
pub open spec fn push_ents(e: Seq<(Seq<char>, u8)>, t: Seq<char>, q: u8, cap: nat) -> Seq<
    (Seq<char>, u8),
> {
    match index_of_text(e, t) {
        Some(i) => if e[i].1 < q {
            let r = e.remove(i);
            r.insert(pos_for(r, q), (t, q))
        } else {
            e
        },
        None => if e.len() < cap {
            e.insert(pos_for(e, q), (t, q))
        } else if e.len() > 0 && e.last().1 < q {
            let r = e.drop_last();
            r.insert(pos_for(r, q), (t, q))
        } else {
            e
        },
    }
}

/// Collects the best candidates, at most `capacity`, one per text.
pub struct CandidateQueue {
    entries: Vec<Candidate>,
    capacity: usize,
}

impl CandidateQueue {
    /// The entries as (text, confidence), best first.
    pub closed spec fn ents(&self) -> Seq<(Seq<char>, u8)> {
        cviews(self.entries@)
    }

    pub closed spec fn cap(&self) -> nat {
        self.capacity as nat
    }

    pub open spec fn wf(&self) -> bool {
        &&& self.cap() >= 1
        &&& self.ents().len() <= self.cap()
        &&& sorted_by_conf(self.ents())
        &&& unique_texts(self.ents())
    }

    /// The confidence held for each text.
    pub open spec fn scores(&self) -> Map<Seq<char>, u8> {
        conf_map(self.ents())
    }

    /// Every entry's text has a score.
    pub proof fn lemma_entries_scored(&self)
        requires
            self.wf(),
        ensures
            forall|i: int| 0 <= i < self.ents().len() ==> self.scores().contains_key(#[trigger] self.ents()[i].0),
    {
        assert forall|i: int| 0 <= i < self.ents().len() implies self.scores().contains_key(#[trigger] self.ents()[i].0) by {
            lemma_conf_map_at(self.ents(), i);
        }
    }

    /// An empty queue holding at most `capacity` entries (at least one).
    pub fn with_capacity(capacity: usize) -> (r: Self)
        ensures
            r.wf(),
            r.ents().len() == 0,
            r.scores() == Map::<Seq<char>, u8>::empty(),
            r.cap() == if capacity == 0 { 1 } else { capacity as nat },
    {
        let capacity = if capacity == 0 { 1 } else { capacity };
        let r = CandidateQueue { entries: Vec::new(), capacity };
        assert(r.ents() =~= Seq::<(Seq<char>, u8)>::empty());
        assert(r.scores() =~= Map::<Seq<char>, u8>::empty());
        r
    }

    fn position_for(&self, conf: u8) -> (r: usize)
        requires
            self.wf(),
        ensures
            r <= self.ents().len(),
            forall|k: int| 0 <= k < r ==> (#[trigger] self.ents()[k]).1 >= conf,
            r < self.ents().len() ==> self.ents()[r as int].1 < conf,
            r == pos_for(self.ents(), conf),
    {
        let mut p: usize = 0;
        while p < self.entries.len() && self.entries[p].confidence >= conf
            invariant
                self.wf(),
                p <= self.ents().len(),
                forall|k: int| 0 <= k < p ==> (#[trigger] self.ents()[k]).1 >= conf,
            decreases self.entries.len() - p,
        {
            p += 1;
        }
        proof {
            lemma_pos_for(self.ents(), conf);
            let f = pos_for(self.ents(), conf);
            if f < p as int {
                assert(self.ents()[f].1 >= conf);
            } else if f > p as int {
                assert(self.ents()[p as int].1 >= conf);
            }
        }
        p
    }

    fn insert_sorted(&mut self, c: Candidate)
        requires
            old(self).wf(),
            !old(self).scores().contains_key(c.text@),
            old(self).ents().len() < old(self).cap(),
        ensures
            final(self).wf(),
            final(self).cap() == old(self).cap(),
            final(self).ents().len() == old(self).ents().len() + 1,
            final(self).scores() == old(self).scores().insert(c.text@, c.confidence),
            final(self).ents() == old(self).ents().insert(
                pos_for(old(self).ents(), c.confidence),
                (c.text@, c.confidence),
            ),
    {
        let p = self.position_for(c.confidence);
        let ghost s = self.ents();
        let ghost x = cview(c);
        self.entries.insert(p, c);
        proof {
            assert(self.ents() =~= s.insert(p as int, x));
            lemma_conf_map_insert(s, p as int, x);
            assert forall|a: int, b: int| 0 <= a < b < self.ents().len() implies (#[trigger] self.ents()[a]).1
                >= (#[trigger] self.ents()[b]).1 by {
                let r = self.ents();
                if a != p as int && b != p as int {
                    let oa = if a < p { a } else { a - 1 };
                    let ob = if b < p { b } else { b - 1 };
                    assert(r[a] == s[oa]);
                    assert(r[b] == s[ob]);
                } else if a == p as int {
                    assert(r[b] == s[b - 1]);
                    assert(s[p as int].1 < x.1);
                    assert(s[p as int].1 >= s[b - 1].1 || b - 1 == p as int);
                } else {
                    assert(r[a] == s[a]);
                }
            }
        }
    }

    /// Offers `text` with confidence `confidence` (fixed point, 10000 for 1.0): a text
    /// already held keeps the higher confidence; a new one is added while there is room,
    /// else it replaces the last entry if it is strictly better.
    pub fn push(&mut self, text: String, confidence: i64)
        requires
            old(self).wf(),
        ensures
            final(self).wf(),
            final(self).cap() == old(self).cap(),
            final(self).ents() == push_ents(old(self).ents(), text@, quantize(confidence), old(self).cap()),
            ({
                let q = quantize(confidence);
                let old_scores = old(self).scores();
                let e = old(self).ents();
                final(self).scores() == if old_scores.contains_key(text@) {
                    old_scores.insert(text@, if old_scores[text@] >= q { old_scores[text@] } else { q })
                } else if e.len() < old(self).cap() {
                    old_scores.insert(text@, q)
                } else if e.last().1 < q {
                    old_scores.remove(e.last().0).insert(text@, q)
                } else {
                    old_scores
                }
            }),
    {
        let q: u8 = if confidence <= 0 {
            0
        } else if confidence >= 10000 {
            255
        } else {
            proof {
                assert(255 * confidence / 10000 < 256) by (nonlinear_arith)
                    requires
                        0 < confidence < 10000,
                ;
                assert(255 * confidence / 10000 >= 0) by (nonlinear_arith)
                    requires
                        0 < confidence < 10000,
                ;
            }
            (255 * confidence / 10000) as u8
        };
        assert(q == quantize(confidence));
        let ghost s = self.ents();
        let mut i: usize = 0;
        while i < self.entries.len()
            invariant
                self.wf(),
                self.ents() == s,
                q == quantize(confidence),
                *self == *old(self),
                i <= s.len(),
                forall|k: int| 0 <= k < i ==> (#[trigger] s[k]).0 != text@,
            decreases self.entries.len() - i,
        {
            if str_eq(self.entries[i].text.as_str(), text.as_str()) {
                proof {
                    assert(s[i as int] == cview(self.entries@[i as int]));
                    assert(s[i as int].0 == text@);
                    assert(s[i as int].1 == self.entries@[i as int].confidence);
                    lemma_conf_map_at(s, i as int);
                    lemma_index_of_text(s, text@);
                    if let Some(f) = index_of_text(s, text@) {
                        if f < i as int {
                            assert(s[f].0 != text@);
                        } else if f > i as int {
                            assert(s[i as int].0 != text@);
                        }
                    } else {
                        assert(s[i as int].0 != text@);
                    }
                    assert(index_of_text(s, text@) == Some(i as int));
                }
                if self.entries[i].confidence < q {
                    let old_c = self.entries.remove(i);
                    proof {
                        assert(old_c.text@ == text@);
                        assert(self.ents() =~= s.remove(i as int));
                        lemma_conf_map_remove(s, i as int);
                        assert forall|a: int, b: int| 0 <= a < b < self.ents().len() implies (#[trigger] self.ents()[a]).1
                            >= (#[trigger] self.ents()[b]).1 by {
                            let oa = if a < i { a } else { a + 1 };
                            let ob = if b < i { b } else { b + 1 };
                            assert(self.ents()[a] == s[oa]);
                            assert(self.ents()[b] == s[ob]);
                        }
                    }
                    self.insert_sorted(Candidate { text: old_c.text, secondary_text: old_c.secondary_text, confidence: q });
                    proof {
                        assert(conf_map(s).remove(text@).insert(text@, q) =~= conf_map(s).insert(text@, q));
                        assert(self.scores() == conf_map(s).insert(text@, q));
                    }
                } else {
                    proof {
                        assert(conf_map(s).insert(text@, conf_map(s)[text@]) =~= conf_map(s));
                        assert(self.scores() == conf_map(s));
                        assert(conf_map(s)[text@] >= q);
                    }
                }
                assert(conf_map(s).contains_key(text@));
                assert(s == old(self).ents());
                return;
            }
            i += 1;
        }
        proof {
            if conf_map(s).contains_key(text@) {
                let k = choose|k: int| 0 <= k < s.len() && s[k].0 == text@;
                assert(s[k].0 != text@);
            }
            lemma_index_of_text(s, text@);
            if let Some(f) = index_of_text(s, text@) {
                assert(s[f].0 != text@);
            }
            assert(index_of_text(s, text@) is None);
        }
        if self.entries.len() < self.capacity {
            self.insert_sorted(Candidate { text, secondary_text: None, confidence: q });
        } else {
            let last = self.entries.len() - 1;
            if self.entries[last].confidence < q {
                let _dropped = self.entries.pop();
                proof {
                    assert(self.ents() =~= s.remove(last as int));
                    assert(s.remove(last as int) =~= s.drop_last());
                    lemma_conf_map_remove(s, last as int);
                    assert forall|a: int, b: int| 0 <= a < b < self.ents().len() implies (#[trigger] self.ents()[a]).1
                        >= (#[trigger] self.ents()[b]).1 by {
                        assert(self.ents()[a] == s[a]);
                        assert(self.ents()[b] == s[b]);
                    }
                    assert(conf_map(s).remove(s.last().0).contains_key(text@) ==> conf_map(s).contains_key(text@));
                }
                self.insert_sorted(Candidate { text, secondary_text: None, confidence: q });
            }
        }
    }

    /// The entries, best first.
    pub fn into_sorted_vec(self) -> (r: Vec<Candidate>)
        requires
            self.wf(),
        ensures
            cviews(r@) == self.ents(),
            r@.len() <= self.cap(),
            sorted_by_conf(cviews(r@)),
            unique_texts(cviews(r@)),
    {
        self.entries
    }
}

} // verus!
