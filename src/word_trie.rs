//! A mutable word trie, keyed by characters, for dictionaries loaded from JSON and for the
//! personal vocabulary.

use crate::binary_trie::{capped, results_view};
use crate::dyntrie::{keyed_at, keyed_view, DynTrieNode};
use crate::text::{chars_of, string_of};
use vstd::prelude::*;

verus! {

/// Frequencies above 255 rank like 255: every score threshold lies below it.
pub open spec fn stored_freq(f: u32) -> u8 {
    if f > 255 { 255 } else { f as u8 }
}

/// The keyed nodes as (word, ranking frequency) pairs.
pub open spec fn hit_view(d: DynTrieNode<u32>, ks: Seq<(Seq<char>, int)>) -> Seq<(Seq<char>, u8)> {
    ks.map_values(
        |x: (Seq<char>, int)|
            (
                x.0,
                stored_freq(
                    if 0 <= x.1 < d.value_seq().len() {
                        match d.value_seq()[x.1] {
                            Some(f) => f,
                            None => 0,
                        }
                    } else {
                        0
                    },
                ),
            ),
    )
}

/// A mutable trie from words to frequencies.
pub struct TrieNode {
    trie: DynTrieNode<u32>,
}

impl TrieNode {
    pub closed spec fn inner(&self) -> DynTrieNode<u32> {
        self.trie
    }

    pub open spec fn wf(&self) -> bool {
        self.inner().wf()
    }

    /// The frequency stored for `word`, if any.
    pub open spec fn freq_of(&self, word: Seq<char>) -> Option<u32> {
        match self.inner().path(0, word) {
            Some(k) => self.inner().value_seq()[k],
            None => None,
        }
    }

    /// The trie holds nothing: a bare root.
    pub open spec fn is_bare(&self) -> bool {
        &&& self.inner().value_seq() == seq![None::<u32>]
        &&& self.inner().edge_seq().len() == 0
    }

    /// The words under the node `prefix` reaches, with their ranking frequencies, at most
    /// `limit`, depth first.
    pub open spec fn hits(&self, prefix: Seq<char>, limit: nat) -> Seq<(Seq<char>, u8)> {
        match self.inner().path(0, prefix) {
            Some(i) => capped(Seq::empty(), hit_view(self.inner(), keyed_at(self.inner(), i, prefix)), limit),
            None => Seq::empty(),
        }
    }

    pub fn new() -> (r: Self)
        ensures
            r.wf(),
            r.is_bare(),
    {
        let trie = DynTrieNode::new();
        assert(trie.value_seq() =~= seq![None::<u32>]);
        TrieNode { trie }
    }

    /// Stores `word` with `freq`; an empty word or a zero frequency is ignored.
    pub fn insert(&mut self, word: &str, freq: u32)
        requires
            old(self).wf(),
        ensures
            final(self).wf(),
            word@.len() == 0 || freq == 0 ==> *final(self) == *old(self),
            word@.len() > 0 && freq > 0 ==> final(self).freq_of(word@) == Some(freq),
            word@.len() > 0 && freq > 0 ==> forall|w: Seq<char>|
                #![trigger final(self).freq_of(w)]
                old(self).inner().path(0, w) is Some && final(self).inner().path(0, w)
                    != final(self).inner().path(0, word@) ==> final(self).freq_of(w) == old(
                    self,
                ).freq_of(w),
    {
        let v = chars_of(word);
        if v.len() == 0 || freq == 0 {
            return;
        }
        let node = self.trie.get_or_insert(0, &v, freq);
        let ghost mid = self.trie;
        self.trie.set_value(node, freq);
        proof {
            crate::dyntrie::lemma_path_kept(mid, self.trie, 0, word@);
            assert forall|w: Seq<char>|
                old(self).inner().path(0, w) is Some && self.inner().path(0, w) != self.inner().path(
                    0,
                    word@,
                ) implies #[trigger] self.freq_of(w) == old(self).freq_of(w) by {
                crate::dyntrie::lemma_path_kept(mid, self.trie, 0, w);
                crate::dyntrie::lemma_path_in_bounds(old(self).trie, 0, w);
                let k = old(self).trie.path(0, w)->0;
                assert(mid.value_seq()[k] == old(self).trie.value_seq()[k]);
            }
        }
    }

    /// The node reached by `prefix`, if any.
    pub fn search_prefix(&self, prefix: &str) -> (r: Option<usize>)
        requires
            self.wf(),
        ensures
            r is Some <==> self.inner().path(0, prefix@) is Some,
            r matches Some(i) ==> self.inner().path(0, prefix@) == Some(i as int),
    {
        let v = chars_of(prefix);
        self.trie.get(0, &v)
    }

    /// The words under the node `prefix` reaches, at most `limit`, depth first.
    pub fn collect_words(&self, prefix: &str, limit: usize) -> (r: Vec<(String, u8)>)
        requires
            self.wf(),
        ensures
            results_view(r@) == self.hits(prefix@, limit as nat),
    {
        let pv = chars_of(prefix);
        let mut out: Vec<(String, u8)> = Vec::new();
        match self.trie.get(0, &pv) {
            None => {
                assert(results_view(out@) =~= Seq::<(Seq<char>, u8)>::empty());
                out
            },
            Some(node) => {
                let ks = self.trie.entries_under(node, &pv);
                let ghost all = hit_view(self.trie, keyed_view(ks@));
                let n = if ks.len() < limit { ks.len() } else { limit };
                let mut i: usize = 0;
                while i < n
                    invariant
                        self.wf(),
                        n <= ks@.len(),
                        i <= n,
                        all == hit_view(self.trie, keyed_view(ks@)),
                        results_view(out@) == all.subrange(0, i as int),
                    decreases n - i,
                {
                    let (word, k) = (&ks[i].0, ks[i].1);
                    let f: u32 = if k < self.trie.node_count() {
                        match self.trie.value(k) {
                            Some(f) => *f,
                            None => 0,
                        }
                    } else {
                        0
                    };
                    proof {
                        assert(keyed_view(ks@)[i as int] == (word@, k as int));
                    }
                    let g: u8 = if f > 255 { 255 } else { f as u8 };
                    let ghost before = results_view(out@);
                    let s = string_of(word);
                    out.push((s, g));
                    assert(results_view(out@) =~= before.push((word@, g)));
                    assert(results_view(out@) =~= all.subrange(0, i as int + 1));
                    i += 1;
                }
                assert(capped(Seq::<(Seq<char>, u8)>::empty(), all, limit as nat) =~= all.subrange(0, n as int));
                out
            },
        }
    }
}

impl Default for TrieNode {
    fn default() -> (r: Self)
        ensures
            r.wf(),
            r.is_bare(),
    {
        TrieNode::new()
    }
}

} // verus!
