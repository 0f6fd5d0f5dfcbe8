//! The n-gram prediction model: a trie over reversed n-grams whose nodes count training
//! hits and remember when they were last seen.

use crate::candidates::{cviews, push_ents, quantize, sorted_by_conf, unique_texts, Candidate, CandidateQueue};
use crate::dyntrie::{keyed_at, ngram_key, token_views, DynTrieNode, TOKEN_SEPARATOR};
use crate::fuzzy::{char_similarity, similarity};
use crate::scoring::SCALE;
use crate::text::{nfd_chars, nfd_of, string_of};
use crate::version::NgramModelVersion;
use vstd::prelude::*;

verus! {

/// What a trie node knows of its n-gram.
#[derive(Clone, Copy)]
pub struct NgramData {
    /// The model's clock at the last training hit.
    pub time: u64,
    /// The number of training hits.
    pub count: u64,
    pub is_offensive: bool,
    pub is_dictionary_word: bool,
}

pub struct NgramModelMeta {
    pub version: NgramModelVersion,
    pub global_time: u64,
    pub global_count: u64,
    pub sentence_token: String,
}

pub struct NgramModelOptions {
    pub max_candidates: usize,
    pub max_ngram_size: usize,
    pub allow_offensive: bool,
}

pub struct NgramModel {
    pub trie_root: DynTrieNode<NgramData>,
    pub meta: NgramModelMeta,
    pub options: NgramModelOptions,
}

/// How far back the recency window reaches.
pub const TIME_WINDOW: u64 = 300;

/// `x` placed between `lo` and `hi` on an ease-out curve `2x - x²`, in fixed point.
pub open spec fn norm_spec(x: u64, lo: u64, hi: u64) -> int {
    if x <= lo {
        0
    } else if x >= hi {
        SCALE as int
    } else {
        let xn = ((x - lo) * SCALE) / (hi - lo) as int;
        2 * xn - (xn * xn) / (SCALE as int)
    }
}

/// Blend of recency, frequency and history confidences: 0.45, 0.10 and 0.45.
pub open spec fn blend(t: int, c: int, h: int) -> int {
    (45 * t + 10 * c + 45 * h) / 100
}

pub fn norm_weight(x: u64, lo: u64, hi: u64) -> (r: i64)
    ensures
        r == norm_spec(x, lo, hi),
        0 <= r <= SCALE,
{
    if x <= lo {
        return 0;
    }
    if x >= hi {
        return SCALE;
    }
    let num: u128 = ((x - lo) as u128) * 10000u128;
    let xn: u128 = num / ((hi - lo) as u128);
    proof {
        let d: int = (hi - lo) as int;
        let nn: int = num as int;
        let xi: int = xn as int;
        assert(xi < 10000) by (nonlinear_arith)
            requires
                nn == ((x - lo) as int) * 10000,
                xi == nn / d,
                ((x - lo) as int) < d,
                d > 0,
        ;
        assert((xn * xn) / 10000 <= xn) by (nonlinear_arith)
            requires
                xn < 10000,
                xn >= 0,
        ;
        assert(2 * xn - (xn * xn) / 10000 <= 10000) by (nonlinear_arith)
            requires
                xn < 10000,
                xn >= 0,
        ;
    }
    let r = 2 * (xn as i64) - ((xn * xn) / 10000u128) as i64;
    r
}

pub fn calc_confidence(t: i64, c: i64, h: i64) -> (r: i64)
    requires
        0 <= t <= SCALE,
        0 <= c <= SCALE,
        0 <= h <= SCALE,
    ensures
        r == blend(t as int, c as int, h as int),
        0 <= r <= SCALE,
{
    (45 * t + 10 * c + 45 * h) / 100
}

/// The number of n-grams a sentence of `len` tokens trains, n-grams being at most `m` long.
pub open spec fn ngram_total(len: nat, m: nat) -> nat
    decreases len,
{
    if len == 0 {
        0
    } else {
        ngram_total((len - 1) as nat, m) + if len <= m { len } else { m }
    }
}

/// The number of n-grams of sizes 1 to `k` in a run of `len` tokens.
pub open spec fn token_ngram_total(len: nat, k: nat) -> nat
    decreases k,
{
    if k == 0 {
        0
    } else {
        token_ngram_total(len, (k - 1) as nat) + if k <= len { (len - k + 1) as nat } else { 0 }
    }
}

pub open spec fn clock_after(t: u64, n: nat) -> u64 {
    if t + n > u64::MAX { u64::MAX } else { (t + n) as u64 }
}

/// The `k` tokens ending at position `last`, most recent first.
pub open spec fn rev_window(toks: Seq<Seq<char>>, last: int, k: int) -> Seq<Seq<char>> {
    Seq::new(k as nat, |t: int| toks[last - t])
}

/// A copy of the `k` tokens ending at position `last`, most recent first.
pub fn reversed_window(tokens: &Vec<Vec<char>>, last: usize, k: usize) -> (r: Vec<Vec<char>>)
    requires
        last < tokens@.len(),
        k <= last + 1,
    ensures
        token_views(r@) == rev_window(token_views(tokens@), last as int, k as int),
{
    let mut out: Vec<Vec<char>> = Vec::new();
    let mut t: usize = 0;
    while t < k
        invariant
            last < tokens@.len(),
            k <= last + 1,
            t <= k,
            token_views(out@) == rev_window(token_views(tokens@), last as int, t as int),
        decreases k - t,
    {
        let src = &tokens[last - t];
        assert(token_views(tokens@)[last - t] == src@);
        let mut copy: Vec<char> = Vec::new();
        let mut q: usize = 0;
        while q < src.len()
            invariant
                q <= src@.len(),
                copy@ == src@.subrange(0, q as int),
            decreases src.len() - q,
        {
            copy.push(src[q]);
            q += 1;
        }
        assert(src@.subrange(0, q as int) =~= src@);
        let ghost before = token_views(out@);
        let ghost cv = copy@;
        assert(cv == src@);
        out.push(copy);
        assert(token_views(out@) =~= before.push(cv));
        assert(token_views(out@) =~= rev_window(token_views(tokens@), last as int, t as int + 1));
        t += 1;
    }
    out
}

/// Each word decomposed.
pub open spec fn nfd_all(s: Seq<Seq<char>>) -> Seq<Seq<char>> {
    s.map_values(|x: Seq<char>| nfd_of(x))
}

/// The queue's entries after offering each (text, confidence) in turn.
pub open spec fn queue_fold(e: Seq<(Seq<char>, u8)>, pushes: Seq<(Seq<char>, i64)>, cap: nat) -> Seq<
    (Seq<char>, u8),
>
    decreases pushes.len(),
{
    if pushes.len() == 0 {
        e
    } else {
        queue_fold(push_ents(e, pushes[0].0, quantize(pushes[0].1), cap), pushes.drop_first(), cap)
    }
}

impl NgramModel {
    pub open spec fn tmax(&self) -> u64 {
        self.meta.global_time
    }

    pub open spec fn tmin(&self) -> u64 {
        if self.meta.global_time >= TIME_WINDOW { (self.meta.global_time - TIME_WINDOW) as u64 } else { 0 }
    }

    /// The confidences offered for `word` while following history words back from `node`,
    /// `h` steps taken of `depth`.
    pub open spec fn hist_pushes(
        &self,
        word: Seq<char>,
        node: int,
        h: nat,
        depth: nat,
        history: Seq<Seq<char>>,
        tc: int,
        cc: int,
    ) -> Seq<(Seq<char>, i64)>
        decreases depth - h,
    {
        if h >= depth || h >= history.len() {
            Seq::empty()
        } else {
            match self.trie_root.path(node, history[history.len() - h - 1]) {
                None => Seq::empty(),
                Some(hn) => match self.trie_root.value_seq()[hn] {
                    None => Seq::empty(),
                    Some(hv) => {
                        let hist = blend(
                            norm_spec(hv.time, self.tmin(), self.tmax()),
                            norm_spec(hv.count, 0, self.meta.global_count),
                            SCALE as int,
                        );
                        let conf = blend(tc, cc, hist) as i64;
                        seq![(word, conf)] + match self.trie_root.step(hn, TOKEN_SEPARATOR) {
                            None => Seq::empty(),
                            Some(nn) => self.hist_pushes(word, nn, h + 1, depth, history, tc, cc),
                        }
                    },
                },
            }
        }
    }

    /// The confidences offered for the word at `node` after `history`.
    pub open spec fn word_pushes(&self, word: Seq<char>, node: int, history: Seq<Seq<char>>) -> Seq<
        (Seq<char>, i64),
    > {
        match self.trie_root.step(node, TOKEN_SEPARATOR) {
            None => Seq::empty(),
            Some(sep) => match self.trie_root.value_seq()[node] {
                None => Seq::empty(),
                Some(v) => {
                    let m = self.options.max_ngram_size - 1;
                    let depth = if m < history.len() { m as nat } else { history.len() };
                    self.hist_pushes(
                        word,
                        sep,
                        0,
                        depth,
                        history,
                        norm_spec(v.time, self.tmin(), self.tmax()),
                        norm_spec(v.count, 0, self.meta.global_count),
                    )
                },
            },
        }
    }

    /// Whether a word is considered for the current, partly typed word `curr`.
    pub open spec fn gate(&self, word: Seq<char>, curr: Seq<char>) -> bool {
        curr.len() == 0 || (word.len() < 0x2000_0000_0000_0000 && curr.len() < 0x2000_0000_0000_0000 && similarity(word, curr) >= 1)
    }

    /// The queue's entries after scoring each of `words` in turn.
    pub open spec fn words_fold(
        &self,
        e: Seq<(Seq<char>, u8)>,
        words: Seq<(Seq<char>, int)>,
        history: Seq<Seq<char>>,
        curr: Seq<char>,
        cap: nat,
    ) -> Seq<(Seq<char>, u8)>
        decreases words.len(),
    {
        if words.len() == 0 {
            e
        } else {
            let e2 = if self.gate(words[0].0, curr) {
                queue_fold(e, self.word_pushes(words[0].0, words[0].1, history), cap)
            } else {
                e
            };
            self.words_fold(e2, words.drop_first(), history, curr, cap)
        }
    }

    /// The history of a partial sentence: the sentence-start token and all words but the
    /// last, decomposed.
    pub open spec fn history_of(&self, partial: Seq<Seq<char>>) -> Seq<Seq<char>> {
        seq![nfd_of(self.meta.sentence_token@)] + nfd_all(partial.drop_last())
    }

    /// The predictions for a partial sentence, as (text, confidence) entries.
    pub open spec fn predicted(&self, partial: Seq<Seq<char>>) -> Seq<(Seq<char>, u8)> {
        let cap: nat = if self.options.max_candidates == 0 { 1 } else { self.options.max_candidates as nat };
        self.words_fold(
            Seq::empty(),
            keyed_at(self.trie_root, 0, Seq::empty()),
            self.history_of(partial),
            nfd_of(partial.last()),
            cap,
        )
    }

    /// `t` is a word of the trie that began some trained n-gram.
    pub open spec fn predictable(&self, t: Seq<char>) -> bool {
        &&& !t.contains(TOKEN_SEPARATOR)
        &&& self.trie_root.path(0, t) matches Some(k)
        &&& self.trie_root.step(k, TOKEN_SEPARATOR) is Some
    }

    pub open spec fn wf(&self) -> bool {
        &&& self.trie_root.wf()
        &&& self.options.max_ngram_size >= 1
        &&& self.meta.global_time <= u64::MAX
    }

    pub fn new() -> (r: Self)
        ensures
            r.wf(),
            r.meta.global_time == 0,
            r.meta.global_count == 0,
            r.options.max_candidates == 5,
            r.options.max_ngram_size == 3,
            !r.options.allow_offensive,
            r.meta.version == NgramModelVersion::latest_spec(),
            r.meta.sentence_token@ == seq!['\u{0}'],
            r.trie_root.value_seq() == seq![None::<NgramData>],
            r.trie_root.edge_seq().len() == 0,
    {
        let mut start: Vec<char> = Vec::new();
        start.push('\u{0}');
        assert(start@ =~= seq!['\u{0}']);
        let trie_root = DynTrieNode::new();
        assert(trie_root.value_seq() =~= seq![None::<NgramData>]);
        NgramModel {
            trie_root,
            meta: NgramModelMeta {
                version: NgramModelVersion::latest(),
                global_time: 0,
                global_count: 0,
                sentence_token: string_of(&start),
            },
            options: NgramModelOptions { max_candidates: 5, max_ngram_size: 3, allow_offensive: false },
        }
    }

    /// Advances the clock and the hit counter; the new time.
    fn update_and_get_time(&mut self) -> (r: u64)
        requires
            old(self).wf(),
        ensures
            final(self).wf(),
            r == final(self).meta.global_time,
            final(self).meta.global_time == clock_after(old(self).meta.global_time, 1),
            final(self).meta.global_count == clock_after(old(self).meta.global_count, 1),
            final(self).meta.sentence_token == old(self).meta.sentence_token,
            final(self).trie_root == old(self).trie_root,
            final(self).options == old(self).options,
    {
        if self.meta.global_time < u64::MAX {
            self.meta.global_time = self.meta.global_time + 1;
        }
        if self.meta.global_count < u64::MAX {
            self.meta.global_count = self.meta.global_count + 1;
        }
        self.meta.global_time
    }

    /// The hit count stored for `key`, 0 if none.
    pub open spec fn count_at(&self, key: Seq<char>) -> u64 {
        match self.trie_root.path(0, key) {
            Some(k) => match self.trie_root.value_seq()[k] {
                Some(d) => d.count,
                None => 0,
            },
            None => 0,
        }
    }

    /// `key` has been trained: its node holds a value with a hit and a time of the clock.
    pub open spec fn trained(&self, key: Seq<char>) -> bool {
        &&& self.trie_root.path(0, key) matches Some(k)
        &&& self.trie_root.value_seq()[k] matches Some(d)
        &&& d.count >= 1
        &&& 0 < d.time <= self.meta.global_time
    }

    /// Records one hit of `ngram` (tokens from the most recent back): its node gets the new
    /// time and one more count; the clock and the hit counter advance.
    pub fn train_ngram(&mut self, ngram: &Vec<Vec<char>>)
        requires
            old(self).wf(),
        ensures
            final(self).wf(),
            final(self).options == old(self).options,
            final(self).meta.sentence_token == old(self).meta.sentence_token,
            final(self).meta.global_time == clock_after(old(self).meta.global_time, 1),
            final(self).meta.global_count == clock_after(old(self).meta.global_count, 1),
            ({
                let key = ngram_key(token_views(ngram@));
                &&& final(self).trie_root.path(0, key) matches Some(k)
                &&& final(self).trie_root.value_seq()[k] matches Some(d)
                &&& d.time == final(self).meta.global_time
                &&& d.count == clock_after(
                    if k < old(self).trie_root.value_seq().len() {
                        match old(self).trie_root.value_seq()[k] {
                            Some(d0) => d0.count,
                            None => 0,
                        }
                    } else {
                        0
                    },
                    1,
                )
                &&& forall|i: int|
                    0 <= i < old(self).trie_root.value_seq().len() && i != k ==> (
                    #[trigger] final(self).trie_root.value_seq()[i]) == old(
                    self,
                ).trie_root.value_seq()[i]
            }),
            forall|n: int, t: Seq<char>|
                #[trigger] old(self).trie_root.path(n, t) is Some ==> final(self).trie_root.path(n, t)
                    == old(self).trie_root.path(n, t),
            forall|key: Seq<char>| #[trigger] old(self).trained(key) ==> final(self).trained(key),
    {
        let ghost key = ngram_key(token_views(ngram@));
        let fresh = NgramData { time: 0, count: 0, is_offensive: false, is_dictionary_word: false };
        let node = self.trie_root.get_ngram_or_insert(ngram, fresh);
        let ghost mid = self.trie_root;
        let mut data = match self.trie_root.value(node) {
            Some(d) => *d,
            None => fresh,
        };
        assert(data.count == (if (node as int) < old(self).trie_root.value_seq().len() {
            match old(self).trie_root.value_seq()[node as int] {
                Some(d0) => d0.count,
                None => 0,
            }
        } else {
            0
        }));
        let t = self.update_and_get_time();
        data.time = t;
        data.count = if data.count < u64::MAX { data.count + 1 } else { u64::MAX };
        let ghost before = self.trie_root;
        self.trie_root.set_value(node, data);
        proof {
            crate::dyntrie::lemma_path_kept(before, self.trie_root, 0, key);
            assert forall|n: int, t2: Seq<char>|
                #[trigger] old(self).trie_root.path(n, t2) is Some implies self.trie_root.path(n, t2)
                    == old(self).trie_root.path(n, t2) by {
                crate::dyntrie::lemma_path_kept(before, self.trie_root, n, t2);
            }
            assert forall|k2: Seq<char>| #[trigger] old(self).trained(k2) implies self.trained(k2) by {
                let i = old(self).trie_root.path(0, k2)->0;
                crate::dyntrie::lemma_path_in_bounds(old(self).trie_root, 0, k2);
                if i != node as int {
                    assert(mid.value_seq()[i] == old(self).trie_root.value_seq()[i]);
                    assert(self.trie_root.value_seq()[i] == mid.value_seq()[i]);
                }
            }
        }
    }

    fn nfd_tokens(tokens: &[String]) -> (r: Vec<Vec<char>>)
        ensures
            token_views(r@) == nfd_all(crate::scoring::texts(tokens@)),
    {
        let ghost toks = nfd_all(crate::scoring::texts(tokens@));
        let mut nt: Vec<Vec<char>> = Vec::new();
        let mut w: usize = 0;
        while w < tokens.len()
            invariant
                w <= tokens@.len(),
                toks == nfd_all(crate::scoring::texts(tokens@)),
                token_views(nt@) == toks.subrange(0, w as int),
            decreases tokens.len() - w,
        {
            let ghost before = token_views(nt@);
            let t = nfd_chars(tokens[w].as_str());
            nt.push(t);
            assert(crate::scoring::texts(tokens@)[w as int] == tokens@[w as int]@);
            assert(toks[w as int] == t@);
            assert(token_views(nt@) =~= before.push(t@));
            assert(token_views(nt@) =~= toks.subrange(0, w as int + 1));
            w += 1;
        }
        assert(toks.subrange(0, w as int) =~= toks);
        nt
    }

    /// Records one hit of the token path `tokens` (in the given order, decomposed), at the
    /// next tick of the clock.
    pub fn train_input(&mut self, tokens: &[String])
        requires
            old(self).wf(),
        ensures
            final(self).wf(),
            final(self).options == old(self).options,
            final(self).meta.global_time == clock_after(old(self).meta.global_time, 1),
            final(self).meta.global_count == clock_after(old(self).meta.global_count, 1),
            final(self).trained(ngram_key(nfd_all(crate::scoring::texts(tokens@)))),
            forall|key: Seq<char>| #[trigger] old(self).trained(key) ==> final(self).trained(key),
    {
        let ngram = Self::nfd_tokens(tokens);
        self.train_ngram(&ngram);
    }

    /// Records one hit of the token path `tokens` (in the given order, decomposed) from
    /// bulk data: the count grows, while the clock and the node's time stay as they were.
    pub fn train_dataset(&mut self, tokens: &[String])
        requires
            old(self).wf(),
        ensures
            final(self).wf(),
            final(self).options == old(self).options,
            final(self).meta == old(self).meta,
            ({
                let key = ngram_key(nfd_all(crate::scoring::texts(tokens@)));
                &&& final(self).trie_root.path(0, key) matches Some(k)
                &&& final(self).trie_root.value_seq()[k] matches Some(d)
                &&& (if k < old(self).trie_root.value_seq().len() {
                    match old(self).trie_root.value_seq()[k] {
                        Some(d0) => d.count == clock_after(d0.count, 1) && d.time == d0.time,
                        None => d.count == 1 && d.time == 0,
                    }
                } else {
                    d.count == 1 && d.time == 0
                })
                &&& forall|i: int|
                    0 <= i < old(self).trie_root.value_seq().len() && i != k ==> (
                    #[trigger] final(self).trie_root.value_seq()[i]) == old(
                    self,
                ).trie_root.value_seq()[i]
            }),
    {
        let ngram = Self::nfd_tokens(tokens);
        let ghost key = ngram_key(token_views(ngram@));
        let fresh = NgramData { time: 0, count: 0, is_offensive: false, is_dictionary_word: false };
        let node = self.trie_root.get_ngram_or_insert(&ngram, fresh);
        let ghost mid = self.trie_root;
        let mut data = match self.trie_root.value(node) {
            Some(d) => *d,
            None => fresh,
        };
        data.count = if data.count < u64::MAX { data.count + 1 } else { u64::MAX };
        self.trie_root.set_value(node, data);
        proof {
            crate::dyntrie::lemma_path_kept(mid, self.trie_root, 0, key);
            assert forall|i: int|
                0 <= i < old(self).trie_root.value_seq().len() && i != node as int implies
                #[trigger] self.trie_root.value_seq()[i] == old(self).trie_root.value_seq()[i] by {
                assert(mid.value_seq()[i] == old(self).trie_root.value_seq()[i]);
            }
        }
    }

    /// The decomposed tokens of a sentence, after the sentence-start token.
    pub open spec fn sentence_tokens(&self, sentence: Seq<Seq<char>>) -> Seq<Seq<char>> {
        seq![nfd_of(self.meta.sentence_token@)] + nfd_all(sentence)
    }

    /// Trains on a sentence: after the sentence-start token, every n-gram ending at each
    /// word, up to the longest size, reversed.
    pub fn train_from_sentence(&mut self, sentence: &[String])
        requires
            old(self).wf(),
        ensures
            final(self).wf(),
            final(self).options == old(self).options,
            final(self).meta.sentence_token == old(self).meta.sentence_token,
            final(self).meta.global_time == clock_after(
                old(self).meta.global_time,
                ngram_total(sentence@.len() + 1, old(self).options.max_ngram_size as nat),
            ),
            final(self).meta.global_count == clock_after(
                old(self).meta.global_count,
                ngram_total(sentence@.len() + 1, old(self).options.max_ngram_size as nat),
            ),
            ({
                let toks = old(self).sentence_tokens(crate::scoring::texts(sentence@));
                forall|j: int, k: int|
                    0 <= j < toks.len() && 1 <= k <= old(self).options.max_ngram_size && k <= j + 1
                        ==> #[trigger] final(self).trained(ngram_key(rev_window(toks, j, k)))
            }),
            forall|key: Seq<char>| #[trigger] old(self).trained(key) ==> final(self).trained(key),
    {
        let ghost toks = self.sentence_tokens(crate::scoring::texts(sentence@));
        let ghost sv = crate::scoring::texts(sentence@);
        let mut tokens: Vec<Vec<char>> = Vec::new();
        tokens.push(nfd_chars(self.meta.sentence_token.as_str()));
        let mut w: usize = 0;
        while w < sentence.len()
            invariant
                w <= sentence@.len(),
                sv == crate::scoring::texts(sentence@),
                token_views(tokens@) == seq![nfd_of(self.meta.sentence_token@)] + nfd_all(
                    sv.subrange(0, w as int),
                ),
            decreases sentence.len() - w,
        {
            let ghost before = token_views(tokens@);
            let t = nfd_chars(sentence[w].as_str());
            tokens.push(t);
            assert(sv[w as int] == sentence@[w as int]@);
            assert(nfd_all(sv.subrange(0, w as int + 1)) =~= nfd_all(sv.subrange(0, w as int)).push(
                nfd_of(sv[w as int]),
            ));
            assert(token_views(tokens@) =~= before.push(t@));
            w += 1;
        }
        assert(sv.subrange(0, w as int) =~= sv);
        assert(token_views(tokens@) == toks);
        let m = self.options.max_ngram_size;
        let len = tokens.len();
        let mut j: usize = 0;
        while j < len
            invariant
                self.wf(),
                len == tokens@.len(),
                token_views(tokens@) == toks,
                j <= len,
                self.options == old(self).options,
                self.meta.sentence_token == old(self).meta.sentence_token,
                m == self.options.max_ngram_size,
                self.meta.global_time == clock_after(
                    old(self).meta.global_time,
                    ngram_total(j as nat, m as nat),
                ),
                self.meta.global_count == clock_after(
                    old(self).meta.global_count,
                    ngram_total(j as nat, m as nat),
                ),
                forall|j2: int, k: int|
                    0 <= j2 < j && 1 <= k <= m && k <= j2 + 1 ==> #[trigger] self.trained(
                        ngram_key(rev_window(toks, j2, k)),
                    ),
                forall|key: Seq<char>| #[trigger] old(self).trained(key) ==> self.trained(key),
            decreases len - j,
        {
            let top: usize = if m - 1 < j { m - 1 } else { j };
            let mut n: usize = 0;
            let ghost start = self.meta.global_time;
            let ghost start_count = self.meta.global_count;
            while n <= top
                invariant
                    self.wf(),
                    top < len,
                    top <= j,
                    top + 1 <= m,
                    top == (if m - 1 < j { m - 1 } else { j as int }),
                    j < len,
                    len == tokens@.len(),
                    token_views(tokens@) == toks,
                    m == self.options.max_ngram_size,
                    n <= top + 1,
                    self.options == old(self).options,
                    self.meta.sentence_token == old(self).meta.sentence_token,
                    self.meta.global_time == clock_after(start, n as nat),
                    self.meta.global_count == clock_after(start_count, n as nat),
                    forall|j2: int, k: int|
                        0 <= j2 < j && 1 <= k <= m && k <= j2 + 1 ==> #[trigger] self.trained(
                            ngram_key(rev_window(toks, j2, k)),
                        ),
                    forall|k: int| 1 <= k <= n ==> #[trigger] self.trained(
                        ngram_key(rev_window(toks, j as int, k)),
                    ),
                    forall|key: Seq<char>| #[trigger] old(self).trained(key) ==> self.trained(key),
                decreases top + 1 - n,
            {
                let ngram = reversed_window(&tokens, j, n + 1);
                proof {
                    assert(token_views(ngram@) == rev_window(toks, j as int, n as int + 1));
                }
                let ghost before = *self;
                self.train_ngram(&ngram);
                proof {
                    assert forall|j2: int, k: int|
                        0 <= j2 < j && 1 <= k <= m && k <= j2 + 1 implies #[trigger] self.trained(
                            ngram_key(rev_window(toks, j2, k)),
                        ) by {
                        assert(before.trained(ngram_key(rev_window(toks, j2, k))));
                    }
                    assert forall|k: int| 1 <= k <= n + 1 implies #[trigger] self.trained(
                        ngram_key(rev_window(toks, j as int, k)),
                    ) by {
                        if k <= n {
                            assert(before.trained(ngram_key(rev_window(toks, j as int, k))));
                        }
                    }
                    assert forall|key: Seq<char>| #[trigger] old(self).trained(key) implies self.trained(key) by {
                        assert(before.trained(key));
                    }
                }
                n += 1;
            }
            proof {
                assert(ngram_total(j as nat + 1, m as nat) == ngram_total(j as nat, m as nat) + (if j + 1 <= m { j + 1 } else { m as int }));
                assert forall|j2: int, k: int|
                    0 <= j2 < j + 1 && 1 <= k <= m && k <= j2 + 1 implies #[trigger] self.trained(
                        ngram_key(rev_window(toks, j2, k)),
                    ) by {
                    if j2 == j as int {
                        assert(k <= n);
                    }
                }
            }
            j += 1;
        }
    }

    /// Trains on a run of tokens: every n-gram of every size up to the longest, reversed.
    pub fn train_from_tokens(&mut self, tokens: &[String])
        requires
            old(self).wf(),
        ensures
            final(self).wf(),
            final(self).options == old(self).options,
            final(self).meta.sentence_token == old(self).meta.sentence_token,
            final(self).meta.global_time == clock_after(
                old(self).meta.global_time,
                token_ngram_total(tokens@.len(), old(self).options.max_ngram_size as nat),
            ),
            final(self).meta.global_count == clock_after(
                old(self).meta.global_count,
                token_ngram_total(tokens@.len(), old(self).options.max_ngram_size as nat),
            ),
            ({
                let toks = nfd_all(crate::scoring::texts(tokens@));
                forall|n: int, i: int|
                    1 <= n <= old(self).options.max_ngram_size && 0 <= i && i + n <= toks.len()
                        ==> #[trigger] final(self).trained(ngram_key(rev_window(toks, i + n - 1, n)))
            }),
            forall|key: Seq<char>| #[trigger] old(self).trained(key) ==> final(self).trained(key),
    {
        let ghost toks = nfd_all(crate::scoring::texts(tokens@));
        let mut nt: Vec<Vec<char>> = Vec::new();
        let mut w: usize = 0;
        while w < tokens.len()
            invariant
                w <= tokens@.len(),
                toks == nfd_all(crate::scoring::texts(tokens@)),
                token_views(nt@) == toks.subrange(0, w as int),
            decreases tokens.len() - w,
        {
            let ghost before = token_views(nt@);
            let t = nfd_chars(tokens[w].as_str());
            nt.push(t);
            assert(crate::scoring::texts(tokens@)[w as int] == tokens@[w as int]@);
            assert(toks[w as int] == t@);
            assert(token_views(nt@) =~= before.push(t@));
            assert(token_views(nt@) =~= toks.subrange(0, w as int + 1));
            w += 1;
        }
        assert(toks.subrange(0, w as int) =~= toks);
        let m = self.options.max_ngram_size;
        let len = tokens.len();
        let mut k: usize = 0;
        while k < m
            invariant
                self.wf(),
                self.options == old(self).options,
                self.meta.sentence_token == old(self).meta.sentence_token,
                m == self.options.max_ngram_size,
                len == tokens@.len(),
                token_views(nt@) == toks,
                toks.len() == len,
                k <= m,
                self.meta.global_time == clock_after(
                    old(self).meta.global_time,
                    token_ngram_total(len as nat, k as nat),
                ),
                self.meta.global_count == clock_after(
                    old(self).meta.global_count,
                    token_ngram_total(len as nat, k as nat),
                ),
                forall|n2: int, i2: int|
                    1 <= n2 <= k && 0 <= i2 && i2 + n2 <= len ==> #[trigger] self.trained(
                        ngram_key(rev_window(toks, i2 + n2 - 1, n2)),
                    ),
                forall|key: Seq<char>| #[trigger] old(self).trained(key) ==> self.trained(key),
            decreases m - k,
        {
            let n = k + 1;
            let ghost start = self.meta.global_time;
            let ghost start_count = self.meta.global_count;
            if n <= len {
                let mut i: usize = 0;
                while i <= len - n
                    invariant
                        self.wf(),
                        self.options == old(self).options,
                        self.meta.sentence_token == old(self).meta.sentence_token,
                        len == tokens@.len(),
                        token_views(nt@) == toks,
                        toks.len() == len,
                        n == k + 1,
                        1 <= n <= len,
                        i <= len - n + 1,
                        self.meta.global_time == clock_after(start, i as nat),
                        self.meta.global_count == clock_after(start_count, i as nat),
                        forall|n2: int, i2: int|
                            1 <= n2 <= k && 0 <= i2 && i2 + n2 <= len ==> #[trigger] self.trained(
                                ngram_key(rev_window(toks, i2 + n2 - 1, n2)),
                            ),
                        forall|i2: int| 0 <= i2 < i ==> #[trigger] self.trained(
                            ngram_key(rev_window(toks, i2 + n - 1, n as int)),
                        ),
                        forall|key: Seq<char>| #[trigger] old(self).trained(key) ==> self.trained(key),
                    decreases len - n + 1 - i,
                {
                    let ngram = reversed_window(&nt, i + n - 1, n);
                    let ghost before = *self;
                    self.train_ngram(&ngram);
                    proof {
                        assert forall|n2: int, i2: int|
                            1 <= n2 <= k && 0 <= i2 && i2 + n2 <= len implies #[trigger] self.trained(
                                ngram_key(rev_window(toks, i2 + n2 - 1, n2)),
                            ) by {
                            assert(before.trained(ngram_key(rev_window(toks, i2 + n2 - 1, n2))));
                        }
                        assert forall|i2: int| 0 <= i2 < i + 1 implies #[trigger] self.trained(
                            ngram_key(rev_window(toks, i2 + n - 1, n as int)),
                        ) by {
                            if i2 < i {
                                assert(before.trained(ngram_key(rev_window(toks, i2 + n - 1, n as int))));
                            }
                        }
                        assert forall|key: Seq<char>| #[trigger] old(self).trained(key) implies self.trained(key) by {
                            assert(before.trained(key));
                        }
                    }
                    i += 1;
                }
            }
            proof {
                assert(token_ngram_total(len as nat, n as nat) == token_ngram_total(len as nat, k as nat)
                    + (if n <= len { (len - n + 1) as nat } else { 0 }));
                assert forall|n2: int, i2: int|
                    1 <= n2 <= k + 1 && 0 <= i2 && i2 + n2 <= len implies #[trigger] self.trained(
                        ngram_key(rev_window(toks, i2 + n2 - 1, n2)),
                    ) by {
                    if n2 == n as int {
                        assert(i2 < len - n + 1);
                    }
                }
            }
            k += 1;
        }
    }

    /// One step back in the history: offers `word` the confidence of its n-gram with the
    /// history word `h` steps back from the end, and returns the node to continue from.
    fn score_step(
        &self,
        word: &Vec<char>,
        text: &String,
        node: usize,
        h: usize,
        depth: usize,
        history: &Vec<Vec<char>>,
        time_conf: i64,
        count_conf: i64,
        queue: &mut CandidateQueue,
    ) -> (r: Option<usize>)
        requires
            self.wf(),
            node < self.trie_root.value_seq().len(),
            h < depth <= history@.len(),
            0 <= time_conf <= SCALE,
            0 <= count_conf <= SCALE,
            text@ == word@,
            self.predictable(word@),
            old(queue).wf(),
        ensures
            final(queue).wf(),
            final(queue).cap() == old(queue).cap(),
            forall|t: Seq<char>|
                #[trigger] final(queue).scores().contains_key(t) ==> old(queue).scores().contains_key(t)
                    || (t == word@ && self.predictable(t)),
            r matches Some(nn) ==> nn < self.trie_root.value_seq().len(),
            queue_fold(
                old(queue).ents(),
                self.hist_pushes(
                    word@,
                    node as int,
                    h as nat,
                    depth as nat,
                    token_views(history@),
                    time_conf as int,
                    count_conf as int,
                ),
                old(queue).cap(),
            ) == match r {
                Some(nn) => queue_fold(
                    final(queue).ents(),
                    self.hist_pushes(
                        word@,
                        nn as int,
                        h as nat + 1,
                        depth as nat,
                        token_views(history@),
                        time_conf as int,
                        count_conf as int,
                    ),
                    final(queue).cap(),
                ),
                None => final(queue).ents(),
            },
    {
        let ghost hv_all = token_views(history@);
        let hist_word = &history[history.len() - h - 1];
        assert(hv_all[history@.len() - h - 1] == hist_word@);
        let ghost all = self.hist_pushes(word@, node as int, h as nat, depth as nat, hv_all, time_conf as int, count_conf as int);
        let hn = match self.trie_root.get(node, hist_word) {
            Some(k) => k,
            None => {
                assert(all =~= Seq::<(Seq<char>, i64)>::empty());
                return None;
            },
        };
        let hv = match self.trie_root.value(hn) {
            Some(v) => *v,
            None => {
                assert(all =~= Seq::<(Seq<char>, i64)>::empty());
                return None;
            },
        };
        let tmax = self.meta.global_time;
        let tmin = if tmax >= TIME_WINDOW { tmax - TIME_WINDOW } else { 0 };
        let cmax = self.meta.global_count;
        let hist_conf = calc_confidence(
            norm_weight(hv.time, tmin, tmax),
            norm_weight(hv.count, 0, cmax),
            SCALE,
        );
        let conf = calc_confidence(time_conf, count_conf, hist_conf);
        let ghost before = queue.ents();
        queue.push(text.clone(), conf);
        let next = self.trie_root.traverse(hn, TOKEN_SEPARATOR);
        proof {
            let rest = match self.trie_root.step(hn as int, TOKEN_SEPARATOR) {
                None => Seq::<(Seq<char>, i64)>::empty(),
                Some(nn) => self.hist_pushes(word@, nn, h as nat + 1, depth as nat, hv_all, time_conf as int, count_conf as int),
            };
            assert(all == seq![(word@, conf)] + rest);
            assert(all[0] == (word@, conf));
            assert(all.drop_first() =~= rest);
            assert(queue_fold(before, all, queue.cap()) == queue_fold(queue.ents(), rest, queue.cap()));
            if next is None {
                assert(queue_fold(queue.ents(), Seq::<(Seq<char>, i64)>::empty(), queue.cap()) == queue.ents());
            }
        }
        next
    }

    /// Confidences for the word at `word_node` following `history` (most recent last).
    fn score_word(
        &self,
        word: &Vec<char>,
        word_node: usize,
        history: &Vec<Vec<char>>,
        queue: &mut CandidateQueue,
    )
        requires
            self.wf(),
            word_node < self.trie_root.value_seq().len(),
            self.trie_root.path(0, word@) == Some(word_node as int),
            !word@.contains(TOKEN_SEPARATOR),
            old(queue).wf(),
        ensures
            final(queue).wf(),
            final(queue).cap() == old(queue).cap(),
            forall|t: Seq<char>|
                #[trigger] final(queue).scores().contains_key(t) ==> old(queue).scores().contains_key(t)
                    || (t == word@ && self.predictable(t)),
            final(queue).ents() == queue_fold(
                old(queue).ents(),
                self.word_pushes(word@, word_node as int, token_views(history@)),
                old(queue).cap(),
            ),
    {
        let ghost target = queue_fold(
            queue.ents(),
            self.word_pushes(word@, word_node as int, token_views(history@)),
            queue.cap(),
        );
        assert(queue_fold(queue.ents(), Seq::<(Seq<char>, i64)>::empty(), queue.cap()) == queue.ents());
        let sep = match self.trie_root.traverse(word_node, TOKEN_SEPARATOR) {
            Some(s) => s,
            None => {
                return;
            },
        };
        let value = match self.trie_root.value(word_node) {
            Some(v) => *v,
            None => {
                return;
            },
        };
        let tmax = self.meta.global_time;
        let tmin = if tmax >= TIME_WINDOW { tmax - TIME_WINDOW } else { 0 };
        let cmax = self.meta.global_count;
        let time_conf = norm_weight(value.time, tmin, tmax);
        let count_conf = norm_weight(value.count, 0, cmax);
        let depth_cap = self.options.max_ngram_size - 1;
        let depth = if depth_cap < history.len() { depth_cap } else { history.len() };
        let text = string_of(word);
        let mut node = sep;
        let mut h: usize = 0;
        while h < depth
            invariant
                self.wf(),
                node < self.trie_root.value_seq().len(),
                depth <= history@.len(),
                h <= depth,
                0 <= time_conf <= SCALE,
                0 <= count_conf <= SCALE,
                queue.wf(),
                queue.cap() == old(queue).cap(),
                text@ == word@,
                self.predictable(word@),
                forall|t: Seq<char>|
                    #[trigger] queue.scores().contains_key(t) ==> old(queue).scores().contains_key(t)
                        || (t == word@ && self.predictable(t)),
                queue_fold(
                    queue.ents(),
                    self.hist_pushes(
                        word@,
                        node as int,
                        h as nat,
                        depth as nat,
                        token_views(history@),
                        time_conf as int,
                        count_conf as int,
                    ),
                    queue.cap(),
                ) == target,
                target == queue_fold(
                    old(queue).ents(),
                    self.word_pushes(word@, word_node as int, token_views(history@)),
                    old(queue).cap(),
                ),
            decreases depth - h,
        {
            let ghost before = queue.ents();
            let step = self.score_step(word, &text, node, h, depth, history, time_conf, count_conf, queue);
            match step {
                Some(nn) => {
                    node = nn;
                },
                None => {
                    assert(queue_fold(
                        before,
                        self.hist_pushes(
                            word@,
                            node as int,
                            h as nat,
                            depth as nat,
                            token_views(history@),
                            time_conf as int,
                            count_conf as int,
                        ),
                        queue.cap(),
                    ) == queue.ents());
                    assert(queue.ents() == target);
                    return;
                },
            }
            h += 1;
        }
        proof {
            let rest = self.hist_pushes(word@, node as int, h as nat, depth as nat, token_views(history@), time_conf as int, count_conf as int);
            assert(rest =~= Seq::<(Seq<char>, i64)>::empty());
            assert(queue_fold(queue.ents(), Seq::<(Seq<char>, i64)>::empty(), queue.cap()) == queue.ents());
        }
    }

    /// Predicts the current word of a partial sentence: the next word if the last word is
    /// empty, else words resembling it; at most `max_candidates`, best first.
    pub fn predict(&self, partial_sentence: &[String]) -> (r: Vec<Candidate>)
        requires
            self.wf(),
        ensures
            partial_sentence@.len() == 0 ==> r@.len() == 0,
            r@.len() <= if self.options.max_candidates == 0 { 1 } else { self.options.max_candidates },
            sorted_by_conf(cviews(r@)),
            unique_texts(cviews(r@)),
            forall|i: int| 0 <= i < r@.len() ==> self.predictable(#[trigger] r@[i].text@),
            partial_sentence@.len() > 0 ==> cviews(r@) == self.predicted(crate::scoring::texts(partial_sentence@)),
    {
        let ghost ps = crate::scoring::texts(partial_sentence@);
        let mut queue = CandidateQueue::with_capacity(self.options.max_candidates);
        if partial_sentence.len() == 0 {
            let r = queue.into_sorted_vec();
            assert(cviews(r@).len() == 0);
            return r;
        }
        let mut history: Vec<Vec<char>> = Vec::new();
        history.push(nfd_chars(self.meta.sentence_token.as_str()));
        let last = partial_sentence.len() - 1;
        let mut w: usize = 0;
        while w < last
            invariant
                last < partial_sentence@.len(),
                ps == crate::scoring::texts(partial_sentence@),
                w <= last,
                token_views(history@) == seq![nfd_of(self.meta.sentence_token@)] + nfd_all(
                    ps.subrange(0, w as int),
                ),
            decreases last - w,
        {
            let ghost before = token_views(history@);
            let t = nfd_chars(partial_sentence[w].as_str());
            history.push(t);
            assert(ps[w as int] == partial_sentence@[w as int]@);
            assert(nfd_all(ps.subrange(0, w as int + 1)) =~= nfd_all(ps.subrange(0, w as int)).push(
                nfd_of(ps[w as int]),
            ));
            assert(token_views(history@) =~= before.push(t@));
            assert(token_views(history@) =~= seq![nfd_of(self.meta.sentence_token@)] + nfd_all(
                ps.subrange(0, w as int + 1),
            ));
            w += 1;
        }
        assert(ps.subrange(0, last as int) =~= ps.drop_last());
        assert(token_views(history@) == self.history_of(ps));
        let curr = nfd_chars(partial_sentence[last].as_str());
        assert(curr@ == nfd_of(ps.last()));
        let words = self.trie_root.entries();
        let ghost wv = crate::dyntrie::keyed_view(words@);
        let ghost hist = self.history_of(ps);
        let ghost cap: nat = if self.options.max_candidates == 0 { 1 } else { self.options.max_candidates as nat };
        assert(wv.subrange(0, wv.len() as int) =~= wv);
        assert(queue.ents() =~= Seq::<(Seq<char>, u8)>::empty());
        let mut i: usize = 0;
        while i < words.len()
            invariant
                self.wf(),
                queue.wf(),
                queue.cap() == cap,
                cap == (if self.options.max_candidates == 0 { 1 } else { self.options.max_candidates as nat }),
                crate::dyntrie::keyed_ok(self.trie_root, words@),
                forall|t: Seq<char>| #[trigger] queue.scores().contains_key(t) ==> self.predictable(t),
                wv == crate::dyntrie::keyed_view(words@),
                wv == keyed_at(self.trie_root, 0, Seq::empty()),
                hist == self.history_of(ps),
                token_views(history@) == hist,
                curr@ == nfd_of(ps.last()),
                i <= words@.len(),
                self.words_fold(queue.ents(), wv.subrange(i as int, wv.len() as int), hist, curr@, cap)
                    == self.predicted(ps),
            decreases words.len() - i,
        {
            let ghost rest = wv.subrange(i as int + 1, wv.len() as int);
            assert(wv.subrange(i as int, wv.len() as int).drop_first() =~= rest);
            assert(wv.subrange(i as int, wv.len() as int)[0] == wv[i as int]);
            let (word, node) = (&words[i].0, words[i].1);
            proof {
                assert(crate::dyntrie::keyed_ok(self.trie_root, words@));
                assert(self.trie_root.value_seq()[node as int] is Some);
                crate::dyntrie::lemma_path_in_bounds(self.trie_root, 0, word@);
            }
            let passes = curr.len() == 0 || ((word.len() as u64) < 0x2000_0000_0000_0000u64 && (curr.len() as u64) < 0x2000_0000_0000_0000u64
                && char_similarity(word, &curr) >= 1);
            assert(wv[i as int] == (word@, node as int));
            assert(passes == self.gate(word@, curr@));
            if passes {
                self.score_word(word, node, &history, &mut queue);
            }
            i += 1;
        }
        assert(wv.subrange(i as int, wv.len() as int) =~= Seq::<(Seq<char>, int)>::empty());
        proof {
            queue.lemma_entries_scored();
        }
        let ghost ents = queue.ents();
        let ghost qs = queue.scores();
        let r = queue.into_sorted_vec();
        assert(cviews(r@) == self.predicted(ps));
        assert forall|i: int| 0 <= i < r@.len() implies self.predictable(#[trigger] r@[i].text@) by {
            assert(cviews(r@)[i] == ents[i]);
            assert(cviews(r@)[i].0 == r@[i].text@);
            assert(qs.contains_key(ents[i].0));
        }
        r
    }
}

} // verus!
