//! The suggestion engine: dictionaries per language, the personal vocabulary and context
//! map, spell-checking, completion and next-word prediction.

use crate::binary_trie::{capped, codes_of, decode_file, results_view, walk, words_at, BinaryTrie, BinaryTrieNode, TrieError};
use crate::canonical::{capitalize, capitalized, display_form, format_with_canonical, is_prefix_of, lookup_key, normalize_for_lookup, preserves_canonical, should_preserve_canonical};
use crate::word_trie::{hit_view, TrieNode};
use crate::dyntrie::{keyed_at, keyed_edges, DynTrieNode};
use crate::fuzzy::{edit_dist, edit_distance_chars};
use crate::json::{counts_json, counts_to_json, counts_view, json_counts, json_nested_counts, nested_counts_json, nested_counts_to_json, parse_nested_counts, parse_word_counts};
use crate::ranking::{rank, select, sviews, Suggestion, SuggestionView};
use crate::scoring::{context_score, ctx_score, freq_score_spec, frequency_score, nested_wf, texts, SCALE};
use crate::text::{chars_of, lower_of, owned, starts_with, to_lower, to_upper, trim, trim_of, upper_of};
use crate::word_map::{kv_pairs, lemma_text_map_insert, nested_kv, pairs_view, text_map, WordMap};
use vstd::prelude::*;

verus! {

/// Bonus for candidates from the personal vocabulary (0.25).
pub const PERSONAL_BONUS: i64 = 2500;

/// Bonus for a completion equal to what was typed (1.0).
pub const EXACT_MATCH_BONUS: i64 = 10000;

/// Shortest word that is completed or learned.
pub const MIN_WORD_LENGTH: usize = 2;

/// How many preceding words a learned word is associated with.
pub const MAX_CONTEXT_WORDS: usize = 3;

/// Highest personal frequency.
pub const MAX_PERSONAL_FREQ: u32 = 255;

/// Everything loaded for one language.
pub struct LanguageDictionary {
    pub trie: TrieNode,
    pub binary_trie: Option<BinaryTrie>,
    pub dict: WordMap<u32>,
    pub ngrams: WordMap<WordMap<u32>>,
    pub canonical_forms: WordMap<String>,
}

impl LanguageDictionary {
    pub open spec fn wf(&self) -> bool {
        &&& self.trie.wf()
        &&& (self.binary_trie matches Some(b) ==> b.wf())
        &&& self.dict.wf()
        &&& nested_wf(self.ngrams)
        &&& self.canonical_forms.wf()
    }

    pub fn new() -> (r: Self)
        ensures
            r.wf(),
            r.binary_trie is None,
            r.dict@ == Map::<Seq<char>, u32>::empty(),
            r.canonical_forms@ == Map::<Seq<char>, String>::empty(),
            r.ngrams@ == Map::<Seq<char>, WordMap<u32>>::empty(),
    {
        LanguageDictionary {
            trie: TrieNode::new(),
            binary_trie: None,
            dict: WordMap::new(),
            ngrams: WordMap::new(),
            canonical_forms: WordMap::new(),
        }
    }
}

/// The verdict on one word.
pub struct SpellCheckResult {
    pub is_valid: bool,
    pub is_typo: bool,
    pub suggestions: Vec<String>,
}

/// The spelling score of `candidate` for `input` at distance `d`: 0.4 of its frequency
/// score, 0.4 of its closeness, 0.2 of a bonus of 0.2 for extending the input, the source
/// bonus, and 0.15 of its context score.
pub open spec fn spelling_score_spec(
    input: Seq<char>,
    candidate: Seq<char>,
    freq: u32,
    d: nat,
    bonus: i64,
    ctx: i64,
) -> i64 {
    let ds: i64 = if d >= 2 { 0 } else { ((2 - d) * 5000) as i64 };
    let pb: i64 = if is_prefix_of(input, candidate) { 2000 } else { 0 };
    ((4 * freq_score_spec(freq) + 4 * ds + 2 * pb) / 10 + bonus + (15 * ctx) / 100) as i64
}

/// Whether two words are close enough to be corrections of each other.
pub open spec fn within_reach(a: Seq<char>, b: Seq<char>) -> bool {
    a.len() + b.len() < usize::MAX && edit_dist(a, b) <= 2
}

/// The correction candidates for `w` among `keys` (with frequencies `vals`), in order.
pub open spec fn correction_cands(
    keys: Seq<Seq<char>>,
    vals: Seq<u32>,
    w: Seq<char>,
    bonus: i64,
    display: bool,
    forms: Map<Seq<char>, String>,
    cmap: Map<Seq<char>, WordMap<u32>>,
    ctx: Seq<Seq<char>>,
) -> Seq<SuggestionView>
    decreases keys.len(),
{
    if keys.len() == 0 || vals.len() != keys.len() {
        Seq::empty()
    } else {
        let rest = correction_cands(
            keys.drop_last(),
            vals.drop_last(),
            w,
            bonus,
            display,
            forms,
            cmap,
            ctx,
        );
        let c = keys.last();
        if within_reach(w, c) {
            let text = if display { display_form(c, w, forms) } else { c };
            let score = spelling_score_spec(
                w,
                c,
                vals.last(),
                edit_dist(w, c),
                bonus,
                ctx_score(cmap, c, ctx),
            );
            rest.push((text, score, false))
        } else {
            rest
        }
    }
}

/// A suggestion list as texts.
pub open spec fn texts_of_views(s: Seq<SuggestionView>) -> Seq<Seq<char>> {
    s.map_values(|x: SuggestionView| x.0)
}

/// The keyboard's language engine.
pub struct NlpEngine {
    languages: WordMap<LanguageDictionary>,
    active_language: String,
    personal_trie: TrieNode,
    personal_dict: WordMap<u32>,
    context_map: WordMap<WordMap<u32>>,
}

impl NlpEngine {
    pub closed spec fn lang(&self) -> Seq<char> {
        self.active_language@
    }

    pub closed spec fn languages(&self) -> WordMap<LanguageDictionary> {
        self.languages
    }

    pub closed spec fn personal(&self) -> WordMap<u32> {
        self.personal_dict
    }

    pub closed spec fn personal_trie(&self) -> TrieNode {
        self.personal_trie
    }

    pub closed spec fn contexts(&self) -> WordMap<WordMap<u32>> {
        self.context_map
    }

    pub open spec fn wf(&self) -> bool {
        &&& self.languages().wf()
        &&& forall|k: Seq<char>| #[trigger]
            self.languages()@.contains_key(k) ==> self.languages()@[k].wf()
        &&& self.personal().wf()
        &&& self.personal_trie().wf()
        &&& nested_wf(self.contexts())
    }

    /// Nothing loaded or learned: no dictionaries, an empty personal dictionary, context map
    /// and personal trie, and the default language.
    pub open spec fn is_cleared(&self) -> bool {
        &&& self.lang() == default_lang()
        &&& self.languages()@ == Map::<Seq<char>, LanguageDictionary>::empty()
        &&& self.personal()@ == Map::<Seq<char>, u32>::empty()
        &&& self.personal().keys().len() == 0
        &&& self.contexts()@ == Map::<Seq<char>, WordMap<u32>>::empty()
        &&& self.personal_trie().is_bare()
    }

    /// The dictionary of the active language, if one is loaded.
    pub open spec fn active(&self) -> Option<LanguageDictionary> {
        if self.languages()@.contains_key(self.lang()) {
            Some(self.languages()@[self.lang()])
        } else {
            None
        }
    }

    /// The word frequencies of the active language.
    pub open spec fn main_dict(&self) -> Map<Seq<char>, u32> {
        match self.active() {
            Some(ld) => ld.dict@,
            None => Map::empty(),
        }
    }

    /// The words of the active language, in order.
    pub open spec fn main_keys(&self) -> Seq<Seq<char>> {
        match self.active() {
            Some(ld) => ld.dict.keys(),
            None => Seq::empty(),
        }
    }

    /// The frequencies of the words of the active language, in order.
    pub open spec fn main_vals(&self) -> Seq<u32> {
        match self.active() {
            Some(ld) => ld.dict.vals(),
            None => Seq::empty(),
        }
    }

    /// The canonical forms of the active language.
    pub open spec fn forms(&self) -> Map<Seq<char>, String> {
        match self.active() {
            Some(ld) => ld.canonical_forms@,
            None => Map::empty(),
        }
    }

    /// Whether `w`, capitalized or in capitals, is in the main or the personal dictionary.
    pub open spec fn known(&self, w: Seq<char>) -> bool {
        let found = |v: Seq<char>| self.main_dict().contains_key(v) || self.personal()@.contains_key(v);
        found(w) || found(capitalized(w)) || found(upper_of(w))
    }

    pub fn new() -> (r: Self)
        ensures
            r.wf(),
            r.lang() == default_lang(),
            r.languages()@ == Map::<Seq<char>, LanguageDictionary>::empty(),
            r.personal()@ == Map::<Seq<char>, u32>::empty(),
            r.contexts()@ == Map::<Seq<char>, WordMap<u32>>::empty(),
            r.is_cleared(),
    {
        let lang = owned("en_US");
        proof {
            reveal_strlit("en_US");
        }
        let r = NlpEngine {
            languages: WordMap::new(),
            active_language: lang,
            personal_trie: TrieNode::new(),
            personal_dict: WordMap::new(),
            context_map: WordMap::new(),
        };
        assert(r.lang() =~= default_lang());
        r
    }

    pub fn set_language(&mut self, lang_code: &str)
        requires
            old(self).wf(),
        ensures
            final(self).wf(),
            final(self).lang() == lang_code@,
            final(self).languages() == old(self).languages(),
            final(self).personal() == old(self).personal(),
            final(self).personal_trie() == old(self).personal_trie(),
            final(self).contexts() == old(self).contexts(),
    {
        self.active_language = owned(lang_code);
    }

    pub fn get_language(&self) -> (r: String)
        ensures
            r@ == self.lang(),
    {
        self.active_language.clone()
    }

    fn active_dict(&self) -> (r: Option<&LanguageDictionary>)
        requires
            self.wf(),
        ensures
            r matches Some(ld) ==> self.active() == Some(*ld),
            r is None ==> self.active() is None,
    {
        self.languages.get(self.active_language.as_str())
    }

    /// The canonical display form filed under the lookup key of `word`.
    pub fn get_canonical_form(&self, word: &str) -> (r: Option<String>)
        requires
            self.wf(),
        ensures
            r is Some <==> self.forms().contains_key(lookup_key(word@)),
            r matches Some(f) ==> f == self.forms()[lookup_key(word@)],
    {
        match self.active_dict() {
            Some(ld) => {
                let key = normalize_for_lookup(word);
                match ld.canonical_forms.get(key.as_str()) {
                    Some(f) => Some(f.clone()),
                    None => None,
                }
            },
            None => None,
        }
    }

    fn in_dicts(&self, main: Option<&LanguageDictionary>, w: &str) -> (r: bool)
        requires
            self.wf(),
            main matches Some(ld) ==> self.active() == Some(*ld),
            main is None ==> self.active() is None,
        ensures
            r == (self.main_dict().contains_key(w@) || self.personal()@.contains_key(w@)),
    {
        let in_main = match main {
            Some(ld) => ld.dict.contains_key(w),
            None => false,
        };
        in_main || self.personal_dict.contains_key(w)
    }

    /// Whether `w` (or its capitalized or upper-case form) is a known word.
    pub fn is_known_word(&self, w: &str) -> (r: bool)
        requires
            self.wf(),
        ensures
            r == self.known(w@),
    {
        let main = self.active_dict();
        let cap = capitalize(w);
        let up = to_upper(w);
        self.in_dicts(main, w) || self.in_dicts(main, cap.as_str()) || self.in_dicts(main, up.as_str())
    }

    fn spelling_score(
        &self,
        input: &Vec<char>,
        candidate: &str,
        freq: u32,
        d: usize,
        bonus: i64,
        context: &[String],
    ) -> (r: i64)
        requires
            self.wf(),
            d <= 2,
            0 <= bonus <= PERSONAL_BONUS,
        ensures
            r == spelling_score_spec(
                input@,
                candidate@,
                freq,
                d as nat,
                bonus,
                ctx_score(self.contexts()@, candidate@, texts(context@)),
            ),
    {
        let fs = frequency_score(freq);
        let ds: i64 = if d >= 2 { 0 } else { ((2 - d) * 5000) as i64 };
        let cv = chars_of(candidate);
        let pb: i64 = if starts_with(&cv, input) { 2000 } else { 0 };
        let ctx = context_score(&self.context_map, candidate, context);
        (4 * fs + 4 * ds + 2 * pb) / 10 + bonus + (15 * ctx) / 100
    }

    fn correction_sweep(
        &self,
        map: &WordMap<u32>,
        w: &Vec<char>,
        bonus: i64,
        display: bool,
        forms: &WordMap<String>,
        context: &[String],
        out: &mut Vec<Suggestion>,
    )
        requires
            self.wf(),
            map.wf(),
            forms.wf(),
            0 <= bonus <= PERSONAL_BONUS,
        ensures
            sviews(final(out)@) == sviews(old(out)@) + correction_cands(
                map.keys(),
                map.vals(),
                w@,
                bonus,
                display,
                forms@,
                self.contexts()@,
                texts(context@),
            ),
    {
        let ws = crate::text::string_of(w);
        let n = map.len();
        let mut i: usize = 0;
        while i < n
            invariant
                self.wf(),
                map.wf(),
                forms.wf(),
                0 <= bonus <= PERSONAL_BONUS,
                n == map.keys().len(),
                i <= n,
                ws@ == w@,
                sviews(out@) == sviews(old(out)@) + correction_cands(
                    map.keys().subrange(0, i as int),
                    map.vals().subrange(0, i as int),
                    w@,
                    bonus,
                    display,
                    forms@,
                    self.contexts()@,
                    texts(context@),
                ),
            decreases n - i,
        {
            let cand = map.key_at(i);
            let freq = *map.value_at(i);
            let cv = chars_of(cand.as_str());
            proof {
                assert(map.keys().subrange(0, i as int + 1).drop_last() =~= map.keys().subrange(
                    0,
                    i as int,
                ));
                assert(map.vals().subrange(0, i as int + 1).drop_last() =~= map.vals().subrange(
                    0,
                    i as int,
                ));
                assert(map.keys().subrange(0, i as int + 1).last() == map.keys()[i as int]);
                assert(map.vals().subrange(0, i as int + 1).last() == map.vals()[i as int]);
            }
            if w.len() < usize::MAX - cv.len() {
                let d = edit_distance_chars(w, &cv);
                if d <= 2 {
                    let text = if display {
                        format_with_canonical(cand.as_str(), ws.as_str(), forms)
                    } else {
                        cand.clone()
                    };
                    let score = self.spelling_score(w, cand.as_str(), freq, d, bonus, context);
                    let ghost before = sviews(out@);
                    out.push(Suggestion { text, confidence: score, is_eligible_for_auto_commit: false });
                    assert(sviews(out@) =~= before.push((text@, score, false)));
                }
            }
            i += 1;
        }
        assert(map.keys().subrange(0, n as int) =~= map.keys());
        assert(map.vals().subrange(0, n as int) =~= map.vals());
    }

    /// Corrections for `w`: dictionary words (shown in their display form), then personal
    /// words with the personal bonus, each within two edits; the best `max` with distinct
    /// lookup keys.
    pub fn suggest_corrections(&self, w: &str, context: &[String], max: usize) -> (r: Vec<String>)
        requires
            self.wf(),
        ensures
            r@.map_values(|s: String| s@) == texts_of_views(
                select(
                    correction_cands(
                        self.main_keys(),
                        self.main_vals(),
                        w@,
                        0,
                        true,
                        self.forms(),
                        self.contexts()@,
                        texts(context@),
                    ) + correction_cands(
                        self.personal().keys(),
                        self.personal().vals(),
                        w@,
                        PERSONAL_BONUS,
                        false,
                        self.forms(),
                        self.contexts()@,
                        texts(context@),
                    ),
                    Set::empty(),
                    max as nat,
                ),
            ),
    {
        let wv = chars_of(w);
        let mut cands: Vec<Suggestion> = Vec::new();
        let empty_forms: WordMap<String> = WordMap::new();
        let empty_dict: WordMap<u32> = WordMap::new();
        match self.active_dict() {
            Some(ld) => {
                self.correction_sweep(&ld.dict, &wv, 0, true, &ld.canonical_forms, context, &mut cands);
                self.correction_sweep(
                    &self.personal_dict,
                    &wv,
                    PERSONAL_BONUS,
                    false,
                    &ld.canonical_forms,
                    context,
                    &mut cands,
                );
            },
            None => {
                self.correction_sweep(&empty_dict, &wv, 0, true, &empty_forms, context, &mut cands);
                self.correction_sweep(
                    &self.personal_dict,
                    &wv,
                    PERSONAL_BONUS,
                    false,
                    &empty_forms,
                    context,
                    &mut cands,
                );
            },
        }
        let ranked = rank(cands, max);
        let mut out: Vec<String> = Vec::new();
        let mut i: usize = 0;
        while i < ranked.len()
            invariant
                i <= ranked@.len(),
                out@.map_values(|s: String| s@) == texts_of_views(sviews(ranked@)).subrange(0, i as int),
            decreases ranked.len() - i,
        {
            let ghost before = out@;
            let t = ranked[i].text.clone();
            out.push(t);
            assert(texts_of_views(sviews(ranked@))[i as int] == ranked@[i as int].text@);
            assert(out@.map_values(|s: String| s@) =~= before.map_values(|s: String| s@).push(t@));
            i += 1;
            assert(out@.map_values(|s: String| s@) =~= texts_of_views(sviews(ranked@)).subrange(
                0,
                i as int,
            ));
        }
        assert(texts_of_views(sviews(ranked@)).subrange(0, i as int) =~= texts_of_views(
            sviews(ranked@),
        ));
        out
    }

    /// The verdict on `word`: validity, typo, and suggested texts.
    pub open spec fn spell_check_spec(&self, word: Seq<char>, ctx: Seq<Seq<char>>, max: nat) -> (
        bool,
        bool,
        Seq<Seq<char>>,
    ) {
        let w = lower_of(word);
        if w.len() == 0 {
            (false, false, Seq::empty())
        } else if self.known(w) {
            (true, false, Seq::empty())
        } else if self.forms().contains_key(lookup_key(w)) {
            (false, true, seq![self.forms()[lookup_key(w)]@])
        } else {
            (
                false,
                true,
                texts_of_views(
                    select(
                        correction_cands(
                            self.main_keys(),
                            self.main_vals(),
                            w,
                            0,
                            true,
                            self.forms(),
                            self.contexts()@,
                            ctx,
                        ) + correction_cands(
                            self.personal().keys(),
                            self.personal().vals(),
                            w,
                            PERSONAL_BONUS,
                            false,
                            self.forms(),
                            self.contexts()@,
                            ctx,
                        ),
                        Set::empty(),
                        max,
                    ),
                ),
            )
        }
    }

    /// Checks one word: empty is neither valid nor a typo; a known word (in any of three
    /// casings) is valid; a word with a canonical form is a typo for that form; anything
    /// else is a typo with its best corrections.
    pub fn spell_check(&self, word: &str, context: &[String], max_suggestions: usize) -> (r:
        SpellCheckResult)
        requires
            self.wf(),
        ensures
            (r.is_valid, r.is_typo, r.suggestions@.map_values(|s: String| s@))
                == self.spell_check_spec(word@, texts(context@), max_suggestions as nat),
    {
        let normalized = to_lower(word);
        if normalized.as_str().unicode_len() == 0 {
            let r = SpellCheckResult { is_valid: false, is_typo: false, suggestions: Vec::new() };
            assert(r.suggestions@.map_values(|s: String| s@) =~= Seq::<Seq<char>>::empty());
            return r;
        }
        if self.is_known_word(normalized.as_str()) {
            let r = SpellCheckResult { is_valid: true, is_typo: false, suggestions: Vec::new() };
            assert(r.suggestions@.map_values(|s: String| s@) =~= Seq::<Seq<char>>::empty());
            return r;
        }
        match self.get_canonical_form(normalized.as_str()) {
            Some(canonical) => {
                let mut v: Vec<String> = Vec::new();
                v.push(canonical);
                let r = SpellCheckResult { is_valid: false, is_typo: true, suggestions: v };
                assert(r.suggestions@.map_values(|s: String| s@) =~= seq![
                    self.forms()[lookup_key(normalized@)]@,
                ]);
                r
            },
            None => {
                let suggestions = self.suggest_corrections(normalized.as_str(), context, max_suggestions);
                SpellCheckResult { is_valid: false, is_typo: true, suggestions }
            },
        }
    }
}

/// The context map as plain maps.
pub open spec fn ctx_view(m: WordMap<WordMap<u32>>) -> Map<Seq<char>, Map<Seq<char>, u32>> {
    m@.map_values(|w: WordMap<u32>| w@)
}

pub open spec fn count_in(m: Map<Seq<char>, u32>, k: Seq<char>) -> u32 {
    if m.contains_key(k) { m[k] } else { 0 }
}

pub open spec fn sat_add(a: u32, b: u32) -> u32 {
    if a + b > u32::MAX { u32::MAX } else { (a + b) as u32 }
}

/// One more sighting of `w` after `prev`.
pub open spec fn bump(
    cv: Map<Seq<char>, Map<Seq<char>, u32>>,
    prev: Seq<char>,
    w: Seq<char>,
) -> Map<Seq<char>, Map<Seq<char>, u32>> {
    let inner = if cv.contains_key(prev) { cv[prev] } else { Map::empty() };
    cv.insert(prev, inner.insert(w, sat_add(count_in(inner, w), 1)))
}

/// `w` counted after each of the first `k` context words, in lower case.
pub open spec fn learn_ctx(
    cv: Map<Seq<char>, Map<Seq<char>, u32>>,
    ctx: Seq<Seq<char>>,
    w: Seq<char>,
    k: nat,
) -> Map<Seq<char>, Map<Seq<char>, u32>>
    decreases k,
{
    if k == 0 {
        cv
    } else {
        bump(learn_ctx(cv, ctx, w, (k - 1) as nat), lower_of(ctx[k - 1]), w)
    }
}

/// The personal frequency after learning a word once more: five more, at most 255.
pub open spec fn learned_freq(old: Map<Seq<char>, u32>, w: Seq<char>) -> u32 {
    let c = count_in(old, w);
    if c + 5 > MAX_PERSONAL_FREQ { MAX_PERSONAL_FREQ } else { (c + 5) as u32 }
}

pub open spec fn min_nat(a: nat, b: nat) -> nat {
    if a <= b { a } else { b }
}

impl NlpEngine {
    fn bump_context(&mut self, prev: String, w: &str)
        requires
            old(self).wf(),
        ensures
            final(self).wf(),
            ctx_view(final(self).contexts()) == bump(ctx_view(old(self).contexts()), prev@, w@),
            final(self).personal() == old(self).personal(),
            final(self).personal_trie() == old(self).personal_trie(),
            final(self).languages() == old(self).languages(),
            final(self).lang() == old(self).lang(),
    {
        let ghost cv = ctx_view(self.context_map);
        let ghost p = prev@;
        let mut inner = match self.context_map.remove(prev.as_str()) {
            Some(m) => m,
            None => WordMap::new(),
        };
        let c = match inner.get(w) {
            Some(c) => *c,
            None => 0,
        };
        let n = if c == u32::MAX { u32::MAX } else { c + 1 };
        let ghost inner_old = inner@;
        inner.insert(owned(w), n);
        self.context_map.insert(prev, inner);
        proof {
            assert(inner_old == (if cv.contains_key(p) { cv[p] } else { Map::empty() }));
            assert forall|k: Seq<char>| #[trigger] self.context_map@.contains_key(k) implies self.context_map@[k].wf() by {
                if k != p {
                    assert(old(self).context_map@.contains_key(k));
                }
            }
            assert(ctx_view(self.context_map) =~= bump(cv, p, w@));
        }
    }

    /// Learns `word` after `context`: its personal frequency grows by five (at most 255),
    /// it enters the personal trie, and it is counted after each of the first three
    /// context words. Words shorter than two characters are not learned.
    pub fn learn_word(&mut self, word: &str, context: &[String])
        requires
            old(self).wf(),
        ensures
            final(self).wf(),
            final(self).lang() == old(self).lang(),
            final(self).languages() == old(self).languages(),
            ({
                let n = trim_of(lower_of(word@));
                if n.len() < MIN_WORD_LENGTH {
                    &&& final(self).personal() == old(self).personal()
                    &&& final(self).personal_trie() == old(self).personal_trie()
                    &&& final(self).contexts() == old(self).contexts()
                } else {
                    &&& final(self).personal()@ == old(self).personal()@.insert(
                        n,
                        learned_freq(old(self).personal()@, n),
                    )
                    &&& ctx_view(final(self).contexts()) == learn_ctx(
                        ctx_view(old(self).contexts()),
                        texts(context@),
                        n,
                        min_nat(context@.len(), MAX_CONTEXT_WORDS as nat),
                    )
                    &&& final(self).personal_trie().freq_of(n) == Some(
                        learned_freq(old(self).personal()@, n),
                    )
                }
            }),
    {
        let lower = to_lower(word);
        let normalized = owned(trim(lower.as_str()));
        let len = normalized.as_str().unicode_len();
        if len < MIN_WORD_LENGTH {
            return;
        }
        let current = match self.personal_dict.get(normalized.as_str()) {
            Some(c) => *c,
            None => 0,
        };
        let freq = if current >= MAX_PERSONAL_FREQ - 5 { MAX_PERSONAL_FREQ } else { current + 5 };
        self.personal_dict.insert(normalized.clone(), freq);
        self.personal_trie.insert(normalized.as_str(), freq);
        let ghost trie_after = self.personal_trie;
        let ghost start = ctx_view(self.context_map);
        let ghost ctx = texts(context@);
        let limit: usize = if context.len() < MAX_CONTEXT_WORDS { context.len() } else { MAX_CONTEXT_WORDS };
        let mut i: usize = 0;
        while i < limit
            invariant
                self.wf(),
                i <= limit,
                limit == min_nat(context@.len(), MAX_CONTEXT_WORDS as nat),
                ctx == texts(context@),
                self.lang() == old(self).lang(),
                self.languages() == old(self).languages(),
                self.personal_trie() == trie_after,
                self.personal()@ == old(self).personal()@.insert(
                    normalized@,
                    learned_freq(old(self).personal()@, normalized@),
                ),
                ctx_view(self.contexts()) == learn_ctx(start, ctx, normalized@, i as nat),
            decreases limit - i,
        {
            let prev = to_lower(context[i].as_str());
            self.bump_context(prev, normalized.as_str());
            i += 1;
        }
    }

    /// Lowers the personal frequency of `word` to 95% (rounded down), dropping it at zero.
    pub fn penalize_word(&mut self, word: &str)
        requires
            old(self).wf(),
        ensures
            final(self).personal_trie() == old(self).personal_trie(),
            final(self).wf(),
            final(self).lang() == old(self).lang(),
            final(self).languages() == old(self).languages(),
            final(self).contexts() == old(self).contexts(),
            ({
                let n = lower_of(word@);
                let p = old(self).personal()@;
                if !p.contains_key(n) {
                    final(self).personal()@ == p
                } else if p[n] * 95 / 100 == 0 {
                    final(self).personal()@ == p.remove(n)
                } else {
                    final(self).personal()@ == p.insert(n, (p[n] * 95 / 100) as u32)
                }
            }),
    {
        let normalized = to_lower(word);
        let f = match self.personal_dict.get(normalized.as_str()) {
            Some(f) => *f,
            None => {
                return;
            },
        };
        let decayed = ((f as u64) * 95 / 100) as u32;
        if decayed == 0 {
            self.personal_dict.remove(normalized.as_str());
        } else {
            self.personal_dict.insert(normalized, decayed);
        }
    }

    /// Forgets `word` from the personal dictionary; whether it was there. The personal trie
    /// is left as it is, so completions may still offer the word.
    pub fn remove_word(&mut self, word: &str) -> (r: bool)
        requires
            old(self).wf(),
        ensures
            final(self).personal_trie() == old(self).personal_trie(),
            final(self).wf(),
            r == old(self).personal()@.contains_key(lower_of(word@)),
            final(self).personal()@ == old(self).personal()@.remove(lower_of(word@)),
            final(self).lang() == old(self).lang(),
            final(self).languages() == old(self).languages(),
            final(self).contexts() == old(self).contexts(),
    {
        let normalized = to_lower(word);
        self.personal_dict.remove(normalized.as_str()).is_some()
    }

    /// The frequency score of `word`: the larger of its dictionary frequency and twice its
    /// personal frequency.
    pub fn get_frequency(&self, word: &str) -> (r: i64)
        requires
            self.wf(),
        ensures
            ({
                let n = lower_of(word@);
                let m = count_in(self.main_dict(), n);
                let p = count_in(self.personal()@, n) * 2;
                let top = if m >= p { m as int } else { p };
                r == (if top >= 250 { 10000 } else { freq_score_spec(top as u32) })
            }),
    {
        let normalized = to_lower(word);
        let m: u32 = match self.active_dict() {
            Some(ld) => match ld.dict.get(normalized.as_str()) {
                Some(f) => *f,
                None => 0,
            },
            None => 0,
        };
        let p: u64 = match self.personal_dict.get(normalized.as_str()) {
            Some(f) => (*f as u64) * 2,
            None => 0,
        };
        let top: u64 = if (m as u64) >= p { m as u64 } else { p };
        if top >= 250 { 10000 } else { frequency_score(top as u32) }
    }

    /// The personal word frequencies, as a map.
    pub fn personal_frequency(&self, word: &str) -> (r: Option<u32>)
        requires
            self.wf(),
        ensures
            r is Some <==> self.personal()@.contains_key(word@),
            r matches Some(f) ==> f == self.personal()@[word@],
    {
        match self.personal_dict.get(word) {
            Some(f) => Some(*f),
            None => None,
        }
    }

    /// Drops every dictionary and all personal data, and returns to `en_US`.
    pub fn clear(&mut self)
        requires
            old(self).wf(),
        ensures
            final(self).wf(),
            final(self).lang() == default_lang(),
            final(self).languages()@ == Map::<Seq<char>, LanguageDictionary>::empty(),
            final(self).personal()@ == Map::<Seq<char>, u32>::empty(),
            final(self).contexts()@ == Map::<Seq<char>, WordMap<u32>>::empty(),
            final(self).is_cleared(),
    {
        *self = NlpEngine::new();
    }
}

/// Why a dictionary could not be loaded.
#[derive(Clone, Copy, Debug, PartialEq, Eq, Structural)]
pub enum LoadError {
    /// The text is not a JSON object of words to 32-bit counts.
    InvalidJson,
    /// The dictionary file was rejected.
    InvalidDictionary(TrieError),
}

pub open spec fn all_u32(es: Seq<(Seq<char>, u64)>) -> bool {
    forall|i: int| 0 <= i < es.len() ==> (#[trigger] es[i]).1 <= u32::MAX
}

/// Word frequencies from JSON entries: each non-blank word, trimmed and in lower case.
pub open spec fn dict_fold(es: Seq<(Seq<char>, u64)>) -> Map<Seq<char>, u32>
    decreases es.len(),
{
    if es.len() == 0 {
        Map::empty()
    } else {
        let t = trim_of(es.last().0);
        let rest = dict_fold(es.drop_last());
        if t.len() > 0 {
            rest.insert(lower_of(t), es.last().1 as u32)
        } else {
            rest
        }
    }
}

/// Canonical forms from JSON entries, filed over `base`.
pub open spec fn forms_fold(
    base: Map<Seq<char>, Seq<char>>,
    es: Seq<(Seq<char>, u64)>,
) -> Map<Seq<char>, Seq<char>>
    decreases es.len(),
{
    if es.len() == 0 {
        base
    } else {
        let t = trim_of(es.last().0);
        let rest = forms_fold(base, es.drop_last());
        if t.len() > 0 && preserves_canonical(t) {
            rest.insert(lookup_key(t), t)
        } else {
            rest
        }
    }
}

/// Pairs filed over `base`, a later pair overriding an earlier one.
pub open spec fn insert_pairs(
    base: Map<Seq<char>, Seq<char>>,
    ps: Seq<(Seq<char>, Seq<char>)>,
) -> Map<Seq<char>, Seq<char>>
    decreases ps.len(),
{
    if ps.len() == 0 {
        base
    } else {
        insert_pairs(base, ps.drop_last()).insert(ps.last().0, ps.last().1)
    }
}

/// Word frequencies from collected trie words, in lower case.
pub open spec fn words_fold(ws: Seq<(Seq<char>, u8)>) -> Map<Seq<char>, u32>
    decreases ws.len(),
{
    if ws.len() == 0 {
        Map::empty()
    } else {
        words_fold(ws.drop_last()).insert(lower_of(ws.last().0), ws.last().1 as u32)
    }
}

/// What loading `json` as the dictionary of `lang` does to the engine.
pub open spec fn json_loaded(
    old: NlpEngine,
    new: NlpEngine,
    lang: Seq<char>,
    json: Seq<char>,
    r: Result<(), LoadError>,
) -> bool {
    &&& new.lang() == old.lang()
    &&& new.personal() == old.personal()
    &&& new.personal_trie() == old.personal_trie()
    &&& new.contexts() == old.contexts()
    &&& (json_counts(json) is None ==> r == Err::<(), LoadError>(LoadError::InvalidJson))
    &&& (json_counts(json) matches Some(es) && !all_u32(es) ==> r == Err::<(), LoadError>(
        LoadError::InvalidJson,
    ))
    &&& (r is Ok <==> (json_counts(json) matches Some(es) && all_u32(es)))
    &&& (r is Err ==> new.languages() == old.languages())
    &&& (r is Ok ==> {
        &&& json_counts(json) matches Some(es)
        &&& all_u32(es)
        &&& new.languages()@.remove(lang) == old.languages()@.remove(lang)
        &&& new.languages()@.contains_key(lang)
        &&& new.languages()@[lang].binary_trie is None
        &&& new.languages()@[lang].dict@ == dict_fold(es)
        &&& text_map(new.languages()@[lang].canonical_forms@) == forms_fold(
            old.forms_of_lang(lang),
            es,
        )
        &&& ctx_view(new.languages()@[lang].ngrams) == old.ngrams_of_lang(lang)
    })
}

/// What loading a dictionary file as the dictionary of `lang` does to the engine.
pub open spec fn file_loaded(
    old: NlpEngine,
    new: NlpEngine,
    lang: Seq<char>,
    data: Seq<u8>,
    r: Result<(), LoadError>,
) -> bool {
    &&& new.lang() == old.lang()
    &&& new.personal() == old.personal()
    &&& new.personal_trie() == old.personal_trie()
    &&& new.contexts() == old.contexts()
    &&& (r is Ok <==> decode_file(data) is Ok)
    &&& (decode_file(data) matches Err(e) ==> r == Err::<(), LoadError>(
        LoadError::InvalidDictionary(e),
    ) && new.languages() == old.languages())
    &&& (r is Ok ==> {
        &&& decode_file(data) matches Ok(d)
        &&& new.languages()@.remove(lang) == old.languages()@.remove(lang)
        &&& new.languages()@.contains_key(lang)
        &&& new.languages()@[lang].binary_trie matches Some(t)
        &&& t.node_seq() == d.0
        &&& new.languages()@[lang].dict@ == words_fold(
            capped(Seq::empty(), words_at(d.0, 0, Seq::empty()), MAX_LOADED_WORDS as nat),
        )
        &&& text_map(new.languages()@[lang].canonical_forms@) == insert_pairs(
            old.forms_of_lang(lang),
            t.forms().text_pairs(),
        )
        &&& ctx_view(new.languages()@[lang].ngrams) == old.ngrams_of_lang(lang)
    })
}

/// The name of the default language.
pub open spec fn default_lang() -> Seq<char> {
    seq!['e', 'n', '_', 'U', 'S']
}

/// Most words read from a dictionary file into the word map.
pub const MAX_LOADED_WORDS: usize = 100000;

impl NlpEngine {
    /// The canonical forms already loaded for `lang`, as texts.
    pub open spec fn forms_of_lang(&self, lang: Seq<char>) -> Map<Seq<char>, Seq<char>> {
        if self.languages()@.contains_key(lang) {
            text_map(self.languages()@[lang].canonical_forms@)
        } else {
            Map::empty()
        }
    }

    /// The n-grams already loaded for `lang`.
    pub open spec fn ngrams_of_lang(&self, lang: Seq<char>) -> Map<Seq<char>, Map<Seq<char>, u32>> {
        if self.languages()@.contains_key(lang) {
            ctx_view(self.languages()@[lang].ngrams)
        } else {
            Map::empty()
        }
    }

    /// Takes out the dictionary of `lang`, keeping its n-grams and canonical forms.
    fn take_language(&mut self, lang: &str) -> (r: (WordMap<WordMap<u32>>, WordMap<String>))
        requires
            old(self).wf(),
        ensures
            final(self).wf(),
            final(self).languages()@ == old(self).languages()@.remove(lang@),
            final(self).lang() == old(self).lang(),
            final(self).personal() == old(self).personal(),
            final(self).personal_trie() == old(self).personal_trie(),
            final(self).contexts() == old(self).contexts(),
            nested_wf(r.0),
            r.1.wf(),
            ctx_view(r.0) == old(self).ngrams_of_lang(lang@),
            text_map(r.1@) == old(self).forms_of_lang(lang@),
    {
        match self.languages.remove(lang) {
            Some(ld) => {
                proof {
                    assert(old(self).languages()@.contains_key(lang@));
                }
                (ld.ngrams, ld.canonical_forms)
            },
            None => {
                let g: WordMap<WordMap<u32>> = WordMap::new();
                let f: WordMap<String> = WordMap::new();
                assert(ctx_view(g) =~= Map::<Seq<char>, Map<Seq<char>, u32>>::empty());
                assert(text_map(f@) =~= Map::<Seq<char>, Seq<char>>::empty());
                (g, f)
            },
        }
    }

    fn put_language(&mut self, lang: &str, ld: LanguageDictionary)
        requires
            old(self).wf(),
            ld.wf(),
        ensures
            final(self).wf(),
            final(self).languages()@ == old(self).languages()@.insert(lang@, ld),
            final(self).lang() == old(self).lang(),
            final(self).personal() == old(self).personal(),
            final(self).personal_trie() == old(self).personal_trie(),
            final(self).contexts() == old(self).contexts(),
    {
        self.languages.insert(owned(lang), ld);
    }

    /// Loads a JSON object of words to frequencies as the dictionary of `en_US`.
    pub fn load_dictionary(&mut self, json_data: &str) -> (r: Result<(), LoadError>)
        requires
            old(self).wf(),
        ensures
            final(self).wf(),
            json_loaded(*old(self), *final(self), default_lang(), json_data@, r),
    {
        proof {
            reveal_strlit("en_US");
            assert("en_US"@ =~= default_lang());
        }
        self.load_dictionary_for_language("en_US", json_data)
    }

    /// Loads a JSON object of words to frequencies as the dictionary of `lang`. Each
    /// non-blank word is stored trimmed and in lower case; a trimmed spelling that carries
    /// information is filed as a canonical form over those already loaded.
    pub fn load_dictionary_for_language(&mut self, lang: &str, json_data: &str) -> (r: Result<
        (),
        LoadError,
    >)
        requires
            old(self).wf(),
        ensures
            final(self).wf(),
            json_loaded(*old(self), *final(self), lang@, json_data@, r),
    {
        let parsed = match parse_word_counts(json_data) {
            Ok(v) => v,
            Err(_) => {
                return Err(LoadError::InvalidJson);
            },
        };
        let ghost es = counts_view(parsed@);
        let n = parsed.len();
        let mut k: usize = 0;
        while k < n
            invariant
                n == parsed@.len(),
                es == counts_view(parsed@),
                json_counts(json_data@) == Some(es),
                *self == *old(self),
                old(self).wf(),
                k <= n,
                forall|j: int| 0 <= j < k ==> (#[trigger] es[j]).1 <= u32::MAX,
            decreases n - k,
        {
            if parsed[k].1 > 0xffff_ffffu64 {
                assert(es[k as int].1 > u32::MAX);
                return Err(LoadError::InvalidJson);
            }
            k += 1;
        }
        assert(es.subrange(0, n as int) =~= es);
        let mut trie = TrieNode::new();
        let mut dict: WordMap<u32> = WordMap::new();
        let mut new_forms: Vec<(String, String)> = Vec::new();
        let mut i: usize = 0;
        proof {
            assert(es.subrange(0, 0) =~= Seq::<(Seq<char>, u64)>::empty());
            assert(dict@ =~= dict_fold(es.subrange(0, 0)));
            assert(pairs_view(new_forms@) =~= Seq::<(Seq<char>, Seq<char>)>::empty());
        }
        while i < n
            invariant
                n == parsed@.len(),
                es == counts_view(parsed@),
                json_counts(json_data@) == Some(es),
                *self == *old(self),
                old(self).wf(),
                all_u32(es),
                i <= n,
                trie.wf(),
                dict.wf(),
                dict@ == dict_fold(es.subrange(0, i as int)),
                forall|b: Map<Seq<char>, Seq<char>>|
                    #[trigger] forms_fold(b, es.subrange(0, i as int)) == insert_pairs(
                        b,
                        pairs_view(new_forms@),
                    ),
            decreases n - i,
        {
            proof {
                assert(es.subrange(0, i as int + 1).drop_last() =~= es.subrange(0, i as int));
                assert(es.subrange(0, i as int + 1).last() == es[i as int]);
            }
            let word = parsed[i].0.as_str();
            let freq = parsed[i].1 as u32;
            let trimmed = trim(word);
            let ghost before = pairs_view(new_forms@);
            if trimmed.unicode_len() > 0 {
                let lower = to_lower(trimmed);
                trie.insert(lower.as_str(), freq);
                dict.insert(lower, freq);
                if should_preserve_canonical(trimmed) {
                    let key = normalize_for_lookup(trimmed);
                    let form = owned(trimmed);
                    new_forms.push((key, form));
                    proof {
                        assert(pairs_view(new_forms@).drop_last() =~= before);
                    }
                }
            }
            proof {
                assert forall|b: Map<Seq<char>, Seq<char>>|
                    #[trigger] forms_fold(b, es.subrange(0, i as int + 1)) == insert_pairs(
                        b,
                        pairs_view(new_forms@),
                    ) by {
                    assert(forms_fold(b, es.subrange(0, i as int)) == insert_pairs(b, before));
                }
            }
            i += 1;
        }
        assert(es.subrange(0, n as int) =~= es);
        let (ngrams, mut forms) = self.take_language(lang);
        let ghost base = text_map(forms@);
        let m = new_forms.len();
        let mut j: usize = 0;
        let ghost pv = pairs_view(new_forms@);
        proof {
            assert(pv.subrange(0, 0) =~= Seq::<(Seq<char>, Seq<char>)>::empty());
        }
        while j < m
            invariant
                m == new_forms@.len(),
                pv == pairs_view(new_forms@),
                j <= m,
                forms.wf(),
                text_map(forms@) == insert_pairs(base, pv.subrange(0, j as int)),
            decreases m - j,
        {
            let key = new_forms[j].0.clone();
            let form = new_forms[j].1.clone();
            proof {
                lemma_text_map_insert(forms@, key@, form);
                assert(pv.subrange(0, j as int + 1).drop_last() =~= pv.subrange(0, j as int));
            }
            forms.insert(key, form);
            j += 1;
        }
        assert(pv.subrange(0, m as int) =~= pv);
        let ld = LanguageDictionary {
            trie,
            binary_trie: None,
            dict,
            ngrams,
            canonical_forms: forms,
        };
        self.put_language(lang, ld);
        proof {
            assert(self.languages()@.remove(lang@) =~= old(self).languages()@.remove(lang@));
        }
        Ok(())
    }
}

impl NlpEngine {
    /// Loads a dictionary file as the dictionary of `en_US`.
    pub fn load_dictionary_binary(&mut self, data: &[u8]) -> (r: Result<(), LoadError>)
        requires
            old(self).wf(),
        ensures
            final(self).wf(),
            file_loaded(*old(self), *final(self), default_lang(), data@, r),
    {
        proof {
            reveal_strlit("en_US");
            assert("en_US"@ =~= default_lang());
        }
        self.load_dictionary_binary_for_language("en_US", data)
    }

    /// Loads a dictionary file as the dictionary of `lang`: the trie itself, a word map of
    /// up to 100000 of its words in lower case, and its canonical forms filed over those
    /// already loaded.
    pub fn load_dictionary_binary_for_language(&mut self, lang: &str, data: &[u8]) -> (r: Result<
        (),
        LoadError,
    >)
        requires
            old(self).wf(),
        ensures
            final(self).wf(),
            file_loaded(*old(self), *final(self), lang@, data@, r),
    {
        let trie = match BinaryTrie::deserialize(data) {
            Ok(t) => t,
            Err(e) => {
                return Err(LoadError::InvalidDictionary(e));
            },
        };
        let mut words: Vec<(String, u8)> = Vec::new();
        proof {
            reveal_strlit("");
            assert(""@ =~= Seq::<char>::empty());
        }
        trie.collect_words(0, "", &mut words, MAX_LOADED_WORDS);
        proof {
            assert(results_view(Seq::<(String, u8)>::empty()) =~= Seq::<(Seq<char>, u8)>::empty());
        }
        let ghost wv = results_view(words@);
        let mut dict: WordMap<u32> = WordMap::new();
        let n = words.len();
        let mut i: usize = 0;
        proof {
            assert(wv.subrange(0, 0) =~= Seq::<(Seq<char>, u8)>::empty());
            assert(dict@ =~= words_fold(wv.subrange(0, 0)));
        }
        while i < n
            invariant
                n == words@.len(),
                wv == results_view(words@),
                i <= n,
                dict.wf(),
                dict@ == words_fold(wv.subrange(0, i as int)),
            decreases n - i,
        {
            proof {
                assert(wv.subrange(0, i as int + 1).drop_last() =~= wv.subrange(0, i as int));
            }
            let lower = to_lower(words[i].0.as_str());
            dict.insert(lower, words[i].1 as u32);
            i += 1;
        }
        assert(wv.subrange(0, n as int) =~= wv);
        let pairs = trie.canonical_forms().pairs();
        let (ngrams, mut forms) = self.take_language(lang);
        let ghost base = text_map(forms@);
        let ghost pv = pairs_view(pairs@);
        let m = pairs.len();
        let mut j: usize = 0;
        proof {
            assert(pv.subrange(0, 0) =~= Seq::<(Seq<char>, Seq<char>)>::empty());
        }
        while j < m
            invariant
                m == pairs@.len(),
                pv == pairs_view(pairs@),
                j <= m,
                forms.wf(),
                text_map(forms@) == insert_pairs(base, pv.subrange(0, j as int)),
            decreases m - j,
        {
            let key = pairs[j].0.clone();
            let form = pairs[j].1.clone();
            proof {
                lemma_text_map_insert(forms@, key@, form);
                assert(pv.subrange(0, j as int + 1).drop_last() =~= pv.subrange(0, j as int));
            }
            forms.insert(key, form);
            j += 1;
        }
        assert(pv.subrange(0, m as int) =~= pv);
        let ld = LanguageDictionary {
            trie: TrieNode::new(),
            binary_trie: Some(trie),
            dict,
            ngrams,
            canonical_forms: forms,
        };
        self.put_language(lang, ld);
        proof {
            assert(self.languages()@.remove(lang@) =~= old(self).languages()@.remove(lang@));
        }
        Ok(())
    }
}

pub open spec fn ascii_lower(c: char) -> char {
    if 'A' <= c <= 'Z' {
        ((c as u32) + 32) as char
    } else {
        c
    }
}

/// Equal up to the case of ASCII letters.
pub open spec fn eq_ignore_ascii_case(a: Seq<char>, b: Seq<char>) -> bool {
    a.len() == b.len() && forall|i: int| 0 <= i < a.len() ==> ascii_lower(#[trigger] a[i]) == ascii_lower(b[i])
}

/// Relies on `char::to_ascii_lowercase`: `A` to `Z` become `a` to `z`, all else is kept.
#[verifier::external_body]
fn ascii_lower_char(c: char) -> (r: char)
    ensures
        r == ascii_lower(c),
{
    c.to_ascii_lowercase()
}

fn chars_eq_ignore_ascii_case(a: &Vec<char>, b: &Vec<char>) -> (r: bool)
    ensures
        r == eq_ignore_ascii_case(a@, b@),
{
    if a.len() != b.len() {
        return false;
    }
    let mut i: usize = 0;
    while i < a.len()
        invariant
            a@.len() == b@.len(),
            i <= a@.len(),
            forall|k: int| 0 <= k < i ==> ascii_lower(#[trigger] a@[k]) == ascii_lower(b@[k]),
        decreases a.len() - i,
    {
        if ascii_lower_char(a[i]) != ascii_lower_char(b[i]) {
            return false;
        }
        i += 1;
    }
    true
}

/// Confidence of a completion: 0.6 of its frequency score, 0.2 of its context score, the
/// source bonus and 0.3, plus 1.0 when it equals what was typed.
pub open spec fn completion_conf(freq: u8, ctx: i64, bonus: i64, exact: bool) -> i64 {
    ((6 * freq_score_spec(freq as u32)) / 10 + (2 * ctx) / 10 + bonus + 3000 + if exact {
        EXACT_MATCH_BONUS
    } else {
        0
    }) as i64
}

/// Completions from collected trie words.
pub open spec fn completion_cands(
    ws: Seq<(Seq<char>, u8)>,
    typed: Seq<char>,
    forms: Map<Seq<char>, String>,
    cmap: Map<Seq<char>, WordMap<u32>>,
    ctx: Seq<Seq<char>>,
    bonus: i64,
    typed_valid: bool,
) -> Seq<SuggestionView>
    decreases ws.len(),
{
    if ws.len() == 0 {
        Seq::empty()
    } else {
        let rest = completion_cands(ws.drop_last(), typed, forms, cmap, ctx, bonus, typed_valid);
        let (w, f) = ws.last();
        let exact = eq_ignore_ascii_case(w, typed);
        let conf = completion_conf(f, ctx_score(cmap, w, ctx), bonus, exact);
        let auto = !typed_valid && !exact && conf >= 7000 && f >= 100;
        rest.push((display_form(w, typed, forms), conf, auto))
    }
}

/// Most words collected from one trie for a completion.
pub const MAX_TRIE_HITS: usize = 100;

/// The words under the node that `prefix` reaches, at most 100.
pub open spec fn trie_hits(nodes: Seq<BinaryTrieNode>, prefix: Seq<char>) -> Seq<(Seq<char>, u8)> {
    match walk(nodes, codes_of(prefix)) {
        Some(i) => capped(Seq::empty(), words_at(nodes, i, prefix), MAX_TRIE_HITS as nat),
        None => Seq::empty(),
    }
}

/// Penalty for a correction `d` edits away: none for one, 0.2 for two, 0.4 beyond.
pub open spec fn dist_penalty(d: nat) -> i64 {
    if d == 1 {
        0
    } else if d == 2 {
        2000
    } else {
        4000
    }
}

/// Typo corrections for `n` among `keys` (frequencies `vals`): words that do not extend
/// `n`, one or two edits away.
pub open spec fn typo_cands(
    keys: Seq<Seq<char>>,
    vals: Seq<u32>,
    n: Seq<char>,
    typed: Seq<char>,
    forms: Map<Seq<char>, String>,
    cmap: Map<Seq<char>, WordMap<u32>>,
    ctx: Seq<Seq<char>>,
    bonus: i64,
    min_freq: u32,
) -> Seq<SuggestionView>
    decreases keys.len(),
{
    if keys.len() == 0 || vals.len() != keys.len() {
        Seq::empty()
    } else {
        let rest = typo_cands(
            keys.drop_last(),
            vals.drop_last(),
            n,
            typed,
            forms,
            cmap,
            ctx,
            bonus,
            min_freq,
        );
        let c = keys.last();
        let f = vals.last();
        if is_prefix_of(n, c) || !within_reach(n, c) || edit_dist(n, c) == 0 {
            rest
        } else {
            let d = edit_dist(n, c);
            let conf = ((7 * freq_score_spec(f)) / 10 + (2 * ctx_score(cmap, c, ctx)) / 10
                - dist_penalty(d) + bonus) as i64;
            let auto = conf >= 6500 && f >= min_freq && d <= 1;
            rest.push((display_form(c, typed, forms), conf, auto))
        }
    }
}

impl NlpEngine {
    /// The main store's trie words under `n`: the dictionary file's trie if one is loaded,
    /// else the trie built from JSON.
    pub open spec fn main_hits(&self, n: Seq<char>) -> Seq<(Seq<char>, u8)> {
        match self.active() {
            Some(ld) => match ld.binary_trie {
                Some(b) => trie_hits(b.node_seq(), n),
                None => ld.trie.hits(n, MAX_TRIE_HITS as nat),
            },
            None => Seq::empty(),
        }
    }

    /// The candidates `suggest` ranks, in order of arrival.
    pub open spec fn suggest_cands(&self, prefix: Seq<char>, ctx: Seq<Seq<char>>) -> Seq<
        SuggestionView,
    > {
        let n = lower_of(prefix);
        let nk = lookup_key(n);
        let forms = self.forms();
        let cmap = self.contexts()@;
        let typed_valid = self.main_dict().contains_key(n) || self.personal()@.contains_key(n);
        let canon = if forms.contains_key(nk) {
            let f = count_or(self.main_dict(), lower_of(forms[nk]@), 200);
            seq![(forms[nk]@, (freq_score_spec(f) + 3000 + EXACT_MATCH_BONUS) as i64, true)]
        } else {
            Seq::empty()
        };
        let personal = completion_cands(
            self.personal_trie().hits(n, MAX_TRIE_HITS as nat),
            prefix,
            forms,
            cmap,
            ctx,
            PERSONAL_BONUS,
            typed_valid,
        );
        let main = completion_cands(self.main_hits(n), prefix, forms, cmap, ctx, 0, typed_valid);
        let typos = if typed_valid || n.len() < 2 {
            Seq::empty()
        } else {
            typo_cands(self.main_keys(), self.main_vals(), n, prefix, forms, cmap, ctx, 0, 100)
                + typo_cands(
                self.personal().keys(),
                self.personal().vals(),
                n,
                prefix,
                forms,
                cmap,
                ctx,
                PERSONAL_BONUS,
                50,
            )
        };
        canon + personal + main + typos
    }
}

pub open spec fn count_or(m: Map<Seq<char>, u32>, k: Seq<char>, d: u32) -> u32 {
    if m.contains_key(k) { m[k] } else { d }
}

impl NlpEngine {
    fn push_completions(
        &self,
        words: &Vec<(String, u8)>,
        typed: &str,
        forms: &WordMap<String>,
        context: &[String],
        bonus: i64,
        typed_valid: bool,
        out: &mut Vec<Suggestion>,
    )
        requires
            self.wf(),
            forms.wf(),
            0 <= bonus <= PERSONAL_BONUS,
        ensures
            sviews(final(out)@) == sviews(old(out)@) + completion_cands(
                results_view(words@),
                typed@,
                forms@,
                self.contexts()@,
                texts(context@),
                bonus,
                typed_valid,
            ),
    {
        let ghost wv = results_view(words@);
        let tv = chars_of(typed);
        let n = words.len();
        let mut i: usize = 0;
        while i < n
            invariant
                self.wf(),
                forms.wf(),
                0 <= bonus <= PERSONAL_BONUS,
                n == words@.len(),
                wv == results_view(words@),
                tv@ == typed@,
                i <= n,
                sviews(out@) == sviews(old(out)@) + completion_cands(
                    wv.subrange(0, i as int),
                    typed@,
                    forms@,
                    self.contexts()@,
                    texts(context@),
                    bonus,
                    typed_valid,
                ),
            decreases n - i,
        {
            proof {
                assert(wv.subrange(0, i as int + 1).drop_last() =~= wv.subrange(0, i as int));
            }
            let word = words[i].0.as_str();
            let freq = words[i].1;
            let display = format_with_canonical(word, typed, forms);
            let wc = chars_of(word);
            let exact = chars_eq_ignore_ascii_case(&wc, &tv);
            let ctx = context_score(&self.context_map, word, context);
            let mut conf = (6 * frequency_score(freq as u32)) / 10 + (2 * ctx) / 10 + bonus + 3000;
            if exact {
                conf = conf + EXACT_MATCH_BONUS;
            }
            let auto = !typed_valid && !exact && conf >= 7000 && freq >= 100;
            let ghost before = sviews(out@);
            out.push(Suggestion { text: display, confidence: conf, is_eligible_for_auto_commit: auto });
            assert(sviews(out@) =~= before.push((display@, conf, auto)));
            i += 1;
        }
        assert(wv.subrange(0, n as int) =~= wv);
    }

    fn collect_from_trie(
        &self,
        trie: &BinaryTrie,
        n: &str,
        typed: &str,
        forms: &WordMap<String>,
        context: &[String],
        bonus: i64,
        typed_valid: bool,
        out: &mut Vec<Suggestion>,
    )
        requires
            self.wf(),
            trie.wf(),
            forms.wf(),
            0 <= bonus <= PERSONAL_BONUS,
        ensures
            sviews(final(out)@) == sviews(old(out)@) + completion_cands(
                trie_hits(trie.node_seq(), n@),
                typed@,
                forms@,
                self.contexts()@,
                texts(context@),
                bonus,
                typed_valid,
            ),
    {
        match trie.search_prefix(n) {
            Some(idx) => {
                proof {
                    crate::binary_trie::lemma_walk_in_bounds(trie.node_seq(), codes_of(n@));
                }
                let mut words: Vec<(String, u8)> = Vec::new();
                trie.collect_words(idx, n, &mut words, MAX_TRIE_HITS);
                proof {
                    assert(results_view(Seq::<(String, u8)>::empty()) =~= Seq::<(Seq<char>, u8)>::empty());
                }
                self.push_completions(&words, typed, forms, context, bonus, typed_valid, out);
            },
            None => {
                assert(sviews(out@) =~= sviews(old(out)@) + Seq::<SuggestionView>::empty());
            },
        }
    }

    fn typo_sweep(
        &self,
        map: &WordMap<u32>,
        n: &Vec<char>,
        typed: &str,
        forms: &WordMap<String>,
        context: &[String],
        bonus: i64,
        min_freq: u32,
        out: &mut Vec<Suggestion>,
    )
        requires
            self.wf(),
            map.wf(),
            forms.wf(),
            0 <= bonus <= PERSONAL_BONUS,
        ensures
            sviews(final(out)@) == sviews(old(out)@) + typo_cands(
                map.keys(),
                map.vals(),
                n@,
                typed@,
                forms@,
                self.contexts()@,
                texts(context@),
                bonus,
                min_freq,
            ),
    {
        let len = map.len();
        let mut i: usize = 0;
        while i < len
            invariant
                self.wf(),
                map.wf(),
                forms.wf(),
                0 <= bonus <= PERSONAL_BONUS,
                len == map.keys().len(),
                i <= len,
                sviews(out@) == sviews(old(out)@) + typo_cands(
                    map.keys().subrange(0, i as int),
                    map.vals().subrange(0, i as int),
                    n@,
                    typed@,
                    forms@,
                    self.contexts()@,
                    texts(context@),
                    bonus,
                    min_freq,
                ),
            decreases len - i,
        {
            let cand = map.key_at(i);
            let freq = *map.value_at(i);
            let cv = chars_of(cand.as_str());
            proof {
                assert(map.keys().subrange(0, i as int + 1).drop_last() =~= map.keys().subrange(
                    0,
                    i as int,
                ));
                assert(map.vals().subrange(0, i as int + 1).drop_last() =~= map.vals().subrange(
                    0,
                    i as int,
                ));
                assert(map.keys().subrange(0, i as int + 1).last() == map.keys()[i as int]);
                assert(map.vals().subrange(0, i as int + 1).last() == map.vals()[i as int]);
            }
            if !starts_with(&cv, n) && n.len() < usize::MAX - cv.len() {
                let d = edit_distance_chars(n, &cv);
                if d > 0 && d <= 2 {
                    let display = format_with_canonical(cand.as_str(), typed, forms);
                    let ctx = context_score(&self.context_map, cand.as_str(), context);
                    let penalty: i64 = if d == 1 { 0 } else { 2000 };
                    let conf = (7 * frequency_score(freq)) / 10 + (2 * ctx) / 10 - penalty + bonus;
                    let auto = conf >= 6500 && freq >= min_freq && d <= 1;
                    let ghost before = sviews(out@);
                    out.push(Suggestion { text: display, confidence: conf, is_eligible_for_auto_commit: auto });
                    assert(sviews(out@) =~= before.push((display@, conf, auto)));
                }
            }
            i += 1;
        }
        assert(map.keys().subrange(0, len as int) =~= map.keys());
        assert(map.vals().subrange(0, len as int) =~= map.vals());
    }

    /// Up to `max_count` suggestions for the typed `prefix`: its canonical form, personal
    /// and dictionary completions, and, when the prefix is not itself a word, corrections;
    /// ranked by confidence with one entry per lookup key. Prefixes shorter than two
    /// characters get none.
    pub fn suggest(&self, prefix: &str, context: &[String], max_count: usize) -> (r: Vec<Suggestion>)
        requires
            self.wf(),
        ensures
            prefix@.len() < MIN_WORD_LENGTH ==> r@.len() == 0,
            prefix@.len() >= MIN_WORD_LENGTH ==> sviews(r@) == select(
                self.suggest_cands(prefix@, texts(context@)),
                Set::empty(),
                max_count as nat,
            ),
    {
        if prefix.unicode_len() < MIN_WORD_LENGTH {
            return Vec::new();
        }
        let normalized = to_lower(prefix);
        let nv = chars_of(normalized.as_str());
        let nk = normalize_for_lookup(normalized.as_str());
        let typed_valid = self.in_dicts(self.active_dict(), normalized.as_str());
        let empty_forms: WordMap<String> = WordMap::new();
        let empty_dict: WordMap<u32> = WordMap::new();
        let active = self.active_dict();
        let forms: &WordMap<String> = match active {
            Some(ld) => &ld.canonical_forms,
            None => &empty_forms,
        };
        let mut cands: Vec<Suggestion> = Vec::new();
        match forms.get(nk.as_str()) {
            Some(canonical) => {
                let key = to_lower(canonical.as_str());
                let f: u32 = match active {
                    Some(ld) => match ld.dict.get(key.as_str()) {
                        Some(f) => *f,
                        None => 200,
                    },
                    None => 200,
                };
                let conf = frequency_score(f) + 3000 + EXACT_MATCH_BONUS;
                cands.push(Suggestion { text: canonical.clone(), confidence: conf, is_eligible_for_auto_commit: true });
            },
            None => {},
        }
        let personal_words = self.personal_trie.collect_words(normalized.as_str(), MAX_TRIE_HITS);
        self.push_completions(&personal_words, prefix, forms, context, PERSONAL_BONUS, typed_valid, &mut cands);
        match active {
            Some(ld) => match &ld.binary_trie {
                Some(bt) => {
                    self.collect_from_trie(bt, normalized.as_str(), prefix, forms, context, 0, typed_valid, &mut cands);
                },
                None => {
                    let words = ld.trie.collect_words(normalized.as_str(), MAX_TRIE_HITS);
                    self.push_completions(&words, prefix, forms, context, 0, typed_valid, &mut cands);
                },
            },
            None => {},
        }
        if !typed_valid && nv.len() >= 2 {
            let main_map: &WordMap<u32> = match active {
                Some(ld) => &ld.dict,
                None => &empty_dict,
            };
            self.typo_sweep(main_map, &nv, prefix, forms, context, 0, 100, &mut cands);
            self.typo_sweep(&self.personal_dict, &nv, prefix, forms, context, PERSONAL_BONUS, 50, &mut cands);
        }
        proof {
            assert(sviews(cands@) =~= self.suggest_cands(prefix@, texts(context@)));
        }
        rank(cands, max_count)
    }
}

pub open spec fn sat_u64(x: int) -> u64 {
    if x > u64::MAX { u64::MAX } else { x as u64 }
}

/// `freq * weight * factor`, at most `u64::MAX`.
pub open spec fn weighted_spec(freq: u32, weight: nat, factor: u64) -> u64 {
    sat_u64(freq * weight * factor)
}

/// The first candidate with lookup key `key`.
pub open spec fn first_with_key(cands: Seq<(Seq<char>, u64)>, key: Seq<char>) -> Option<int>
    decreases cands.len(),
{
    if cands.len() == 0 {
        None
    } else {
        match first_with_key(cands.drop_last(), key) {
            Some(j) => Some(j),
            None => if lookup_key(cands.last().0) == key {
                Some(cands.len() - 1)
            } else {
                None
            },
        }
    }
}

/// Adds `score` for `word`: a word of the context is skipped; the word is shown in its
/// canonical form where it has one, and merged with a candidate of the same lookup key.
pub open spec fn pn_add(
    cands: Seq<(Seq<char>, u64)>,
    word: Seq<char>,
    score: u64,
    seen: Seq<Seq<char>>,
    forms: Map<Seq<char>, String>,
) -> Seq<(Seq<char>, u64)> {
    if seen.contains(lower_of(word)) {
        cands
    } else {
        let display = if forms.contains_key(lookup_key(word)) {
            forms[lookup_key(word)]@
        } else {
            word
        };
        match first_with_key(cands, lookup_key(display)) {
            Some(j) => cands.update(j, (cands[j].0, sat_u64(cands[j].1 + score))),
            None => cands.push((display, score)),
        }
    }
}

/// Adds every follower in `keys` (counts `vals`) with its weighted count.
pub open spec fn pn_followers(
    cands: Seq<(Seq<char>, u64)>,
    keys: Seq<Seq<char>>,
    vals: Seq<u32>,
    weight: nat,
    factor: u64,
    seen: Seq<Seq<char>>,
    forms: Map<Seq<char>, String>,
) -> Seq<(Seq<char>, u64)>
    decreases keys.len(),
{
    if keys.len() == 0 || vals.len() != keys.len() {
        cands
    } else {
        pn_add(
            pn_followers(cands, keys.drop_last(), vals.drop_last(), weight, factor, seen, forms),
            keys.last(),
            weighted_spec(vals.last(), weight, factor),
            seen,
            forms,
        )
    }
}

pub open spec fn lowered(ctx: Seq<Seq<char>>) -> Seq<Seq<char>> {
    ctx.map_values(|w: Seq<char>| lower_of(w))
}

/// The n-gram followers of the active language.
pub open spec fn active_ngrams(e: NlpEngine) -> Map<Seq<char>, WordMap<u32>> {
    match e.active() {
        Some(ld) => ld.ngrams@,
        None => Map::empty(),
    }
}

/// Candidates after the `k` context words nearest the end: learned followers weigh ten
/// times their count, n-gram followers their count, both times the word's weight.
pub open spec fn pn_context(e: NlpEngine, ctx: Seq<Seq<char>>, k: nat) -> Seq<(Seq<char>, u64)>
    decreases k,
{
    if k == 0 {
        Seq::empty()
    } else {
        let acc = pn_context(e, ctx, (k - 1) as nat);
        let i = k - 1;
        let weight = (ctx.len() - i) as nat;
        let prev = lower_of(ctx[ctx.len() - 1 - i]);
        let cmap = e.contexts()@;
        let ng = active_ngrams(e);
        let acc1 = if cmap.contains_key(prev) {
            pn_followers(acc, cmap[prev].keys(), cmap[prev].vals(), weight, 10, lowered(ctx), e.forms())
        } else {
            acc
        };
        if ng.contains_key(prev) {
            pn_followers(acc1, ng[prev].keys(), ng[prev].vals(), weight, 1, lowered(ctx), e.forms())
        } else {
            acc1
        }
    }
}

pub open spec fn as_views(c: Seq<(Seq<char>, u64)>) -> Seq<SuggestionView> {
    c.map_values(|x: (Seq<char>, u64)| (x.0, if x.1 > i64::MAX { i64::MAX } else { x.1 as i64 }, false))
}

/// Confidences relative to the best: `score / top`, at most 1.0.
pub open spec fn relative(s: Seq<SuggestionView>) -> Seq<SuggestionView> {
    s.map_values(|x: SuggestionView| (
        x.0,
        if s.len() == 0 || s[0].1 <= 0 || x.1 <= 0 {
            0
        } else {
            let q: int = (x.1 * SCALE) / (s[0].1 as int);
            if q >= SCALE { SCALE } else if q <= 0 { 0 } else { q as i64 }
        },
        false,
    ))
}

fn sat_add_u64(a: u64, b: u64) -> (r: u64)
    ensures
        r == sat_u64(a + b),
{
    if a > u64::MAX - b { u64::MAX } else { a + b }
}

fn weighted(freq: u32, weight: usize, factor: u64) -> (r: u64)
    requires
        factor <= 10,
    ensures
        r == weighted_spec(freq, weight as nat, factor),
{
    let w: u128 = weight as u128;
    proof {
        assert((freq as int) * (w as int) < 0x1_0000_0000 * 0x1_0000_0000_0000_0000int) by (nonlinear_arith)
            requires
                freq < 0x1_0000_0000,
                w < 0x1_0000_0000_0000_0000int,
        ;
        assert((freq as int) * (w as int) * (factor as int) <= (freq as int) * (w as int) * 10) by (nonlinear_arith)
            requires
                factor <= 10,
                (freq as int) * (w as int) >= 0,
        ;
    }
    let p: u128 = (freq as u128) * w * (factor as u128);
    if p > u64::MAX as u128 { u64::MAX } else { p as u64 }
}

pub open spec fn cand_view(c: Seq<(String, u64)>) -> Seq<(Seq<char>, u64)> {
    c.map_values(|x: (String, u64)| (x.0@, x.1))
}

pub open spec fn key_views(k: Seq<String>) -> Seq<Seq<char>> {
    crate::ranking::string_views(k)
}

/// The candidates' lookup keys stand beside them.
pub open spec fn keys_match(c: Seq<(Seq<char>, u64)>, k: Seq<Seq<char>>) -> bool {
    c.len() == k.len() && forall|i: int| 0 <= i < c.len() ==> #[trigger] k[i] == lookup_key(c[i].0)
}

proof fn lemma_first_with_key(c: Seq<(Seq<char>, u64)>, key: Seq<char>)
    ensures
        first_with_key(c, key) matches Some(j) ==> 0 <= j < c.len() && lookup_key(c[j].0) == key
            && forall|i: int| 0 <= i < j ==> lookup_key(#[trigger] c[i].0) != key,
        first_with_key(c, key) is None ==> forall|i: int| 0 <= i < c.len() ==> lookup_key(#[trigger] c[i].0) != key,
    decreases c.len(),
{
    if c.len() > 0 {
        lemma_first_with_key(c.drop_last(), key);
        assert forall|i: int| 0 <= i < c.len() - 1 implies c.drop_last()[i] == c[i] by {}
    }
}

impl NlpEngine {
    fn add_candidate(
        &self,
        word: &str,
        score: u64,
        seen: &Vec<String>,
        forms: &WordMap<String>,
        cands: &mut Vec<(String, u64)>,
        keys: &mut Vec<String>,
    )
        requires
            forms.wf(),
            keys_match(cand_view(old(cands)@), key_views(old(keys)@)),
        ensures
            keys_match(cand_view(final(cands)@), key_views(final(keys)@)),
            cand_view(final(cands)@) == pn_add(
                cand_view(old(cands)@),
                word@,
                score,
                key_views(seen@),
                forms@,
            ),
    {
        let lw = to_lower(word);
        proof {
            assert(key_views(seen@).to_set().contains(lw@) == key_views(seen@).contains(lw@));
        }
        if crate::ranking::contains_text(seen, &lw) {
            return;
        }
        let key0 = normalize_for_lookup(word);
        let display = match forms.get(key0.as_str()) {
            Some(f) => f.clone(),
            None => owned(word),
        };
        let key = normalize_for_lookup(display.as_str());
        proof {
            lemma_first_with_key(cand_view(cands@), key@);
        }
        let mut i: usize = 0;
        while i < keys.len()
            invariant
                keys_match(cand_view(cands@), key_views(keys@)),
                cands@ == old(cands)@,
                keys@ == old(keys)@,
                !key_views(seen@).contains(lower_of(word@)),
                display@ == (if forms@.contains_key(lookup_key(word@)) {
                    forms@[lookup_key(word@)]@
                } else {
                    word@
                }),
                key@ == lookup_key(display@),
                i <= keys@.len(),
                forall|j: int| 0 <= j < i ==> lookup_key(#[trigger] cand_view(cands@)[j].0) != key@,
            decreases keys.len() - i,
        {
            assert(key_views(keys@)[i as int] == keys@[i as int]@);
            if crate::word_map::str_eq(keys[i].as_str(), key.as_str()) {
                assert(key_views(keys@)[i as int] == key@);
                assert(first_with_key(cand_view(cands@), key@) == Some(i as int)) by {
                    lemma_first_with_key(cand_view(cands@), key@);
                    if first_with_key(cand_view(cands@), key@) != Some(i as int) {
                        if let Some(j) = first_with_key(cand_view(cands@), key@) {
                            if j > i as int {
                                assert(lookup_key(cand_view(cands@)[i as int].0) == key@);
                            }
                        }
                    }
                }
                let (t, c) = cands.remove(i);
                let total = sat_add_u64(c, score);
                cands.insert(i, (t, total));
                proof {
                    assert(cand_view(cands@) =~= cand_view(old(cands)@).update(
                        i as int,
                        (cand_view(old(cands)@)[i as int].0, sat_u64(cand_view(old(cands)@)[i as int].1 + score)),
                    ));
                    assert forall|j: int| 0 <= j < cand_view(cands@).len() implies #[trigger] key_views(keys@)[j]
                        == lookup_key(cand_view(cands@)[j].0) by {
                        assert(key_views(old(keys)@)[j] == lookup_key(cand_view(old(cands)@)[j].0));
                    }
                }
                return;
            }
            i += 1;
        }
        proof {
            lemma_first_with_key(cand_view(cands@), key@);
            if let Some(j) = first_with_key(cand_view(cands@), key@) {
                assert(lookup_key(cand_view(cands@)[j].0) != key@);
            }
        }
        let ghost dv = display@;
        cands.push((display, score));
        keys.push(key);
        proof {
            assert(cand_view(cands@) =~= cand_view(old(cands)@).push((dv, score)));
            assert(key_views(keys@) =~= key_views(old(keys)@).push(lookup_key(dv)));
        }
    }

    fn add_followers(
        &self,
        followers: &WordMap<u32>,
        weight: usize,
        factor: u64,
        seen: &Vec<String>,
        forms: &WordMap<String>,
        cands: &mut Vec<(String, u64)>,
        keys: &mut Vec<String>,
    )
        requires
            followers.wf(),
            forms.wf(),
            factor <= 10,
            keys_match(cand_view(old(cands)@), key_views(old(keys)@)),
        ensures
            keys_match(cand_view(final(cands)@), key_views(final(keys)@)),
            cand_view(final(cands)@) == pn_followers(
                cand_view(old(cands)@),
                followers.keys(),
                followers.vals(),
                weight as nat,
                factor,
                key_views(seen@),
                forms@,
            ),
    {
        let n = followers.len();
        let mut j: usize = 0;
        while j < n
            invariant
                n == followers.keys().len(),
                followers.wf(),
                forms.wf(),
                factor <= 10,
                j <= n,
                keys_match(cand_view(cands@), key_views(keys@)),
                cand_view(cands@) == pn_followers(
                    cand_view(old(cands)@),
                    followers.keys().subrange(0, j as int),
                    followers.vals().subrange(0, j as int),
                    weight as nat,
                    factor,
                    key_views(seen@),
                    forms@,
                ),
            decreases n - j,
        {
            proof {
                assert(followers.keys().subrange(0, j as int + 1).drop_last() =~= followers.keys().subrange(0, j as int));
                assert(followers.vals().subrange(0, j as int + 1).drop_last() =~= followers.vals().subrange(0, j as int));
                assert(followers.keys().subrange(0, j as int + 1).last() == followers.keys()[j as int]);
                assert(followers.vals().subrange(0, j as int + 1).last() == followers.vals()[j as int]);
            }
            let w = followers.key_at(j);
            let f = *followers.value_at(j);
            let sc = weighted(f, weight, factor);
            self.add_candidate(w.as_str(), sc, seen, forms, cands, keys);
            j += 1;
        }
        assert(followers.keys().subrange(0, n as int) =~= followers.keys());
        assert(followers.vals().subrange(0, n as int) =~= followers.vals());
    }

    /// Next-word predictions after `context`: words learned after the context words
    /// (weighted ten times) and n-gram followers, nearer words weighing more, excluding
    /// words of the context; at most `max_count`, best first, confidence relative to the
    /// best.
    pub fn predict_next_word(&self, context: &[String], max_count: usize) -> (r: Vec<Suggestion>)
        requires
            self.wf(),
        ensures
            context@.len() == 0 ==> r@.len() == 0,
            context@.len() > 0 ==> sviews(r@) == relative(
                select(
                    as_views(pn_context(*self, texts(context@), context@.len())),
                    Set::empty(),
                    max_count as nat,
                ),
            ),
    {
        let len = context.len();
        if len == 0 {
            return Vec::new();
        }
        let ghost ctx = texts(context@);
        let mut seen: Vec<String> = Vec::new();
        let mut k: usize = 0;
        while k < len
            invariant
                len == context@.len(),
                ctx == texts(context@),
                k <= len,
                key_views(seen@) == lowered(ctx).subrange(0, k as int),
            decreases len - k,
        {
            let ghost before = key_views(seen@);
            let lw = to_lower(context[k].as_str());
            seen.push(lw);
            assert(ctx[k as int] == context@[k as int]@);
            assert(key_views(seen@) =~= before.push(lower_of(ctx[k as int])));
            assert(lowered(ctx).subrange(0, k as int + 1) =~= lowered(ctx).subrange(0, k as int).push(lower_of(ctx[k as int])));
            assert(key_views(seen@) =~= lowered(ctx).subrange(0, k as int + 1));
            k += 1;
        }
        assert(lowered(ctx).subrange(0, len as int) =~= lowered(ctx));
        let empty_forms: WordMap<String> = WordMap::new();
        let active = self.active_dict();
        let forms: &WordMap<String> = match active {
            Some(ld) => &ld.canonical_forms,
            None => &empty_forms,
        };
        let mut cands: Vec<(String, u64)> = Vec::new();
        let mut keys: Vec<String> = Vec::new();
        let mut i: usize = 0;
        proof {
            assert(cand_view(cands@) =~= Seq::<(Seq<char>, u64)>::empty());
            assert(forms@ == self.forms());
        }
        while i < len
            invariant
                self.wf(),
                forms.wf(),
                forms@ == self.forms(),
                len == context@.len(),
                ctx == texts(context@),
                key_views(seen@) == lowered(ctx),
                i <= len,
                active matches Some(ld) ==> self.active() == Some(*ld),
                active is None ==> self.active() is None,
                keys_match(cand_view(cands@), key_views(keys@)),
                cand_view(cands@) == pn_context(*self, ctx, i as nat),
            decreases len - i,
        {
            let prev = context[len - 1 - i].as_str();
            let weight: usize = len - i;
            let prev_lower = to_lower(prev);
            match self.context_map.get(prev_lower.as_str()) {
                Some(followers) => {
                    proof {
                        self.context_map.lemma_key(prev_lower@);
                    }
                    self.add_followers(followers, weight, 10, &seen, forms, &mut cands, &mut keys);
                },
                None => {},
            }
            match active {
                Some(ld) => match ld.ngrams.get(prev_lower.as_str()) {
                    Some(followers) => {
                        self.add_followers(followers, weight, 1, &seen, forms, &mut cands, &mut keys);
                    },
                    None => {},
                },
                None => {},
            }
            i += 1;
        }
        let mut sugg: Vec<Suggestion> = Vec::new();
        let mut j: usize = 0;
        while j < cands.len()
            invariant
                j <= cands@.len(),
                sviews(sugg@) == as_views(cand_view(cands@)).subrange(0, j as int),
            decreases cands.len() - j,
        {
            let sc = cands[j].1;
            let conf: i64 = if sc > i64::MAX as u64 { i64::MAX } else { sc as i64 };
            let ghost before = sviews(sugg@);
            let t = cands[j].0.clone();
            sugg.push(Suggestion { text: t, confidence: conf, is_eligible_for_auto_commit: false });
            assert(as_views(cand_view(cands@))[j as int] == (cands@[j as int].0@, conf, false));
            assert(sviews(sugg@) =~= before.push((t@, conf, false)));
            assert(sviews(sugg@) =~= as_views(cand_view(cands@)).subrange(0, j as int + 1));
            j += 1;
        }
        assert(as_views(cand_view(cands@)).subrange(0, j as int) =~= as_views(cand_view(cands@)));
        let ranked = rank(sugg, max_count);
        let ghost rv = sviews(ranked@);
        let mut out: Vec<Suggestion> = Vec::new();
        if ranked.len() == 0 {
            assert(sviews(out@) =~= relative(rv));
            return out;
        }
        let top = ranked[0].confidence;
        let mut q: usize = 0;
        while q < ranked.len()
            invariant
                q <= ranked@.len(),
                rv == sviews(ranked@),
                rv.len() > 0,
                top == rv[0].1,
                sviews(out@) == relative(rv).subrange(0, q as int),
            decreases ranked.len() - q,
        {
            let sc = ranked[q].confidence;
            let conf: i64 = if top <= 0 || sc <= 0 {
                0
            } else {
                proof {
                    assert(rv[q as int].1 == sc);
                }
                let v: i128 = (sc as i128) * 10000i128 / (top as i128);
                if v >= 10000 { SCALE } else if v <= 0 { 0 } else { v as i64 }
            };
            let t = ranked[q].text.clone();
            let ghost before = sviews(out@);
            out.push(Suggestion { text: t, confidence: conf, is_eligible_for_auto_commit: false });
            assert(rv[q as int].0 == t@);
            assert(relative(rv)[q as int] == (t@, conf, false));
            assert(sviews(out@) =~= before.push((t@, conf, false)));
            assert(sviews(out@) =~= relative(rv).subrange(0, q as int + 1));
            q += 1;
        }
        assert(relative(rv).subrange(0, q as int) =~= relative(rv));
        out
    }
}

/// Suggestions never outnumber the requested count, and no two share a lookup key.
pub proof fn lemma_suggest_cap(e: NlpEngine, prefix: Seq<char>, ctx: Seq<Seq<char>>, k: nat)
    ensures
        select(e.suggest_cands(prefix, ctx), Set::empty(), k).len() <= k,
        crate::ranking::keys_of(select(e.suggest_cands(prefix, ctx), Set::empty(), k)).no_duplicates(),
{
    crate::ranking::lemma_select_distinct(e.suggest_cands(prefix, ctx), Set::empty(), k);
}

/// Learning a word raises its personal frequency until it reaches 255, where it stays.
pub proof fn lemma_learn_monotone(personal: Map<Seq<char>, u32>, w: Seq<char>)
    ensures
        count_in(personal, w) < MAX_PERSONAL_FREQ ==> learned_freq(personal, w) > count_in(
            personal,
            w,
        ),
        learned_freq(personal, w) <= MAX_PERSONAL_FREQ,
        count_in(personal, w) <= MAX_PERSONAL_FREQ ==> learned_freq(personal, w) >= count_in(
            personal,
            w,
        ),
{
}

/// Spell-checking depends on the engine's state and the arguments alone: two checks of the
/// same word on the same state agree.
pub proof fn lemma_spell_check_deterministic(
    e: NlpEngine,
    word: Seq<char>,
    ctx: Seq<Seq<char>>,
    max: nat,
    r1: (bool, bool, Seq<Seq<char>>),
    r2: (bool, bool, Seq<Seq<char>>),
)
    requires
        r1 == e.spell_check_spec(word, ctx, max),
        r2 == e.spell_check_spec(word, ctx, max),
    ensures
        r1 == r2,
{
}

/// A word whose lower-case form is in the main or personal dictionary is reported valid,
/// whatever its case.
pub proof fn lemma_known_spell_check(e: NlpEngine, word: Seq<char>, ctx: Seq<Seq<char>>, max: nat)
    requires
        lower_of(word).len() > 0,
        e.main_dict().contains_key(lower_of(word)) || e.personal()@.contains_key(lower_of(word)),
    ensures
        e.spell_check_spec(word, ctx, max).0,
{
}

/// Counts from JSON entries, each fitting in 32 bits.
pub open spec fn counts_fold(es: Seq<(Seq<char>, u64)>) -> Map<Seq<char>, u32>
    decreases es.len(),
{
    if es.len() == 0 {
        Map::empty()
    } else {
        counts_fold(es.drop_last()).insert(es.last().0, es.last().1 as u32)
    }
}

pub open spec fn nested_all_u32(es: Seq<(Seq<char>, Seq<(Seq<char>, u64)>)>) -> bool {
    forall|i: int| 0 <= i < es.len() ==> all_u32((#[trigger] es[i]).1)
}

/// Follower counts from JSON entries.
pub open spec fn nested_fold(es: Seq<(Seq<char>, Seq<(Seq<char>, u64)>)>) -> Map<
    Seq<char>,
    Map<Seq<char>, u32>,
>
    decreases es.len(),
{
    if es.len() == 0 {
        Map::empty()
    } else {
        nested_fold(es.drop_last()).insert(es.last().0, counts_fold(es.last().1))
    }
}

/// Personal frequencies after importing entries: each word in lower case.
pub open spec fn import_fold(base: Map<Seq<char>, u32>, es: Seq<(Seq<char>, u64)>) -> Map<
    Seq<char>,
    u32,
>
    decreases es.len(),
{
    if es.len() == 0 {
        base
    } else {
        import_fold(base, es.drop_last()).insert(lower_of(es.last().0), es.last().1 as u32)
    }
}

fn build_counts(v: &Vec<(String, u64)>) -> (r: Option<WordMap<u32>>)
    ensures
        r is Some <==> all_u32(counts_view(v@)),
        r matches Some(m) ==> m.wf() && m@ == counts_fold(counts_view(v@)),
{
    let ghost es = counts_view(v@);
    let mut m: WordMap<u32> = WordMap::new();
    let n = v.len();
    let mut i: usize = 0;
    proof {
        assert(es.subrange(0, 0) =~= Seq::<(Seq<char>, u64)>::empty());
        assert(m@ =~= counts_fold(es.subrange(0, 0)));
    }
    while i < n
        invariant
            n == v@.len(),
            es == counts_view(v@),
            i <= n,
            m.wf(),
            m@ == counts_fold(es.subrange(0, i as int)),
            forall|j: int| 0 <= j < i ==> (#[trigger] es[j]).1 <= u32::MAX,
        decreases n - i,
    {
        if v[i].1 > 0xffff_ffffu64 {
            assert(es[i as int].1 > u32::MAX);
            return None;
        }
        proof {
            assert(es.subrange(0, i as int + 1).drop_last() =~= es.subrange(0, i as int));
        }
        m.insert(v[i].0.clone(), v[i].1 as u32);
        i += 1;
    }
    assert(es.subrange(0, n as int) =~= es);
    Some(m)
}

fn build_nested(v: &Vec<(String, Vec<(String, u64)>)>) -> (r: Option<WordMap<WordMap<u32>>>)
    ensures
        r is Some <==> nested_all_u32(crate::json::nested_view(v@)),
        r matches Some(m) ==> nested_wf(m) && ctx_view(m) == nested_fold(crate::json::nested_view(v@)),
{
    let ghost es = crate::json::nested_view(v@);
    let mut m: WordMap<WordMap<u32>> = WordMap::new();
    let n = v.len();
    let mut i: usize = 0;
    proof {
        assert(es.subrange(0, 0) =~= Seq::<(Seq<char>, Seq<(Seq<char>, u64)>)>::empty());
        assert(ctx_view(m) =~= nested_fold(es.subrange(0, 0)));
    }
    while i < n
        invariant
            n == v@.len(),
            es == crate::json::nested_view(v@),
            i <= n,
            nested_wf(m),
            ctx_view(m) == nested_fold(es.subrange(0, i as int)),
            forall|j: int| 0 <= j < i ==> all_u32((#[trigger] es[j]).1),
        decreases n - i,
    {
        let inner = match build_counts(&v[i].1) {
            Some(c) => c,
            None => {
                assert(!all_u32(es[i as int].1));
                return None;
            },
        };
        proof {
            assert(es.subrange(0, i as int + 1).drop_last() =~= es.subrange(0, i as int));
        }
        let ghost before = m;
        let ghost iv = inner@;
        m.insert(v[i].0.clone(), inner);
        proof {
            assert forall|k: Seq<char>| #[trigger] m@.contains_key(k) implies m@[k].wf() by {
                if k != v@[i as int].0@ {
                    assert(before@.contains_key(k));
                }
            }
            assert(ctx_view(m) =~= ctx_view(before).insert(v@[i as int].0@, iv));
        }
        i += 1;
    }
    assert(es.subrange(0, n as int) =~= es);
    Some(m)
}

impl NlpEngine {
    /// Loads n-gram follower counts (a JSON object of words to objects of words to counts)
    /// for `lang`, replacing those it had and keeping its dictionary.
    pub fn load_ngrams_for_language(&mut self, lang: &str, json_data: &str) -> (r: Result<
        (),
        LoadError,
    >)
        requires
            old(self).wf(),
        ensures
            final(self).wf(),
            final(self).lang() == old(self).lang(),
            final(self).personal() == old(self).personal(),
            final(self).personal_trie() == old(self).personal_trie(),
            final(self).contexts() == old(self).contexts(),
            r is Ok <==> (json_nested_counts(json_data@) matches Some(es) && nested_all_u32(es)),
            r is Err ==> final(self).languages() == old(self).languages(),
            r is Ok ==> {
                &&& json_nested_counts(json_data@) matches Some(es)
                &&& final(self).languages()@.remove(lang@) == old(self).languages()@.remove(lang@)
                &&& final(self).ngrams_of_lang(lang@) == nested_fold(es)
                &&& final(self).forms_of_lang(lang@) == old(self).forms_of_lang(lang@)
            },
    {
        let parsed = match parse_nested_counts(json_data) {
            Ok(v) => v,
            Err(_) => {
                return Err(LoadError::InvalidJson);
            },
        };
        let ngrams = match build_nested(&parsed) {
            Some(m) => m,
            None => {
                return Err(LoadError::InvalidJson);
            },
        };
        let ld = match self.languages.remove(lang) {
            Some(old_ld) => {
                proof {
                    assert(old(self).languages()@.contains_key(lang@));
                }
                LanguageDictionary {
                    trie: old_ld.trie,
                    binary_trie: old_ld.binary_trie,
                    dict: old_ld.dict,
                    ngrams,
                    canonical_forms: old_ld.canonical_forms,
                }
            },
            None => {
                let mut fresh = LanguageDictionary::new();
                fresh.ngrams = ngrams;
                proof {
                    assert(text_map(fresh.canonical_forms@) =~= Map::<Seq<char>, Seq<char>>::empty());
                }
                fresh
            },
        };
        self.put_language(lang, ld);
        proof {
            assert(self.languages()@.remove(lang@) =~= old(self).languages()@.remove(lang@));
        }
        Ok(())
    }

    /// The personal frequencies as a JSON object.
    pub fn export_personal_dict(&self) -> (r: String)
        requires
            self.wf(),
        ensures
            r@ == counts_json(kv_pairs(self.personal().keys(), self.personal().vals())),
    {
        let pairs = self.personal_dict.count_pairs();
        counts_to_json(&pairs)
    }

    /// Imports personal frequencies from a JSON object of words to counts; each word is
    /// stored in lower case.
    pub fn import_personal_dict(&mut self, json_data: &str) -> (r: Result<(), LoadError>)
        requires
            old(self).wf(),
        ensures
            final(self).wf(),
            final(self).lang() == old(self).lang(),
            final(self).languages() == old(self).languages(),
            final(self).contexts() == old(self).contexts(),
            r is Ok <==> (json_counts(json_data@) matches Some(es) && all_u32(es)),
            r is Err ==> final(self).personal() == old(self).personal(),
            r is Err ==> final(self).personal_trie() == old(self).personal_trie(),
            r is Ok ==> (json_counts(json_data@) matches Some(es) && final(self).personal()@
                == import_fold(old(self).personal()@, es)),
    {
        let parsed = match parse_word_counts(json_data) {
            Ok(v) => v,
            Err(_) => {
                return Err(LoadError::InvalidJson);
            },
        };
        let ghost es = counts_view(parsed@);
        let n = parsed.len();
        let mut k: usize = 0;
        while k < n
            invariant
                n == parsed@.len(),
                es == counts_view(parsed@),
                json_counts(json_data@) == Some(es),
                *self == *old(self),
                old(self).wf(),
                k <= n,
                forall|j: int| 0 <= j < k ==> (#[trigger] es[j]).1 <= u32::MAX,
            decreases n - k,
        {
            if parsed[k].1 > 0xffff_ffffu64 {
                assert(es[k as int].1 > u32::MAX);
                return Err(LoadError::InvalidJson);
            }
            k += 1;
        }
        let mut i: usize = 0;
        proof {
            assert(es.subrange(0, 0) =~= Seq::<(Seq<char>, u64)>::empty());
        }
        while i < n
            invariant
                n == parsed@.len(),
                es == counts_view(parsed@),
                all_u32(es),
                i <= n,
                self.wf(),
                self.lang() == old(self).lang(),
                self.languages() == old(self).languages(),
                self.contexts() == old(self).contexts(),
                self.personal()@ == import_fold(old(self).personal()@, es.subrange(0, i as int)),
            decreases n - i,
        {
            proof {
                assert(es.subrange(0, i as int + 1).drop_last() =~= es.subrange(0, i as int));
            }
            let normalized = to_lower(parsed[i].0.as_str());
            let freq = parsed[i].1 as u32;
            self.personal_trie.insert(normalized.as_str(), freq);
            self.personal_dict.insert(normalized, freq);
            i += 1;
        }
        assert(es.subrange(0, n as int) =~= es);
        Ok(())
    }

    /// The context map as a JSON object of words to objects of followers and counts.
    pub fn export_context_map(&self) -> (r: String)
        requires
            self.wf(),
        ensures
            r@ == nested_counts_json(nested_kv(self.contexts().keys(), self.contexts().vals())),
    {
        proof {
            assert forall|i: int| 0 <= i < self.context_map.vals().len() implies (#[trigger] self.context_map.vals()[i]).wf() by {
                self.context_map.lemma_entry(i);
            }
        }
        let pairs = self.context_map.nested_pairs();
        nested_counts_to_json(&pairs)
    }

    /// Replaces the context map with one read from JSON.
    pub fn import_context_map(&mut self, json_data: &str) -> (r: Result<(), LoadError>)
        requires
            old(self).wf(),
        ensures
            final(self).wf(),
            final(self).lang() == old(self).lang(),
            final(self).languages() == old(self).languages(),
            final(self).personal() == old(self).personal(),
            final(self).personal_trie() == old(self).personal_trie(),
            r is Ok <==> (json_nested_counts(json_data@) matches Some(es) && nested_all_u32(es)),
            r is Err ==> final(self).contexts() == old(self).contexts(),
            r is Ok ==> (json_nested_counts(json_data@) matches Some(es) && ctx_view(
                final(self).contexts(),
            ) == nested_fold(es)),
    {
        let parsed = match parse_nested_counts(json_data) {
            Ok(v) => v,
            Err(_) => {
                return Err(LoadError::InvalidJson);
            },
        };
        match build_nested(&parsed) {
            Some(m) => {
                self.context_map = m;
                Ok(())
            },
            None => Err(LoadError::InvalidJson),
        }
    }
}

/// A cleared engine suggests nothing and knows no word.
pub proof fn lemma_cleared_knows_nothing(e: NlpEngine, prefix: Seq<char>, word: Seq<char>, ctx: Seq<Seq<char>>, max: nat)
    requires
        e.is_cleared(),
    ensures
        e.suggest_cands(prefix, ctx).len() == 0,
        !e.spell_check_spec(word, ctx, max).0,
{
    let n = lower_of(prefix);
    let d = e.personal_trie().inner();
    if n.len() > 0 {
        lemma_bare_path(d, n);
    } else {
        assert(n =~= Seq::<char>::empty());
        assert(keyed_edges(d, 0, n, 0) =~= Seq::<(Seq<char>, int)>::empty());
        assert(keyed_at(d, 0, n) =~= Seq::<(Seq<char>, int)>::empty());
        assert(capped(Seq::<(Seq<char>, u8)>::empty(), hit_view(d, keyed_at(d, 0, n)), MAX_TRIE_HITS as nat)
            =~= Seq::<(Seq<char>, u8)>::empty());
    }
    assert(e.suggest_cands(prefix, ctx) =~= Seq::<SuggestionView>::empty());
}

proof fn lemma_bare_path(d: DynTrieNode<u32>, t: Seq<char>)
    requires
        d.value_seq() == seq![None::<u32>],
        d.edge_seq().len() == 0,
        t.len() > 0,
    ensures
        d.path(0, t) is None,
    decreases t.len(),
{
    if t.len() > 1 {
        lemma_bare_path(d, t.drop_last());
    } else {
        assert(t.drop_last() =~= Seq::<char>::empty());
    }
}

} // verus!
