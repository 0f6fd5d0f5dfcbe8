//! Suggestions and their ranking: highest confidence first, ties in order of arrival,
//! one entry per lookup key.

use crate::canonical::{lookup_key, normalize_for_lookup};
use crate::word_map::str_eq;
use vstd::prelude::*;

verus! {

/// A proposed word with its confidence (fixed point, see `scoring::SCALE`).
pub struct Suggestion {
    pub text: String,
    pub confidence: i64,
    pub is_eligible_for_auto_commit: bool,
}

/// A suggestion as plain values: text, confidence, auto-commit eligibility.
pub type SuggestionView = (Seq<char>, i64, bool);

pub open spec fn sview(s: Suggestion) -> SuggestionView {
    (s.text@, s.confidence, s.is_eligible_for_auto_commit)
}

pub open spec fn sviews(s: Seq<Suggestion>) -> Seq<SuggestionView> {
    s.map_values(|x: Suggestion| sview(x))
}

/// The position of the first entry with the highest confidence.
pub open spec fn first_max(s: Seq<SuggestionView>) -> int
    decreases s.len(),
{
    if s.len() <= 1 {
        0
    } else {
        let m = first_max(s.drop_last());
        if s.last().1 > s[m].1 {
            s.len() - 1
        } else {
            m
        }
    }
}

/// Up to `max` entries taken from `s` by confidence, skipping an entry whose lookup key was
/// already taken or is in `seen`.
pub open spec fn select(s: Seq<SuggestionView>, seen: Set<Seq<char>>, max: nat) -> Seq<
    SuggestionView,
>
    decreases s.len(),
{
    if max == 0 || s.len() == 0 {
        Seq::empty()
    } else {
        let m = first_max(s);
        let c = s[m];
        let k = lookup_key(c.0);
        if !(0 <= m < s.len()) {
            Seq::empty()
        } else if seen.contains(k) {
            select(s.remove(m), seen, max)
        } else {
            seq![c] + select(s.remove(m), seen.insert(k), (max - 1) as nat)
        }
    }
}

pub open spec fn keys_of(s: Seq<SuggestionView>) -> Seq<Seq<char>> {
    s.map_values(|x: SuggestionView| lookup_key(x.0))
}

proof fn lemma_first_max(s: Seq<SuggestionView>)
    requires
        s.len() > 0,
    ensures
        0 <= first_max(s) < s.len(),
        forall|i: int| 0 <= i < s.len() ==> (#[trigger] s[i]).1 <= s[first_max(s)].1,
        forall|i: int| 0 <= i < first_max(s) ==> (#[trigger] s[i]).1 < s[first_max(s)].1,
    decreases s.len(),
{
    if s.len() > 1 {
        let p = s.drop_last();
        lemma_first_max(p);
        let m = first_max(s);
        assert forall|i: int| 0 <= i < s.len() implies (#[trigger] s[i]).1 <= s[m].1 by {
            if i < s.len() - 1 {
                assert(s[i] == p[i]);
            }
            assert(p[first_max(p)] == s[first_max(p)]);
        }
        assert forall|i: int| 0 <= i < m implies (#[trigger] s[i]).1 < s[m].1 by {
            assert(s[i] == p[i]);
            assert(p[first_max(p)] == s[first_max(p)]);
        }
    }
}

/// Ranked entries are at most `max`, have distinct lookup keys, and none is in `seen`.
pub proof fn lemma_select_distinct(s: Seq<SuggestionView>, seen: Set<Seq<char>>, max: nat)
    ensures
        select(s, seen, max).len() <= max,
        forall|i: int|
            0 <= i < select(s, seen, max).len() ==> !seen.contains(
                #[trigger] keys_of(select(s, seen, max))[i],
            ),
        keys_of(select(s, seen, max)).no_duplicates(),
    decreases s.len(),
{
    if max == 0 || s.len() == 0 {
    } else {
        lemma_first_max(s);
        let m = first_max(s);
        let k = lookup_key(s[m].0);
        if seen.contains(k) {
            lemma_select_distinct(s.remove(m), seen, max);
        } else {
            let rest = select(s.remove(m), seen.insert(k), (max - 1) as nat);
            lemma_select_distinct(s.remove(m), seen.insert(k), (max - 1) as nat);
            let r = select(s, seen, max);
            assert(r == seq![s[m]] + rest);
            assert forall|i: int| 0 <= i < r.len() implies !seen.contains(
                #[trigger] keys_of(r)[i],
            ) by {
                if i > 0 {
                    assert(keys_of(r)[i] == keys_of(rest)[i - 1]);
                }
            }
            assert forall|i: int, j: int|
                0 <= i < keys_of(r).len() && 0 <= j < keys_of(r).len() && i != j implies keys_of(
                r,
            )[i] != keys_of(r)[j] by {
                if i > 0 {
                    assert(keys_of(r)[i] == keys_of(rest)[i - 1]);
                }
                if j > 0 {
                    assert(keys_of(r)[j] == keys_of(rest)[j - 1]);
                }
            }
        }
    }
}

fn first_max_index(s: &Vec<Suggestion>) -> (r: usize)
    requires
        s@.len() > 0,
    ensures
        r == first_max(sviews(s@)),
{
    let mut m: usize = 0;
    let mut i: usize = 1;
    while i < s.len()
        invariant
            1 <= i <= s@.len(),
            m == first_max(sviews(s@).subrange(0, i as int)),
            (m as int) < i,
        decreases s.len() - i,
    {
        proof {
            assert(sviews(s@).subrange(0, i as int + 1).drop_last() =~= sviews(s@).subrange(
                0,
                i as int,
            ));
            lemma_first_max(sviews(s@).subrange(0, i as int));
        }
        if s[i].confidence > s[m].confidence {
            m = i;
        }
        i += 1;
    }
    assert(sviews(s@).subrange(0, s@.len() as int) =~= sviews(s@));
    m
}

pub fn contains_text(v: &Vec<String>, k: &String) -> (r: bool)
    ensures
        r == texts_of(v@).contains(k@),
{
    let mut i: usize = 0;
    while i < v.len()
        invariant
            i <= v@.len(),
            forall|j: int| 0 <= j < i ==> v@[j]@ != k@,
        decreases v.len() - i,
    {
        if str_eq(v[i].as_str(), k.as_str()) {
            assert(string_views(v@)[i as int] == k@);
            return true;
        }
        i += 1;
    }
    proof {
        if texts_of(v@).contains(k@) {
            let tv = string_views(v@);
            let j = choose|j: int| 0 <= j < tv.len() && tv[j] == k@;
            assert(v@[j]@ == k@);
        }
    }
    false
}

/// The texts of a list of strings.
pub open spec fn string_views(v: Seq<String>) -> Seq<Seq<char>> {
    v.map_values(|x: String| x@)
}

pub open spec fn texts_of(v: Seq<String>) -> Set<Seq<char>> {
    string_views(v).to_set()
}

/// The ranked selection of at most `max` entries with distinct lookup keys.
pub fn rank(cands: Vec<Suggestion>, max: usize) -> (r: Vec<Suggestion>)
    ensures
        sviews(r@) == select(sviews(cands@), Set::empty(), max as nat),
{
    let ghost orig = sviews(cands@);
    let mut cands = cands;
    let mut out: Vec<Suggestion> = Vec::new();
    let mut seen: Vec<String> = Vec::new();
    proof {
        assert(texts_of(seen@) =~= Set::<Seq<char>>::empty());
        assert(sviews(out@) + select(sviews(cands@), texts_of(seen@), max as nat) =~= select(
            orig,
            Set::empty(),
            max as nat,
        ));
    }
    while out.len() < max && cands.len() > 0
        invariant
            out@.len() <= max,
            sviews(out@) + select(sviews(cands@), texts_of(seen@), (max - out@.len()) as nat)
                == select(
                orig,
                Set::empty(),
                max as nat,
            ),
        decreases cands.len(),
    {
        let m = first_max_index(&cands);
        proof {
            lemma_first_max(sviews(cands@));
        }
        let ghost before = sviews(cands@);
        let c = cands.remove(m);
        let key = normalize_for_lookup(c.text.as_str());
        let ghost budget = (max - out@.len()) as nat;
        if contains_text(&seen, &key) {
            assert(before.remove(m as int) =~= sviews(cands@));
            assert(select(before, texts_of(seen@), budget) == select(
                sviews(cands@),
                texts_of(seen@),
                budget,
            ));
        } else {
            let ghost old_seen = seen@;
            let ghost old_out = sviews(out@);
            assert(before.remove(m as int) =~= sviews(cands@));
            seen.push(key);
            proof {
                assert(string_views(seen@) =~= string_views(old_seen).push(lookup_key(c.text@)));
                crate::word_map::lemma_push_to_set(string_views(old_seen), lookup_key(c.text@));
            }
            out.push(c);
            assert(sviews(out@) =~= old_out + seq![sview(c)]);
            assert(sviews(out@) + select(sviews(cands@), texts_of(seen@), (max - out@.len()) as nat)
                =~= old_out + select(before, texts_of(old_seen), budget));
        }
    }
    proof {
        let rest = select(sviews(cands@), texts_of(seen@), (max - out@.len()) as nat);
        assert(rest =~= Seq::<SuggestionView>::empty());
        assert(sviews(out@) + rest =~= sviews(out@));
    }
    out
}

} // verus!
