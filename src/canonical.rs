//! Canonical display forms (contractions, acronyms, proper nouns), lookup keys and case
//! formatting of suggestions.

use crate::text::{
    char_is_lower, char_is_upper, char_to_upper, char_upper_of, chars_of, is_lower, is_upper,
    lower_of, string_of, to_lower, to_upper, upper_of,
};
use crate::word_map::WordMap;
use vstd::prelude::*;

verus! {

pub open spec fn has_apostrophe(s: Seq<char>) -> bool {
    s.contains('\'')
}

pub open spec fn is_ascii_upper(c: char) -> bool {
    'A' <= c <= 'Z'
}

/// Two to five characters, all ASCII capital letters.
pub open spec fn acronym(s: Seq<char>) -> bool {
    &&& 2 <= s.len() <= 5
    &&& forall|i: int| 0 <= i < s.len() ==> is_ascii_upper(#[trigger] s[i])
}

/// At least two characters: a capital, then only lower-case letters, and no apostrophe.
pub open spec fn proper_noun(s: Seq<char>) -> bool {
    &&& s.len() >= 2
    &&& char_is_upper(s[0])
    &&& forall|i: int| 1 <= i < s.len() ==> char_is_lower(#[trigger] s[i])
    &&& !has_apostrophe(s)
}

pub open spec fn preserves_canonical(s: Seq<char>) -> bool {
    has_apostrophe(s) || acronym(s) || proper_noun(s)
}

/// `s` with every apostrophe left out.
pub open spec fn strip_apostrophes(s: Seq<char>) -> Seq<char>
    decreases s.len(),
{
    if s.len() == 0 {
        s
    } else if s.last() == '\'' {
        strip_apostrophes(s.drop_last())
    } else {
        strip_apostrophes(s.drop_last()).push(s.last())
    }
}

/// The key under which a word's canonical form is filed: lower case, without apostrophes.
pub open spec fn lookup_key(s: Seq<char>) -> Seq<char> {
    strip_apostrophes(lower_of(s))
}

/// Whether `candidate` begins with `input`.
pub open spec fn is_prefix_of(input: Seq<char>, candidate: Seq<char>) -> bool {
    crate::text::is_prefix(input, candidate)
}

/// The first character in upper case, the rest unchanged.
pub open spec fn capitalized(s: Seq<char>) -> Seq<char> {
    if s.len() == 0 {
        s
    } else {
        char_upper_of(s[0]) + s.drop_first()
    }
}

pub open spec fn all_upper(s: Seq<char>) -> bool {
    forall|i: int| 0 <= i < s.len() ==> char_is_upper(#[trigger] s[i])
}

/// `word` in the case pattern of `reference`: all capitals, a leading capital, or lower case.
pub open spec fn case_formatted(word: Seq<char>, reference: Seq<char>) -> Seq<char> {
    if all_upper(reference) {
        upper_of(word)
    } else if reference.len() > 0 && char_is_upper(reference[0]) {
        capitalized(word)
    } else {
        lower_of(word)
    }
}

/// How a word is shown: its canonical form where that is a contraction or an acronym,
/// else in the case pattern of `reference`.
pub open spec fn display_form(
    word: Seq<char>,
    reference: Seq<char>,
    forms: Map<Seq<char>, String>,
) -> Seq<char> {
    let key = lookup_key(word);
    if forms.contains_key(key) && (has_apostrophe(forms[key]@) || acronym(forms[key]@)) {
        forms[key]@
    } else {
        case_formatted(word, reference)
    }
}

pub fn is_contraction(word: &str) -> (r: bool)
    ensures
        r == has_apostrophe(word@),
{
    let v = chars_of(word);
    let mut i: usize = 0;
    while i < v.len()
        invariant
            v@ == word@,
            i <= v@.len(),
            forall|k: int| 0 <= k < i ==> v@[k] != '\'',
        decreases v.len() - i,
    {
        if v[i] == '\'' {
            assert(v@[i as int] == '\'');
            return true;
        }
        i += 1;
    }
    false
}

pub fn is_acronym(word: &str) -> (r: bool)
    ensures
        r == acronym(word@),
{
    let v = chars_of(word);
    if v.len() < 2 || v.len() > 5 {
        return false;
    }
    let mut i: usize = 0;
    while i < v.len()
        invariant
            v@ == word@,
            i <= v@.len(),
            forall|k: int| 0 <= k < i ==> is_ascii_upper(#[trigger] v@[k]),
        decreases v.len() - i,
    {
        if !('A' <= v[i] && v[i] <= 'Z') {
            return false;
        }
        i += 1;
    }
    true
}

pub fn is_proper_noun(word: &str) -> (r: bool)
    ensures
        r == proper_noun(word@),
{
    let v = chars_of(word);
    if v.len() < 2 {
        return false;
    }
    if !is_upper(v[0]) {
        return false;
    }
    let mut i: usize = 1;
    while i < v.len()
        invariant
            v@ == word@,
            1 <= i <= v@.len(),
            forall|k: int| 1 <= k < i ==> char_is_lower(#[trigger] v@[k]),
        decreases v.len() - i,
    {
        if !is_lower(v[i]) {
            return false;
        }
        i += 1;
    }
    !is_contraction(word)
}

/// Whether a word's spelling carries information that lower-casing would lose.
pub fn should_preserve_canonical(word: &str) -> (r: bool)
    ensures
        r == preserves_canonical(word@),
{
    is_contraction(word) || is_acronym(word) || is_proper_noun(word)
}

/// The characters of `s` without apostrophes.
pub fn strip_apostrophe_chars(s: &Vec<char>) -> (r: Vec<char>)
    ensures
        r@ == strip_apostrophes(s@),
{
    let mut out: Vec<char> = Vec::new();
    let mut i: usize = 0;
    while i < s.len()
        invariant
            i <= s@.len(),
            out@ == strip_apostrophes(s@.subrange(0, i as int)),
        decreases s.len() - i,
    {
        let ghost pre = s@.subrange(0, i as int);
        assert(s@.subrange(0, i as int + 1).drop_last() =~= pre);
        if s[i] != '\'' {
            out.push(s[i]);
        }
        i += 1;
    }
    assert(s@.subrange(0, s@.len() as int) =~= s@);
    out
}

/// The key under which the canonical form of `word` is filed.
pub fn normalize_for_lookup(word: &str) -> (r: String)
    ensures
        r@ == lookup_key(word@),
{
    let lower = to_lower(word);
    let v = chars_of(lower.as_str());
    let stripped = strip_apostrophe_chars(&v);
    string_of(&stripped)
}

/// The first character of `s` in upper case, followed by the rest of `s`.
pub fn capitalize(s: &str) -> (r: String)
    ensures
        r@ == capitalized(s@),
{
    let v = chars_of(s);
    if v.len() == 0 {
        return string_of(&v);
    }
    let first = char_to_upper(v[0]);
    let mut out = chars_of(first.as_str());
    let mut i: usize = 1;
    while i < v.len()
        invariant
            1 <= i <= v@.len(),
            v@ == s@,
            out@ == char_upper_of(v@[0]) + v@.subrange(1, i as int),
        decreases v.len() - i,
    {
        out.push(v[i]);
        i += 1;
        assert(out@ =~= char_upper_of(v@[0]) + v@.subrange(1, i as int));
    }
    assert(v@.subrange(1, v@.len() as int) =~= s@.drop_first());
    string_of(&out)
}

/// `word` in the case pattern of `reference`.
pub fn format_case(word: &str, reference: &str) -> (r: String)
    ensures
        r@ == case_formatted(word@, reference@),
{
    let rv = chars_of(reference);
    let mut all: bool = true;
    let mut i: usize = 0;
    while i < rv.len()
        invariant
            rv@ == reference@,
            i <= rv@.len(),
            all == (forall|k: int| 0 <= k < i ==> char_is_upper(#[trigger] rv@[k])),
        decreases rv.len() - i,
    {
        if !is_upper(rv[i]) {
            all = false;
        }
        i += 1;
    }
    if all {
        to_upper(word)
    } else if rv.len() > 0 && is_upper(rv[0]) {
        capitalize(word)
    } else {
        to_lower(word)
    }
}

/// How `word` is shown to the user, given the typed `reference` and the canonical forms.
pub fn format_with_canonical(word: &str, reference: &str, forms: &WordMap<String>) -> (r: String)
    requires
        forms.wf(),
    ensures
        r@ == display_form(word@, reference@, forms@),
{
    let key = normalize_for_lookup(word);
    match forms.get(key.as_str()) {
        Some(canonical) => {
            if is_contraction(canonical.as_str()) || is_acronym(canonical.as_str()) {
                return canonical.clone();
            }
        },
        None => {},
    }
    format_case(word, reference)
}

} // verus!
