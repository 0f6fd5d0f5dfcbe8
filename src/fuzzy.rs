//! Damerau–Levenshtein distance (adjacent transpositions) and a positional character
//! similarity score.

use crate::text::chars_of;
use vstd::prelude::*;

verus! {

/// The greatest distance at which a word still counts as a correction.
pub const MAX_EDIT_DISTANCE: usize = 2;

pub open spec fn min2(x: nat, y: nat) -> nat {
    if x <= y { x } else { y }
}

/// Whether the last two characters of `a[..i]` are those of `b[..j]` swapped.
pub open spec fn swapped_at(a: Seq<char>, b: Seq<char>, i: nat, j: nat) -> bool {
    i > 1 && j > 1 && a[i - 1] == b[j - 2] && a[i - 2] == b[j - 1]
}

/// Edit distance between the first `i` characters of `a` and the first `j` of `b`, counting
/// insertions, deletions, substitutions and swaps of adjacent characters.
pub open spec fn osa(a: Seq<char>, b: Seq<char>, i: nat, j: nat) -> nat
    decreases i + j,
{
    if i == 0 {
        j
    } else if j == 0 {
        i
    } else {
        let cost: nat = if a[i - 1] == b[j - 1] { 0 } else { 1 };
        let base = min2(
            min2(osa(a, b, (i - 1) as nat, j) + 1, osa(a, b, i, (j - 1) as nat) + 1),
            osa(a, b, (i - 1) as nat, (j - 1) as nat) + cost,
        );
        if swapped_at(a, b, i, j) {
            min2(base, osa(a, b, (i - 2) as nat, (j - 2) as nat) + 1)
        } else {
            base
        }
    }
}

pub open spec fn edit_dist(a: Seq<char>, b: Seq<char>) -> nat {
    osa(a, b, a.len(), b.len())
}

proof fn lemma_osa_bound(a: Seq<char>, b: Seq<char>, i: nat, j: nat)
    ensures
        osa(a, b, i, j) <= i + j,
    decreases i + j,
{
    if i > 0 && j > 0 {
        lemma_osa_bound(a, b, (i - 1) as nat, j);
    }
}

proof fn lemma_osa_symmetric(a: Seq<char>, b: Seq<char>, i: nat, j: nat)
    ensures
        osa(a, b, i, j) == osa(b, a, j, i),
    decreases i + j,
{
    if i > 0 && j > 0 {
        lemma_osa_symmetric(a, b, (i - 1) as nat, j);
        lemma_osa_symmetric(a, b, i, (j - 1) as nat);
        lemma_osa_symmetric(a, b, (i - 1) as nat, (j - 1) as nat);
        if i > 1 && j > 1 {
            lemma_osa_symmetric(a, b, (i - 2) as nat, (j - 2) as nat);
        }
    }
}

/// Equal prefixes are at distance zero.
proof fn lemma_osa_equal_prefix(a: Seq<char>, b: Seq<char>, i: nat)
    requires
        i <= a.len(),
        i <= b.len(),
        forall|k: int| 0 <= k < i ==> a[k] == b[k],
    ensures
        osa(a, b, i, i) == 0,
    decreases i,
{
    if i > 0 {
        lemma_osa_equal_prefix(a, b, (i - 1) as nat);
    }
}

/// Distance zero only between equal prefixes.
proof fn lemma_osa_zero(a: Seq<char>, b: Seq<char>, i: nat, j: nat)
    requires
        i <= a.len(),
        j <= b.len(),
        osa(a, b, i, j) == 0,
    ensures
        i == j,
        a.subrange(0, i as int) == b.subrange(0, j as int),
    decreases i + j,
{
    if i > 0 && j > 0 {
        lemma_osa_zero(a, b, (i - 1) as nat, (j - 1) as nat);
        assert(a.subrange(0, i as int) =~= a.subrange(0, i - 1).push(a[i - 1]));
        assert(b.subrange(0, j as int) =~= b.subrange(0, j - 1).push(b[j - 1]));
    } else {
        assert(a.subrange(0, i as int) =~= b.subrange(0, j as int));
    }
}

/// The distance is symmetric, and zero from a word to itself.
pub proof fn lemma_edit_dist_symmetric(a: Seq<char>, b: Seq<char>)
    ensures
        edit_dist(a, b) == edit_dist(b, a),
        edit_dist(a, a) == 0,
{
    lemma_osa_symmetric(a, b, a.len(), b.len());
    lemma_osa_equal_prefix(a, a, a.len());
}

/// `s` with the characters at `k` and `k + 1` exchanged.
pub open spec fn swap_adjacent(s: Seq<char>, k: int) -> Seq<char> {
    s.update(k, s[k + 1]).update(k + 1, s[k])
}

proof fn lemma_after_swap(s: Seq<char>, t: Seq<char>, k: int, i: nat)
    requires
        0 <= k,
        k + 2 <= i <= s.len(),
        t == swap_adjacent(s, k),
        osa(s, t, k as nat, k as nat) == 0,
    ensures
        osa(s, t, i, i) <= 1,
    decreases i,
{
    if i > k + 2 {
        lemma_after_swap(s, t, k, (i - 1) as nat);
        assert(s[i - 1] == t[i - 1]);
    } else {
        assert(swapped_at(s, t, i, i));
    }
}

/// Exchanging two different adjacent characters is one edit.
pub proof fn lemma_adjacent_swap_is_one_edit(s: Seq<char>, k: int)
    requires
        0 <= k,
        k + 1 < s.len(),
        s[k] != s[k + 1],
    ensures
        edit_dist(s, swap_adjacent(s, k)) == 1,
{
    let t = swap_adjacent(s, k);
    lemma_osa_equal_prefix(s, t, k as nat);
    lemma_after_swap(s, t, k, s.len());
    if osa(s, t, s.len(), s.len()) == 0 {
        lemma_osa_zero(s, t, s.len(), s.len());
        assert(s.subrange(0, s.len() as int)[k] == t.subrange(0, s.len() as int)[k]);
    }
}

fn min_usize(x: usize, y: usize) -> (r: usize)
    ensures
        r as nat == min2(x as nat, y as nat),
{
    if x <= y { x } else { y }
}

/// The edit distance between the character sequences `a` and `b`.
pub fn edit_distance_chars(a: &Vec<char>, b: &Vec<char>) -> (r: usize)
    requires
        a@.len() + b@.len() < usize::MAX,
    ensures
        r == edit_dist(a@, b@),
{
    let m = a.len();
    let n = b.len();
    if m == 0 {
        return n;
    }
    if n == 0 {
        return m;
    }
    let mut prev2: Vec<usize> = Vec::new();
    let mut prev: Vec<usize> = Vec::new();
    let mut j: usize = 0;
    while j <= n
        invariant
            j <= n + 1,
            n == b@.len(),
            n < usize::MAX,
            prev@.len() == j,
            prev2@.len() == j,
            forall|k: int| 0 <= k < j ==> prev@[k] == osa(a@, b@, 0, k as nat),
        decreases n + 1 - j,
    {
        prev.push(j);
        prev2.push(0);
        j += 1;
    }
    let mut i: usize = 1;
    while i <= m
        invariant
            1 <= i <= m + 1,
            m == a@.len(),
            n == b@.len(),
            m + n < usize::MAX,
            prev@.len() == n + 1,
            prev2@.len() == n + 1,
            forall|k: int| 0 <= k <= n ==> prev@[k] == osa(a@, b@, (i - 1) as nat, k as nat),
            i >= 2 ==> forall|k: int|
                0 <= k <= n ==> prev2@[k] == osa(a@, b@, (i - 2) as nat, k as nat),
        decreases m + 1 - i,
    {
        let mut cur: Vec<usize> = Vec::new();
        cur.push(i);
        let mut j: usize = 1;
        while j <= n
            invariant
                1 <= i <= m,
                1 <= j <= n + 1,
                m == a@.len(),
                n == b@.len(),
                m + n < usize::MAX,
                prev@.len() == n + 1,
                prev2@.len() == n + 1,
                cur@.len() == j,
                forall|k: int| 0 <= k <= n ==> prev@[k] == osa(a@, b@, (i - 1) as nat, k as nat),
                i >= 2 ==> forall|k: int|
                    0 <= k <= n ==> prev2@[k] == osa(a@, b@, (i - 2) as nat, k as nat),
                forall|k: int| 0 <= k < j ==> cur@[k] == osa(a@, b@, i as nat, k as nat),
            decreases n + 1 - j,
        {
            proof {
                lemma_osa_bound(a@, b@, (i - 1) as nat, j as nat);
                lemma_osa_bound(a@, b@, i as nat, (j - 1) as nat);
                lemma_osa_bound(a@, b@, (i - 1) as nat, (j - 1) as nat);
            }
            let cost: usize = if a[i - 1] == b[j - 1] { 0 } else { 1 };
            let mut d = min_usize(min_usize(prev[j] + 1, cur[j - 1] + 1), prev[j - 1] + cost);
            if i > 1 && j > 1 && a[i - 1] == b[j - 2] && a[i - 2] == b[j - 1] {
                proof {
                    lemma_osa_bound(a@, b@, (i - 2) as nat, (j - 2) as nat);
                }
                d = min_usize(d, prev2[j - 2] + 1);
            }
            cur.push(d);
            j += 1;
        }
        prev2 = prev;
        prev = cur;
        i += 1;
    }
    prev[n]
}

/// The edit distance between the characters of `a` and of `b`.
pub fn edit_distance(a: &str, b: &str) -> (r: usize)
    requires
        a@.len() + b@.len() < usize::MAX,
    ensures
        r == edit_dist(a@, b@),
{
    let av = chars_of(a);
    let bv = chars_of(b);
    edit_distance_chars(&av, &bv)
}

/// Lower-case form of one character, as produced by `char::to_lowercase`.
pub uninterp spec fn char_lower_of(c: char) -> Seq<char>;

/// Relies on `char::to_lowercase`, collected into a string.
#[verifier::external_body]
fn char_to_lower(c: char) -> (r: String)
    ensures
        r@ == char_lower_of(c),
{
    c.to_lowercase().collect()
}

/// The character at position `i`, or a space past the end.
pub open spec fn char_or_space(s: Seq<char>, i: int) -> char {
    if 0 <= i < s.len() { s[i] } else { ' ' }
}

/// Points gained at position `i`, in halves: two for the same character, one for the same
/// character up to case.
pub open spec fn similarity_gain(a: Seq<char>, b: Seq<char>, i: int) -> nat {
    let x = char_or_space(a, i);
    let y = char_or_space(b, i);
    if x == y {
        2
    } else if char_lower_of(x) == char_lower_of(y) {
        1
    } else {
        0
    }
}

/// Points lost at position `i`, in halves: four at the first position, two elsewhere.
pub open spec fn similarity_loss(a: Seq<char>, b: Seq<char>, i: int) -> nat {
    let x = char_or_space(a, i);
    let y = char_or_space(b, i);
    if x == y || char_lower_of(x) == char_lower_of(y) {
        0
    } else if i == 0 {
        4
    } else {
        2
    }
}

pub open spec fn total_gain(a: Seq<char>, b: Seq<char>, n: nat) -> nat
    decreases n,
{
    if n == 0 {
        0
    } else {
        total_gain(a, b, (n - 1) as nat) + similarity_gain(a, b, n - 1)
    }
}

pub open spec fn total_loss(a: Seq<char>, b: Seq<char>, n: nat) -> nat
    decreases n,
{
    if n == 0 {
        0
    } else {
        total_loss(a, b, (n - 1) as nat) + similarity_loss(a, b, n - 1)
    }
}

pub open spec fn max_len(a: Seq<char>, b: Seq<char>) -> nat {
    if a.len() >= b.len() { a.len() } else { b.len() }
}

/// Positional similarity of `a` and `b` in half points: gains minus losses over the longer
/// length, and never below zero.
pub open spec fn similarity(a: Seq<char>, b: Seq<char>) -> nat {
    let g = total_gain(a, b, max_len(a, b));
    let l = total_loss(a, b, max_len(a, b));
    if g >= l { (g - l) as nat } else { 0 }
}

proof fn lemma_totals_bounded(a: Seq<char>, b: Seq<char>, n: nat)
    ensures
        total_gain(a, b, n) <= 2 * n,
        total_loss(a, b, n) <= 4 * n,
    decreases n,
{
    if n > 0 {
        lemma_totals_bounded(a, b, (n - 1) as nat);
    }
}

/// How closely `a` matches `b` position by position, in half points.
pub fn char_similarity(a: &Vec<char>, b: &Vec<char>) -> (r: u64)
    requires
        a@.len() < 0x2000_0000_0000_0000,
        b@.len() < 0x2000_0000_0000_0000,
    ensures
        r == similarity(a@, b@),
{
    let n: usize = if a.len() >= b.len() { a.len() } else { b.len() };
    let mut gain: u64 = 0;
    let mut loss: u64 = 0;
    let mut i: usize = 0;
    while i < n
        invariant
            n == max_len(a@, b@),
            n < 0x2000_0000_0000_0000,
            i <= n,
            gain == total_gain(a@, b@, i as nat),
            loss == total_loss(a@, b@, i as nat),
        decreases n - i,
    {
        proof {
            lemma_totals_bounded(a@, b@, i as nat);
        }
        let x: char = if i < a.len() { a[i] } else { ' ' };
        let y: char = if i < b.len() { b[i] } else { ' ' };
        if x == y {
            gain = gain + 2;
        } else {
            let lx = char_to_lower(x);
            let ly = char_to_lower(y);
            if lx == ly {
                gain = gain + 1;
            } else if i == 0 {
                loss = loss + 4;
            } else {
                loss = loss + 2;
            }
        }
        i += 1;
    }
    if gain >= loss { gain - loss } else { 0 }
}

} // verus!
