//! Scores in fixed point: `SCALE` stands for 1.0.

use crate::word_map::WordMap;
use vstd::prelude::*;

verus! {

/// The fixed-point unit: a score of `SCALE` means 1.0.
pub const SCALE: i64 = 10000;

/// Frequency score on the 0..255 scale: 1.0, 0.9, 0.8, 0.7, 0.5, 0.3 or 0.1.
pub open spec fn freq_score_spec(f: u32) -> i64 {
    if f >= 250 {
        10000
    } else if f >= 200 {
        9000
    } else if f >= 150 {
        8000
    } else if f >= 100 {
        7000
    } else if f >= 50 {
        5000
    } else if f >= 10 {
        3000
    } else {
        1000
    }
}

pub fn frequency_score(f: u32) -> (r: i64)
    ensures
        r == freq_score_spec(f),
{
    if f >= 250 {
        10000
    } else if f >= 200 {
        9000
    } else if f >= 150 {
        8000
    } else if f >= 100 {
        7000
    } else if f >= 50 {
        5000
    } else if f >= 10 {
        3000
    } else {
        1000
    }
}

pub open spec fn texts(s: Seq<String>) -> Seq<Seq<char>> {
    s.map_values(|x: String| x@)
}

/// What the word at position `i` of the context contributes: its count of `word` following
/// it, weighted by `1 - i / n`.
pub open spec fn ctx_term(
    cmap: Map<Seq<char>, WordMap<u32>>,
    word: Seq<char>,
    context: Seq<Seq<char>>,
    i: int,
) -> int {
    let n = context.len() as int;
    if cmap.contains_key(context[i]) && cmap[context[i]]@.contains_key(word) {
        (cmap[context[i]]@[word] as int * (n - i) * SCALE) / n
    } else {
        0
    }
}

pub open spec fn ctx_sum(
    cmap: Map<Seq<char>, WordMap<u32>>,
    word: Seq<char>,
    context: Seq<Seq<char>>,
    k: nat,
) -> int
    decreases k,
{
    if k == 0 {
        0
    } else {
        ctx_sum(cmap, word, context, (k - 1) as nat) + ctx_term(cmap, word, context, k - 1)
    }
}

/// How strongly the context predicts `word`, at most 1.0.
pub open spec fn ctx_score(
    cmap: Map<Seq<char>, WordMap<u32>>,
    word: Seq<char>,
    context: Seq<Seq<char>>,
) -> i64 {
    let s = ctx_sum(cmap, word, context, context.len());
    if s >= SCALE { SCALE } else { s as i64 }
}

/// Every follower map in a context map is well formed.
pub open spec fn nested_wf(m: WordMap<WordMap<u32>>) -> bool {
    m.wf() && forall|k: Seq<char>| #[trigger] m@.contains_key(k) ==> m@[k].wf()
}

proof fn lemma_ctx_sum_nonneg(
    cmap: Map<Seq<char>, WordMap<u32>>,
    word: Seq<char>,
    context: Seq<Seq<char>>,
    k: nat,
)
    requires
        k <= context.len(),
    ensures
        ctx_sum(cmap, word, context, k) >= 0,
    decreases k,
{
    if k > 0 {
        lemma_ctx_sum_nonneg(cmap, word, context, (k - 1) as nat);
        let n = context.len() as int;
        let i = k - 1;
        if cmap.contains_key(context[i]) && cmap[context[i]]@.contains_key(word) {
            let c = cmap[context[i]]@[word] as int;
            assert(c * (n - i) * SCALE >= 0) by (nonlinear_arith)
                requires
                    c >= 0,
                    n - i >= 0,
            ;
            assert((c * (n - i) * SCALE) / n >= 0) by (nonlinear_arith)
                requires
                    c * (n - i) * SCALE >= 0,
                    n > 0,
            ;
        }
    }
}

/// The context score of `word`.
pub fn context_score(cmap: &WordMap<WordMap<u32>>, word: &str, context: &[String]) -> (r: i64)
    requires
        nested_wf(*cmap),
    ensures
        r == ctx_score(cmap@, word@, texts(context@)),
        0 <= r <= SCALE,
{
    let ghost ctx = texts(context@);
    let n = context.len();
    let mut sum: i64 = 0;
    let mut i: usize = 0;
    while i < n
        invariant
            n == context@.len(),
            ctx == texts(context@),
            nested_wf(*cmap),
            i <= n,
            sum == (if ctx_sum(cmap@, word@, ctx, i as nat) >= SCALE {
                SCALE as int
            } else {
                ctx_sum(cmap@, word@, ctx, i as nat)
            }),
        decreases n - i,
    {
        proof {
            lemma_ctx_sum_nonneg(cmap@, word@, ctx, i as nat);
            lemma_ctx_sum_nonneg(cmap@, word@, ctx, i as nat + 1);
        }
        let prev = context[i].as_str();
        let mut term: i64 = 0;
        match cmap.get(prev) {
            Some(assoc) => {
                match assoc.get(word) {
                    Some(count) => {
                        let a: u128 = *count as u128;
                        let b: u128 = (n - i) as u128;
                        proof {
                            assert((a as int) * (b as int) < 0x1_0000_0000 * 0x1_0000_0000_0000_0000int)
                                by (nonlinear_arith)
                                requires
                                    a < 0x1_0000_0000,
                                    b < 0x1_0000_0000_0000_0000int,
                            ;
                        }
                        let t: u128 = a * b * 10000u128 / (n as u128);
                        proof {
                            let c = *count as int;
                            let n = n as int;
                            let i = i as int;
                            assert(c * (n - i) * 10000 <= c * n * 10000) by (nonlinear_arith)
                                requires
                                    c >= 0,
                                    n - i <= n,
                            ;
                            assert((c * n * 10000) / n == c * 10000) by (nonlinear_arith)
                                requires
                                    n > 0,
                            ;
                            assert((c * (n - i) * 10000) / n <= (c * n * 10000) / n)
                                by (nonlinear_arith)
                                requires
                                    c * (n - i) * 10000 <= c * n * 10000,
                                    n > 0,
                            ;
                        }
                        term = if t >= 10000u128 { 10000 } else { t as i64 };
                        assert(ctx_term(cmap@, word@, ctx, i as int) == t as int);
                    },
                    None => {},
                }
            },
            None => {},
        }
        sum = if term >= SCALE - sum { SCALE } else { sum + term };
        i += 1;
    }
    proof {
        lemma_ctx_sum_nonneg(cmap@, word@, ctx, n as nat);
    }
    sum
}

} // verus!
