//! Word-count maps read from JSON text.

use vstd::prelude::*;

verus! {

/// The entries of a JSON object mapping words to non-negative integers, as `serde_json`
/// reads it into an ordered map, if the text is one.
pub uninterp spec fn json_counts(text: Seq<char>) -> Option<Seq<(Seq<char>, u64)>>;

pub open spec fn counts_view(s: Seq<(String, u64)>) -> Seq<(Seq<char>, u64)> {
    s.map_values(|p: (String, u64)| (p.0@, p.1))
}

/// Relies on `serde_json::from_str` into an ordered map of words to `u64`.
#[verifier::external_body]
pub(crate) fn parse_word_counts(text: &str) -> (r: Result<Vec<(String, u64)>, serde_json::Error>)
    ensures
        r is Ok <==> json_counts(text@) is Some,
        r matches Ok(v) ==> json_counts(text@) == Some(counts_view(v@)),
{
    serde_json::from_str::<std::collections::BTreeMap<String, u64>>(text).map(
        |m| m.into_iter().collect(),
    )
}

pub open spec fn sorted_desc(s: Seq<(String, u64)>) -> bool {
    forall|i: int, j: int| 0 <= i < j < s.len() ==> (#[trigger] s[i]).1 >= (#[trigger] s[j]).1
}

/// The entries ordered by count, highest first; equal counts keep their order.
pub fn sort_by_count_desc(v: Vec<(String, u64)>) -> (r: Vec<(String, u64)>)
    ensures
        sorted_desc(r@),
        r@.to_multiset() == v@.to_multiset(),
{
    broadcast use vstd::seq_lib::group_to_multiset_ensures;

    let mut out: Vec<(String, u64)> = Vec::new();
    let mut rest = v;
    let ghost orig = rest@;
    let mut i: usize = 0;
    let n = rest.len();
    while i < n
        invariant
            n == orig.len(),
            i <= n,
            rest@ == orig,
            sorted_desc(out@),
            out@.to_multiset() == orig.subrange(0, i as int).to_multiset(),
        decreases n - i,
    {
        let item = rest[i].0.clone();
        let count = rest[i].1;
        let mut p: usize = 0;
        while p < out.len() && out[p].1 >= count
            invariant
                p <= out@.len(),
                forall|k: int| 0 <= k < p ==> (#[trigger] out@[k]).1 >= count,
            decreases out.len() - p,
        {
            p += 1;
        }
        let ghost before = out@;
        proof {
            assert(rest@[i as int].0 == rest@[i as int].0);
        }
        out.insert(p, (item, count));
        proof {
            assert(orig.subrange(0, i as int + 1) =~= orig.subrange(0, i as int).push(orig[i as int]));
            vstd::seq_lib::to_multiset_insert(before, p as int, orig[i as int]);
            vstd::seq_lib::to_multiset_build(orig.subrange(0, i as int), orig[i as int]);
            assert forall|a: int, b: int| 0 <= a < b < out@.len() implies (#[trigger] out@[a]).1
                >= (#[trigger] out@[b]).1 by {
                if b < p as int {
                } else if b == p as int {
                } else if a < p as int {
                    assert(out@[b] == before[b - 1]);
                    if p < before.len() {
                        assert(before[p as int].1 < count);
                        assert(before[p as int].1 >= before[b - 1].1 || b - 1 == p as int);
                    }
                } else if a == p as int {
                    assert(out@[b] == before[b - 1]);
                    assert(before[p as int].1 < count);
                    assert(before[p as int].1 >= before[b - 1].1 || b - 1 == p as int);
                } else {
                    assert(out@[a] == before[a - 1]);
                    assert(out@[b] == before[b - 1]);
                }
            }
        }
        i += 1;
    }
    assert(orig.subrange(0, n as int) =~= orig);
    out
}

/// The entries of a JSON object mapping words to objects of words to non-negative
/// integers, as `serde_json` reads it into ordered maps, if the text is one.
pub uninterp spec fn json_nested_counts(text: Seq<char>) -> Option<
    Seq<(Seq<char>, Seq<(Seq<char>, u64)>)>,
>;

pub open spec fn nested_view(s: Seq<(String, Vec<(String, u64)>)>) -> Seq<
    (Seq<char>, Seq<(Seq<char>, u64)>),
> {
    s.map_values(|p: (String, Vec<(String, u64)>)| (p.0@, counts_view(p.1@)))
}

/// Relies on `serde_json::from_str` into ordered maps of words to maps of words to `u64`.
#[verifier::external_body]
pub(crate) fn parse_nested_counts(text: &str) -> (r: Result<
    Vec<(String, Vec<(String, u64)>)>,
    serde_json::Error,
>)
    ensures
        r is Ok <==> json_nested_counts(text@) is Some,
        r matches Ok(v) ==> json_nested_counts(text@) == Some(nested_view(v@)),
{
    serde_json::from_str::<
        std::collections::BTreeMap<String, std::collections::BTreeMap<String, u64>>,
    >(text).map(|m| m.into_iter().map(|(k, inner)| (k, inner.into_iter().collect())).collect())
}

/// The JSON object that `serde_json` writes for words and their counts.
pub uninterp spec fn counts_json(pairs: Seq<(Seq<char>, u32)>) -> Seq<char>;

pub open spec fn u32_pairs_view(s: Seq<(String, u32)>) -> Seq<(Seq<char>, u32)> {
    s.map_values(|p: (String, u32)| (p.0@, p.1))
}

/// Relies on `serde_json::to_string` of an ordered map of words to `u32`.
#[verifier::external_body]
pub(crate) fn counts_to_json(pairs: &Vec<(String, u32)>) -> (r: String)
    ensures
        r@ == counts_json(u32_pairs_view(pairs@)),
{
    let m: std::collections::BTreeMap<&str, u32> = pairs.iter().map(|p| (p.0.as_str(), p.1)).collect();
    serde_json::to_string(&m).unwrap_or_default()
}

/// The JSON object that `serde_json` writes for words and their followers' counts.
pub uninterp spec fn nested_counts_json(pairs: Seq<(Seq<char>, Seq<(Seq<char>, u32)>)>) -> Seq<
    char,
>;

pub open spec fn nested_u32_view(s: Seq<(String, Vec<(String, u32)>)>) -> Seq<
    (Seq<char>, Seq<(Seq<char>, u32)>),
> {
    s.map_values(|p: (String, Vec<(String, u32)>)| (p.0@, u32_pairs_view(p.1@)))
}

/// Relies on `serde_json::to_string` of ordered maps of words to maps of words to `u32`.
#[verifier::external_body]
pub(crate) fn nested_counts_to_json(pairs: &Vec<(String, Vec<(String, u32)>)>) -> (r: String)
    ensures
        r@ == nested_counts_json(nested_u32_view(pairs@)),
{
    let m: std::collections::BTreeMap<&str, std::collections::BTreeMap<&str, u32>> = pairs.iter().map(
        |p| (p.0.as_str(), p.1.iter().map(|q| (q.0.as_str(), q.1)).collect()),
    ).collect();
    serde_json::to_string(&m).unwrap_or_default()
}

} // verus!
