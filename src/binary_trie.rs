//! The binary trie dictionary: an array of fixed-size nodes linked by index, with a
//! side table of canonical display forms, and its checksummed, compressed file format.

use crate::codec::{get_u16, get_u32, le16, le32, push_u32, read16, read32};
use crate::canonical::{
    lookup_key, normalize_for_lookup, preserves_canonical, should_preserve_canonical,
};
use crate::json::{counts_view, json_counts, parse_word_counts, sort_by_count_desc, sorted_desc};
use crate::text::{chars_of, owned, string_of, trim, trim_of};
use crate::word_map::{lemma_text_map_insert, pair_map, pairs_view, text_map, WordMap};
use vstd::prelude::*;
use vstd::string::*;

verus! {

/// A trie node as stored in a dictionary file.
#[derive(Clone, Copy)]
pub struct BinaryTrieNode {
    /// The character leading to this node, as a 16-bit code unit.
    pub char_code: u16,
    /// The word frequency; 0 where no word ends here.
    pub frequency: u8,
    /// Reserved.
    pub flags: u8,
    /// Index of the first child, or 0 for none.
    pub first_child: u32,
    /// Index of the next sibling, or 0 for none.
    pub next_sibling: u32,
}

/// The 16-bit code under which a character is stored.
pub open spec fn code_of(c: char) -> u16 {
    (c as u32) as u16
}

pub open spec fn codes_of(s: Seq<char>) -> Seq<u16> {
    s.map_values(|c: char| code_of(c))
}

/// Links are absent (0) or point forward to an existing node.
pub open spec fn links_ok(nodes: Seq<BinaryTrieNode>) -> bool {
    forall|i: int|
        #![trigger nodes[i]]
        0 <= i < nodes.len() ==> {
            &&& (nodes[i].first_child == 0 || (i < nodes[i].first_child < nodes.len()))
            &&& (nodes[i].next_sibling == 0 || (i < nodes[i].next_sibling < nodes.len()))
        }
}

/// Scans the sibling chain from `c` for a node with `code`.
pub open spec fn scan(nodes: Seq<BinaryTrieNode>, c: int, code: u16) -> Option<int>
    decreases nodes.len() - c,
{
    if c <= 0 || c >= nodes.len() {
        None
    } else if nodes[c].char_code == code {
        Some(c)
    } else if nodes[c].next_sibling as int <= c || nodes[c].next_sibling as int >= nodes.len() {
        None
    } else {
        scan(nodes, nodes[c].next_sibling as int, code)
    }
}

/// The child of `parent` reached by `code`.
pub open spec fn child(nodes: Seq<BinaryTrieNode>, parent: int, code: u16) -> Option<int> {
    if 0 <= parent < nodes.len() {
        scan(nodes, nodes[parent].first_child as int, code)
    } else {
        None
    }
}

/// The node reached from the root by following `codes`.
pub open spec fn walk(nodes: Seq<BinaryTrieNode>, codes: Seq<u16>) -> Option<int>
    decreases codes.len(),
{
    if codes.len() == 0 {
        if nodes.len() > 0 { Some(0) } else { None }
    } else {
        match walk(nodes, codes.drop_last()) {
            Some(p) => child(nodes, p, codes.last()),
            None => None,
        }
    }
}

/// `new` keeps every node of `old` with its character and every link that `old` had set.
pub open spec fn grows(old: Seq<BinaryTrieNode>, new: Seq<BinaryTrieNode>) -> bool {
    &&& old.len() <= new.len()
    &&& forall|i: int|
        #![trigger new[i]]
        0 <= i < old.len() ==> {
            &&& new[i].char_code == old[i].char_code
            &&& (old[i].first_child != 0 ==> new[i].first_child == old[i].first_child)
            &&& (old[i].next_sibling != 0 ==> new[i].next_sibling == old[i].next_sibling)
        }
}

proof fn lemma_scan_grows(old: Seq<BinaryTrieNode>, new: Seq<BinaryTrieNode>, c: int, code: u16)
    requires
        grows(old, new),
        scan(old, c, code) is Some,
    ensures
        scan(new, c, code) == scan(old, c, code),
    decreases old.len() - c,
{
    assert(new[c].char_code == old[c].char_code);
    if old[c].char_code != code {
        lemma_scan_grows(old, new, old[c].next_sibling as int, code);
    }
}

/// Growing a trie keeps every path that already led somewhere.
pub proof fn lemma_walk_grows(old: Seq<BinaryTrieNode>, new: Seq<BinaryTrieNode>, codes: Seq<u16>)
    requires
        grows(old, new),
        walk(old, codes) is Some,
    ensures
        walk(new, codes) == walk(old, codes),
    decreases codes.len(),
{
    if codes.len() > 0 {
        lemma_walk_grows(old, new, codes.drop_last());
        let p = walk(old, codes.drop_last())->0;
        assert(new[p].first_child == old[p].first_child || old[p].first_child == 0);
        lemma_scan_grows(old, new, old[p].first_child as int, codes.last());
    }
}

proof fn lemma_grows_trans(a: Seq<BinaryTrieNode>, b: Seq<BinaryTrieNode>, c: Seq<BinaryTrieNode>)
    requires
        grows(a, b),
        grows(b, c),
    ensures
        grows(a, c),
{
    assert forall|i: int| 0 <= i < a.len() implies {
        &&& #[trigger] c[i].char_code == a[i].char_code
        &&& (a[i].first_child != 0 ==> c[i].first_child == a[i].first_child)
        &&& (a[i].next_sibling != 0 ==> c[i].next_sibling == a[i].next_sibling)
    } by {
        assert(b[i] == b[i]);
    }
}

/// From `a`, the chain reaches `b` through nodes that do not carry `code`.
pub open spec fn passes(nodes: Seq<BinaryTrieNode>, a: int, b: int, code: u16) -> bool
    decreases nodes.len() - a,
{
    if a == b {
        true
    } else if a <= 0 || a >= nodes.len() || nodes[a].char_code == code
        || nodes[a].next_sibling as int <= a || nodes[a].next_sibling as int >= nodes.len() {
        false
    } else {
        passes(nodes, nodes[a].next_sibling as int, b, code)
    }
}

proof fn lemma_passes_scan(nodes: Seq<BinaryTrieNode>, a: int, b: int, code: u16)
    requires
        passes(nodes, a, b, code),
    ensures
        scan(nodes, a, code) == scan(nodes, b, code),
    decreases nodes.len() - a,
{
    if a != b {
        lemma_passes_scan(nodes, nodes[a].next_sibling as int, b, code);
    }
}

proof fn lemma_passes_step(nodes: Seq<BinaryTrieNode>, a: int, b: int, code: u16)
    requires
        passes(nodes, a, b, code),
        0 < b < nodes.len(),
        nodes[b].char_code != code,
        b < nodes[b].next_sibling < nodes.len(),
    ensures
        passes(nodes, a, nodes[b].next_sibling as int, code),
    decreases nodes.len() - a,
{
    if a != b {
        lemma_passes_step(nodes, nodes[a].next_sibling as int, b, code);
    } else {
        let n = nodes[b].next_sibling as int;
        assert(passes(nodes, n, n, code));
    }
}

proof fn lemma_passes_grows(
    old: Seq<BinaryTrieNode>,
    new: Seq<BinaryTrieNode>,
    a: int,
    b: int,
    code: u16,
)
    requires
        grows(old, new),
        passes(old, a, b, code),
    ensures
        passes(new, a, b, code),
    decreases old.len() - a,
{
    if a != b {
        assert(new[a] == new[a]);
        lemma_passes_grows(old, new, old[a].next_sibling as int, b, code);
    }
}

/// The words under node `i`, spelled from `prefix`, in depth-first order.
pub open spec fn words_at(nodes: Seq<BinaryTrieNode>, i: int, prefix: Seq<char>) -> Seq<
    (Seq<char>, u8),
>
    decreases nodes.len() - i, 1int,
{
    if 0 <= i < nodes.len() {
        let own = if nodes[i].frequency > 0 {
            seq![(prefix, nodes[i].frequency)]
        } else {
            Seq::empty()
        };
        if i < nodes[i].first_child < nodes.len() {
            own + words_from(nodes, nodes[i].first_child as int, prefix)
        } else {
            own
        }
    } else {
        Seq::empty()
    }
}

/// The words under the sibling chain that starts at `c`, spelled from `prefix`.
pub open spec fn words_from(nodes: Seq<BinaryTrieNode>, c: int, prefix: Seq<char>) -> Seq<
    (Seq<char>, u8),
>
    decreases nodes.len() - c, 2int,
{
    if 0 < c < nodes.len() {
        let here = words_at(nodes, c, prefix.push(char_of_code(nodes[c].char_code)));
        if c < nodes[c].next_sibling < nodes.len() {
            here + words_from(nodes, nodes[c].next_sibling as int, prefix)
        } else {
            here
        }
    } else {
        Seq::empty()
    }
}

/// The character a stored code stands for; surrogate codes, which are no characters, read
/// as `?`.
pub open spec fn char_of_code(code: u16) -> char {
    if 0xD800 <= code <= 0xDFFF {
        '?'
    } else {
        (code as u32) as char
    }
}

/// Relies on `char::from_u32`, which rejects exactly the surrogate codes among 16-bit values.
#[verifier::external_body]
fn char_from_code(code: u16) -> (r: char)
    ensures
        r == char_of_code(code),
        0xD800 <= code <= 0xDFFF ==> r == '?',
        !(0xD800 <= code <= 0xDFFF) ==> r as u32 == code as u32,
{
    char::from_u32(code as u32).unwrap_or('?')
}

/// `old` followed by `extra`, but never grown past `limit` entries.
pub open spec fn capped<T>(old: Seq<T>, extra: Seq<T>, limit: nat) -> Seq<T> {
    if old.len() >= limit {
        old
    } else if old.len() + extra.len() <= limit {
        old + extra
    } else {
        (old + extra).subrange(0, limit as int)
    }
}

proof fn lemma_capped_compose<T>(o: Seq<T>, x: Seq<T>, y: Seq<T>, limit: nat)
    ensures
        capped(capped(o, x, limit), y, limit) == capped(o, x + y, limit),
{
    if o.len() >= limit {
    } else if o.len() + x.len() <= limit {
        assert(o + x + y =~= o + (x + y));
    } else {
        assert((o + (x + y)).subrange(0, limit as int) =~= (o + x).subrange(0, limit as int));
    }
}

/// The checksum of the first `n` nodes: a wrapping sum of `i * char_code + frequency`.
pub open spec fn checksum_of(nodes: Seq<BinaryTrieNode>, n: nat) -> u32
    decreases n,
{
    if n == 0 {
        0
    } else {
        let i = (n - 1) as int;
        let prev = checksum_of(nodes, (n - 1) as nat);
        let term = vstd::wrapping::u32_specs::wrapping_mul(i as u32, nodes[i].char_code as u32);
        vstd::wrapping::u32_specs::wrapping_add(
            vstd::wrapping::u32_specs::wrapping_add(prev, term),
            nodes[i].frequency as u32,
        )
    }
}

pub open spec fn results_view(r: Seq<(String, u8)>) -> Seq<(Seq<char>, u8)> {
    r.map_values(|p: (String, u8)| (p.0@, p.1))
}

/// The nodes of an empty trie: a bare root.
pub open spec fn root_only() -> Seq<BinaryTrieNode> {
    seq![BinaryTrieNode { char_code: 0, frequency: 0, flags: 0, first_child: 0, next_sibling: 0 }]
}

/// A frequency-weighted word trie held as an array of nodes; node 0 is the root.
pub struct BinaryTrie {
    nodes: Vec<BinaryTrieNode>,
    word_count: usize,
    canonical_forms: WordMap<String>,
}

impl BinaryTrie {
    pub closed spec fn node_seq(&self) -> Seq<BinaryTrieNode> {
        self.nodes@
    }

    pub closed spec fn forms(&self) -> WordMap<String> {
        self.canonical_forms
    }

    pub closed spec fn words(&self) -> nat {
        self.word_count as nat
    }

    pub open spec fn wf(&self) -> bool {
        &&& self.node_seq().len() >= 1
        &&& self.node_seq().len() <= u32::MAX
        &&& links_ok(self.node_seq())
        &&& self.forms().wf()
    }

    /// The frequency stored for `word`, if a node is reached by its characters.
    pub open spec fn freq_of(&self, word: Seq<char>) -> Option<u8> {
        match walk(self.node_seq(), codes_of(word)) {
            Some(i) => Some(self.node_seq()[i].frequency),
            None => None,
        }
    }

    /// An empty trie: the root alone.
    pub fn new() -> (r: Self)
        ensures
            r.wf(),
            r.node_seq() == root_only(),
            r.node_seq() == seq![
                BinaryTrieNode {
                    char_code: 0,
                    frequency: 0,
                    flags: 0,
                    first_child: 0,
                    next_sibling: 0,
                },
            ],
            r.forms()@ == Map::<Seq<char>, String>::empty(),
            r.forms().keys().len() == 0,
            r.words() == 0,
    {
        let mut nodes: Vec<BinaryTrieNode> = Vec::new();
        nodes.push(
            BinaryTrieNode { char_code: 0, frequency: 0, flags: 0, first_child: 0, next_sibling: 0 },
        );
        let r = BinaryTrie { nodes, word_count: 0, canonical_forms: WordMap::new() };
        assert(r.node_seq() =~= seq![
            BinaryTrieNode {
                char_code: 0,
                frequency: 0,
                flags: 0,
                first_child: 0,
                next_sibling: 0,
            },
        ]);
        r
    }

    /// The canonical display forms, by lookup key.
    pub fn canonical_forms(&self) -> (r: &WordMap<String>)
        ensures
            *r == self.forms(),
    {
        &self.canonical_forms
    }

    /// Files `form` as the canonical display form under `key`.
    pub fn add_canonical_form(&mut self, key: String, form: String)
        requires
            old(self).wf(),
        ensures
            final(self).wf(),
            final(self).node_seq() == old(self).node_seq(),
            final(self).words() == old(self).words(),
            final(self).forms()@ == old(self).forms()@.insert(key@, form),
            final(self).forms().keys().len() <= old(self).forms().keys().len() + 1,
    {
        self.canonical_forms.insert(key, form);
    }

    pub fn node_count(&self) -> (r: usize)
        ensures
            r == self.node_seq().len(),
    {
        self.nodes.len()
    }

    pub fn word_count(&self) -> (r: usize)
        ensures
            r == self.words(),
    {
        self.word_count
    }

    pub fn canonical_count(&self) -> (r: usize)
        ensures
            r == self.forms().keys().len(),
    {
        self.canonical_forms.len()
    }

    fn find_or_create_child(&mut self, parent: u32, code: u16) -> (r: u32)
        requires
            old(self).wf(),
            parent < old(self).node_seq().len(),
            old(self).node_seq().len() < u32::MAX,
        ensures
            final(self).wf(),
            grows(old(self).node_seq(), final(self).node_seq()),
            final(self).node_seq().len() <= old(self).node_seq().len() + 1,
            child(final(self).node_seq(), parent as int, code) == Some(r as int),
            (r as int) < final(self).node_seq().len(),
            forall|i: int|
                0 <= i < old(self).node_seq().len() ==> (#[trigger] final(self).node_seq()[i]).frequency
                    == old(self).node_seq()[i].frequency,
            forall|i: int|
                old(self).node_seq().len() <= i < final(self).node_seq().len()
                    ==> (#[trigger] final(self).node_seq()[i]).frequency == 0,
            final(self).forms() == old(self).forms(),
            final(self).words() == old(self).words(),
    {
        let ghost old_nodes = self.nodes@;
        let first = self.nodes[parent as usize].first_child;
        let new_node = BinaryTrieNode {
            char_code: code,
            frequency: 0,
            flags: 0,
            first_child: 0,
            next_sibling: 0,
        };
        if first == 0 {
            let new_idx = self.nodes.len() as u32;
            self.nodes.push(new_node);
            let mut p = self.nodes[parent as usize];
            p.first_child = new_idx;
            self.nodes.set(parent as usize, p);
            assert(self.nodes@[parent as int].first_child == new_idx);
            assert(scan(self.nodes@, new_idx as int, code) == Some(new_idx as int));
            assert(child(self.nodes@, parent as int, code) == Some(new_idx as int));
            return new_idx;
        }
        let mut c: u32 = first;
        loop
            invariant
                self.nodes@ == old_nodes,
                old(self).wf(),
                self.nodes@ == old(self).node_seq(),
                self.canonical_forms == old(self).canonical_forms,
                self.word_count == old(self).word_count,
                0 < c < old_nodes.len(),
                first == old_nodes[parent as int].first_child,
                (parent as int) < old_nodes.len(),
                passes(old_nodes, first as int, c as int, code),
            ensures
                0 < c < old_nodes.len(),
                self.nodes@ == old_nodes,
                old_nodes[c as int].next_sibling == 0,
                old_nodes[c as int].char_code != code,
                passes(old_nodes, first as int, c as int, code),
            decreases old_nodes.len() - c,
        {
            let node = self.nodes[c as usize];
            if node.char_code == code {
                proof {
                    lemma_passes_scan(old_nodes, first as int, c as int, code);
                    assert(scan(old_nodes, c as int, code) == Some(c as int));
                    assert(child(old_nodes, parent as int, code) == Some(c as int));
                }
                return c;
            }
            if node.next_sibling == 0 {
                break;
            }
            proof {
                lemma_passes_step(old_nodes, first as int, c as int, code);
            }
            c = node.next_sibling;
        }
        let new_idx = self.nodes.len() as u32;
        self.nodes.push(new_node);
        let mut last = self.nodes[c as usize];
        last.next_sibling = new_idx;
        self.nodes.set(c as usize, last);
        proof {
            assert forall|i: int| 0 <= i < old_nodes.len() implies {
                &&& #[trigger] self.nodes@[i].char_code == old_nodes[i].char_code
                &&& (old_nodes[i].first_child != 0 ==> self.nodes@[i].first_child
                    == old_nodes[i].first_child)
                &&& (old_nodes[i].next_sibling != 0 ==> self.nodes@[i].next_sibling
                    == old_nodes[i].next_sibling)
            } by {
                if i == c as int {
                    assert(old_nodes[i].next_sibling == 0);
                }
            }
            assert(grows(old_nodes, self.nodes@));
            lemma_passes_grows(old_nodes, self.nodes@, first as int, c as int, code);
            lemma_passes_scan(self.nodes@, first as int, c as int, code);
            assert(scan(self.nodes@, new_idx as int, code) == Some(new_idx as int));
            assert(self.nodes@[parent as int].first_child == first);
            assert(child(self.nodes@, parent as int, code) == Some(new_idx as int));
        }
        new_idx
    }

    /// Stores `word` with `frequency`; an empty word or a zero frequency is ignored.
    pub fn insert(&mut self, word: &str, frequency: u8)
        requires
            old(self).wf(),
            old(self).node_seq().len() + word@.len() <= u32::MAX,
            old(self).words() < usize::MAX,
        ensures
            final(self).wf(),
            final(self).forms() == old(self).forms(),
            word@.len() == 0 || frequency == 0 ==> *final(self) == *old(self),
            inserted(*old(self), *final(self), word@, frequency),
            word@.len() > 0 && frequency > 0 ==> {
                &&& grows(old(self).node_seq(), final(self).node_seq())
                &&& final(self).freq_of(word@) == Some(frequency)
                &&& final(self).words() == old(self).words() + 1
                &&& final(self).node_seq().len() <= old(self).node_seq().len() + word@.len()
                &&& forall|i: int|
                    old(self).node_seq().len() <= i < final(self).node_seq().len() && Some(i) != walk(
                        final(self).node_seq(),
                        codes_of(word@),
                    ) ==> (#[trigger] final(self).node_seq()[i]).frequency == 0
                &&& forall|w: Seq<char>|
                    #![trigger final(self).freq_of(w)]
                    old(self).freq_of(w) is Some && walk(final(self).node_seq(), codes_of(w))
                        != walk(final(self).node_seq(), codes_of(word@))
                        ==> final(self).freq_of(w) == old(self).freq_of(w)
            },
    {
        let v = chars_of(word);
        if v.len() == 0 || frequency == 0 {
            return;
        }
        let ghost codes = codes_of(word@);
        let mut cur: u32 = 0;
        let mut i: usize = 0;
        while i < v.len()
            invariant
                v@ == word@,
                codes == codes_of(word@),
                i <= v@.len(),
                self.wf(),
                self.canonical_forms == old(self).canonical_forms,
                self.word_count == old(self).word_count,
                grows(old(self).node_seq(), self.node_seq()),
                self.node_seq().len() <= old(self).node_seq().len() + i,
                old(self).node_seq().len() + word@.len() <= u32::MAX,
                (cur as int) < self.node_seq().len(),
                walk(self.node_seq(), codes.subrange(0, i as int)) == Some(cur as int),
                forall|j: int|
                    0 <= j < old(self).node_seq().len() ==> (#[trigger] self.node_seq()[j]).frequency
                        == old(self).node_seq()[j].frequency,
                forall|j: int|
                    old(self).node_seq().len() <= j < self.node_seq().len()
                        ==> (#[trigger] self.node_seq()[j]).frequency == 0,
            decreases v.len() - i,
        {
            let ghost before = self.nodes@;
            #[verifier::truncate]
            let code: u16 = (v[i] as u32) as u16;
            let next = self.find_or_create_child(cur, code);
            proof {
                lemma_walk_grows(before, self.nodes@, codes.subrange(0, i as int));
                lemma_grows_trans(old(self).node_seq(), before, self.nodes@);
                assert(codes.subrange(0, i as int + 1).drop_last() =~= codes.subrange(0, i as int));
            }
            cur = next;
            i += 1;
        }
        assert(codes.subrange(0, v@.len() as int) =~= codes);
        let ghost before = self.nodes@;
        let mut n = self.nodes[cur as usize];
        n.frequency = frequency;
        self.nodes.set(cur as usize, n);
        self.word_count = self.word_count + 1;
        proof {
            assert(grows(before, self.nodes@));
            lemma_walk_grows(before, self.nodes@, codes);
            lemma_grows_trans(old(self).node_seq(), before, self.nodes@);
            assert forall|w: Seq<char>|
                old(self).freq_of(w) is Some && walk(self.nodes@, codes_of(w)) != walk(
                    self.nodes@,
                    codes_of(word@),
                ) implies #[trigger] self.freq_of(w) == old(self).freq_of(w) by {
                lemma_walk_grows(old(self).node_seq(), self.nodes@, codes_of(w));
                let k = walk(old(self).node_seq(), codes_of(w))->0;
                lemma_walk_in_bounds(old(self).node_seq(), codes_of(w));
                assert(before[k] == before[k]);
                assert(self.nodes@[k] == self.nodes@[k]);
                assert(k != cur as int);
                assert(self.nodes@[k].frequency == before[k].frequency);
            }
        }
    }

    /// The node reached by the characters of `prefix`, if any.
    pub fn search_prefix(&self, prefix: &str) -> (r: Option<u32>)
        requires
            self.wf(),
        ensures
            r is Some <==> walk(self.node_seq(), codes_of(prefix@)) is Some,
            r matches Some(i) ==> walk(self.node_seq(), codes_of(prefix@)) == Some(i as int),
    {
        let v = chars_of(prefix);
        let ghost codes = codes_of(prefix@);
        let mut cur: u32 = 0;
        let mut i: usize = 0;
        while i < v.len()
            invariant
                self.wf(),
                v@ == prefix@,
                codes == codes_of(prefix@),
                i <= v@.len(),
                (cur as int) < self.node_seq().len(),
                walk(self.node_seq(), codes.subrange(0, i as int)) == Some(cur as int),
            decreases v.len() - i,
        {
            #[verifier::truncate]
            let code: u16 = (v[i] as u32) as u16;
            assert(codes.subrange(0, i as int + 1).drop_last() =~= codes.subrange(0, i as int));
            match self.find_child(cur, code) {
                Some(c) => {
                    cur = c;
                },
                None => {
                    proof {
                        lemma_walk_none_extends(self.node_seq(), codes, i as int + 1);
                    }
                    return None;
                },
            }
            i += 1;
        }
        assert(codes.subrange(0, v@.len() as int) =~= codes);
        Some(cur)
    }

    fn find_child(&self, parent: u32, code: u16) -> (r: Option<u32>)
        requires
            self.wf(),
            parent < self.node_seq().len(),
        ensures
            r is Some <==> child(self.node_seq(), parent as int, code) is Some,
            r matches Some(c) ==> child(self.node_seq(), parent as int, code) == Some(c as int)
                && (c as int) < self.node_seq().len(),
    {
        let mut c = self.nodes[parent as usize].first_child;
        while c != 0
            invariant
                self.wf(),
                parent < self.node_seq().len(),
                c == 0 || (c as int) < self.node_seq().len(),
                scan(self.node_seq(), c as int, code) == child(self.node_seq(), parent as int, code),
            decreases if c == 0 { 0 } else { self.node_seq().len() - c },
        {
            let node = self.nodes[c as usize];
            if node.char_code == code {
                return Some(c);
            }
            c = node.next_sibling;
        }
        None
    }

    /// Appends the words under node `start`, spelled from `prefix`, in depth-first order,
    /// until `results` holds `limit` entries.
    pub fn collect_words(
        &self,
        start: u32,
        prefix: &str,
        results: &mut Vec<(String, u8)>,
        limit: usize,
    )
        requires
            self.wf(),
            start < self.node_seq().len(),
        ensures
            results_view(final(results)@) == capped(
                results_view(old(results)@),
                words_at(self.node_seq(), start as int, prefix@),
                limit as nat,
            ),
    {
        let p = chars_of(prefix);
        self.collect_from(start, &p, results, limit);
    }

    fn collect_from(
        &self,
        start: u32,
        prefix: &Vec<char>,
        results: &mut Vec<(String, u8)>,
        limit: usize,
    )
        requires
            self.wf(),
            start < self.node_seq().len(),
        ensures
            results_view(final(results)@) == capped(
                results_view(old(results)@),
                words_at(self.node_seq(), start as int, prefix@),
                limit as nat,
            ),
        decreases self.node_seq().len() - start,
    {
        let ghost nodes = self.node_seq();
        let ghost all = words_at(nodes, start as int, prefix@);
        if results.len() >= limit {
            return;
        }
        let node = self.nodes[start as usize];
        let ghost own = if node.frequency > 0 {
            seq![(prefix@, node.frequency)]
        } else {
            Seq::<(Seq<char>, u8)>::empty()
        };
        if node.frequency > 0 {
            let s = string_of(prefix);
            results.push((s, node.frequency));
            assert(results_view(results@) =~= results_view(old(results)@) + own);
        } else {
            assert(results_view(results@) =~= results_view(old(results)@) + own);
        }
        assert(results_view(results@) == capped(results_view(old(results)@), own, limit as nat));
        let ghost rest = if node.first_child as int > start as int {
            words_from(nodes, node.first_child as int, prefix@)
        } else {
            Seq::empty()
        };
        assert(all == own + rest);
        proof {
            lemma_capped_compose(results_view(old(results)@), own, rest, limit as nat);
        }
        let mut c = node.first_child;
        while c != 0 && results.len() < limit
            invariant
                self.wf(),
                nodes == self.node_seq(),
                c == 0 || (start < c && (c as int) < nodes.len()),
                capped(results_view(results@), words_from(nodes, c as int, prefix@), limit as nat)
                    == capped(results_view(old(results)@), all, limit as nat),
            decreases if c == 0 { 0 } else { nodes.len() - c },
        {
            let cn = self.nodes[c as usize];
            let ch = char_from_code(cn.char_code);
            let mut np = prefix.clone();
            np.push(ch);
            assert(np@ == prefix@.push(char_of_code(nodes[c as int].char_code)));
            let ghost mid = results_view(results@);
            self.collect_from(c, &np, results, limit);
            let ghost next_rest = if cn.next_sibling as int > c as int {
                words_from(nodes, cn.next_sibling as int, prefix@)
            } else {
                Seq::empty()
            };
            proof {
                lemma_capped_compose(mid, words_at(nodes, c as int, np@), next_rest, limit as nat);
            }
            c = cn.next_sibling;
        }
        proof {
            if c == 0 {
                assert(words_from(nodes, 0, prefix@) =~= Seq::<(Seq<char>, u8)>::empty());
                assert(capped(results_view(results@), Seq::<(Seq<char>, u8)>::empty(), limit as nat)
                    =~= results_view(results@));
            }
        }
    }

    /// The checksum over all nodes.
    pub fn calculate_checksum(&self) -> (r: u32)
        requires
            self.wf(),
        ensures
            r == checksum_of(self.node_seq(), self.node_seq().len()),
    {
        let mut sum: u32 = 0;
        let mut i: usize = 0;
        while i < self.nodes.len()
            invariant
                i <= self.node_seq().len(),
                self.node_seq().len() <= u32::MAX,
                sum == checksum_of(self.node_seq(), i as nat),
            decreases self.nodes.len() - i,
        {
            let node = self.nodes[i];
            sum = sum.wrapping_add((i as u32).wrapping_mul(node.char_code as u32));
            sum = sum.wrapping_add(node.frequency as u32);
            i += 1;
        }
        sum
    }
}

proof fn lemma_scan_in_bounds(nodes: Seq<BinaryTrieNode>, c: int, code: u16)
    ensures
        scan(nodes, c, code) matches Some(k) ==> 0 < k < nodes.len(),
    decreases nodes.len() - c,
{
    if 0 < c < nodes.len() && nodes[c].char_code != code && c < nodes[c].next_sibling < nodes.len() {
        lemma_scan_in_bounds(nodes, nodes[c].next_sibling as int, code);
    }
}

/// A path leads to an existing node.
pub proof fn lemma_walk_in_bounds(nodes: Seq<BinaryTrieNode>, codes: Seq<u16>)
    ensures
        walk(nodes, codes) matches Some(k) ==> 0 <= k < nodes.len(),
    decreases codes.len(),
{
    if codes.len() > 0 {
        lemma_walk_in_bounds(nodes, codes.drop_last());
        if let Some(p) = walk(nodes, codes.drop_last()) {
            lemma_scan_in_bounds(nodes, nodes[p].first_child as int, codes.last());
        }
    }
}

proof fn lemma_walk_none_extends(nodes: Seq<BinaryTrieNode>, codes: Seq<u16>, k: int)
    requires
        0 <= k <= codes.len(),
        walk(nodes, codes.subrange(0, k)) is None,
    ensures
        walk(nodes, codes) is None,
    decreases codes.len() - k,
{
    if k < codes.len() {
        assert(codes.subrange(0, k + 1).drop_last() =~= codes.subrange(0, k));
        lemma_walk_none_extends(nodes, codes, k + 1);
    } else {
        assert(codes.subrange(0, k) =~= codes);
    }
}

/// Why a dictionary file was rejected.
#[derive(Clone, Copy, Debug, PartialEq, Eq, Structural)]
pub enum TrieError {
    BufferTooSmall,
    InvalidMagic,
    UnsupportedVersion,
    DataTooSmall,
    DecompressionFailed,
    NodeDataTooSmall,
    InvalidNodeLink,
    CanonicalFormsInvalid,
    ChecksumMismatch,
    /// A section does not fit the format's 32-bit sizes.
    TooLarge,
}

impl TrieError {
    /// A short description of the error.
    pub fn message(&self) -> &'static str {
        match self {
            TrieError::BufferTooSmall => "Buffer too small",
            TrieError::InvalidMagic => "Invalid magic bytes",
            TrieError::UnsupportedVersion => "Unsupported version",
            TrieError::DataTooSmall => "Data too small for nodes",
            TrieError::DecompressionFailed => "LZ4 decompression failed",
            TrieError::NodeDataTooSmall => "Decompressed node data too small",
            TrieError::InvalidNodeLink => "Node link out of bounds",
            TrieError::CanonicalFormsInvalid => "Canonical forms are not a JSON object of strings",
            TrieError::ChecksumMismatch => "Checksum mismatch",
            TrieError::TooLarge => "Dictionary too large for the file format",
        }
    }
}

/// The file format version this library reads and writes.
pub const VERSION: u32 = 3;

/// Size of the file header in bytes.
pub const HEADER_SIZE: usize = 24;

/// Size of an encoded node in bytes.
pub const NODE_SIZE: usize = 12;

/// The magic bytes `FBTD`.
pub open spec fn magic() -> Seq<u8> {
    seq![0x46u8, 0x42u8, 0x54u8, 0x44u8]
}

/// The fixed-size header at the start of a dictionary file.
pub struct FileHeader {
    pub magic: [u8; 4],
    pub version: u32,
    pub word_count: u32,
    pub node_count: u32,
    pub checksum: u32,
    pub canonical_count: u32,
}

pub open spec fn header_enc(h: FileHeader) -> Seq<u8> {
    h.magic@ + le32(h.version) + le32(h.word_count) + le32(h.node_count) + le32(h.checksum)
        + le32(h.canonical_count)
}

impl FileHeader {
    pub fn new(word_count: u32, node_count: u32, checksum: u32, canonical_count: u32) -> (r: Self)
        ensures
            r.magic@ == magic(),
            r.version == VERSION,
            r.word_count == word_count,
            r.node_count == node_count,
            r.checksum == checksum,
            r.canonical_count == canonical_count,
    {
        let r = FileHeader {
            magic: [0x46u8, 0x42u8, 0x54u8, 0x44u8],
            version: VERSION,
            word_count,
            node_count,
            checksum,
            canonical_count,
        };
        assert(r.magic@ =~= magic());
        r
    }

    pub fn to_bytes(&self) -> (r: Vec<u8>)
        ensures
            r@ == header_enc(*self),
    {
        let mut out: Vec<u8> = Vec::new();
        out.push(self.magic[0]);
        out.push(self.magic[1]);
        out.push(self.magic[2]);
        out.push(self.magic[3]);
        assert(out@ =~= self.magic@);
        push_u32(&mut out, self.version);
        push_u32(&mut out, self.word_count);
        push_u32(&mut out, self.node_count);
        push_u32(&mut out, self.checksum);
        push_u32(&mut out, self.canonical_count);
        out
    }

    pub fn from_bytes(buf: &[u8]) -> (r: Result<Self, TrieError>)
        ensures
            buf@.len() < HEADER_SIZE ==> r == Err::<Self, TrieError>(TrieError::BufferTooSmall),
            buf@.len() >= HEADER_SIZE && buf@.subrange(0, 4) != magic() ==> r == Err::<
                Self,
                TrieError,
            >(TrieError::InvalidMagic),
            buf@.len() >= HEADER_SIZE && buf@.subrange(0, 4) == magic() && read32(buf@, 4)
                != VERSION ==> r == Err::<Self, TrieError>(TrieError::UnsupportedVersion),
            r is Ok <==> buf@.len() >= HEADER_SIZE && buf@.subrange(0, 4) == magic() && read32(
                buf@,
                4,
            ) == VERSION,
            r matches Ok(h) ==> {
                &&& h.magic@ == magic()
                &&& h.version == VERSION
                &&& h.word_count == read32(buf@, 8)
                &&& h.node_count == read32(buf@, 12)
                &&& h.checksum == read32(buf@, 16)
                &&& h.canonical_count == read32(buf@, 20)
            },
    {
        if buf.len() < HEADER_SIZE {
            return Err(TrieError::BufferTooSmall);
        }
        if !(buf[0] == 0x46u8 && buf[1] == 0x42u8 && buf[2] == 0x54u8 && buf[3] == 0x44u8) {
            proof {
                if buf@.subrange(0, 4) == magic() {
                    assert(buf@.subrange(0, 4)[0] == buf@[0]);
                    assert(buf@.subrange(0, 4)[1] == buf@[1]);
                    assert(buf@.subrange(0, 4)[2] == buf@[2]);
                    assert(buf@.subrange(0, 4)[3] == buf@[3]);
                }
            }
            return Err(TrieError::InvalidMagic);
        }
        assert(buf@.subrange(0, 4) =~= magic());
        let version = get_u32(buf, 4);
        if version != VERSION {
            return Err(TrieError::UnsupportedVersion);
        }
        Ok(
            FileHeader::new(
                get_u32(buf, 8),
                get_u32(buf, 12),
                get_u32(buf, 16),
                get_u32(buf, 20),
            ),
        )
    }
}

pub open spec fn node_enc(n: BinaryTrieNode) -> Seq<u8> {
    le16(n.char_code) + seq![n.frequency, n.flags] + le32(n.first_child) + le32(n.next_sibling)
}

/// The node stored at byte offset `off`.
pub open spec fn node_dec(b: Seq<u8>, off: int) -> BinaryTrieNode {
    BinaryTrieNode {
        char_code: read16(b, off),
        frequency: b[off + 2],
        flags: b[off + 3],
        first_child: read32(b, off + 4),
        next_sibling: read32(b, off + 8),
    }
}

/// The nodes, encoded one after the other.
pub open spec fn node_bytes(nodes: Seq<BinaryTrieNode>) -> Seq<u8>
    decreases nodes.len(),
{
    if nodes.len() == 0 {
        Seq::empty()
    } else {
        node_bytes(nodes.drop_last()) + node_enc(nodes.last())
    }
}

/// The first `count` nodes stored in `b`.
pub open spec fn decode_nodes(b: Seq<u8>, count: nat) -> Seq<BinaryTrieNode> {
    Seq::new(count, |i: int| node_dec(b, 12 * i))
}

impl BinaryTrieNode {
    pub fn to_bytes(&self) -> (r: Vec<u8>)
        ensures
            r@ == node_enc(*self),
    {
        let mut out: Vec<u8> = Vec::new();
        out.push((self.char_code & 0xff) as u8);
        out.push(((self.char_code >> 8) & 0xff) as u8);
        out.push(self.frequency);
        out.push(self.flags);
        push_u32(&mut out, self.first_child);
        push_u32(&mut out, self.next_sibling);
        assert(out@ =~= node_enc(*self));
        out
    }

    /// The node stored at byte offset `off` of `buf`.
    pub fn read_at(buf: &[u8], off: usize) -> (r: Self)
        requires
            off + 12 <= buf@.len(),
        ensures
            r == node_dec(buf@, off as int),
    {
        let _len = buf.len();
        BinaryTrieNode {
            char_code: get_u16(buf, off),
            frequency: buf[off + 2],
            flags: buf[off + 3],
            first_child: get_u32(buf, off + 4),
            next_sibling: get_u32(buf, off + 8),
        }
    }

    pub fn from_bytes(buf: &[u8]) -> (r: Self)
        requires
            buf@.len() >= NODE_SIZE,
        ensures
            r == node_dec(buf@, 0),
    {
        Self::read_at(buf, 0)
    }
}

proof fn lemma_node_round_trip(n: BinaryTrieNode, b: Seq<u8>, off: int)
    requires
        0 <= off,
        off + 12 <= b.len(),
        b.subrange(off, off + 12) == node_enc(n),
    ensures
        node_dec(b, off) == n,
{
    let e = node_enc(n);
    assert(b[off] == e[0] && b[off + 1] == e[1] && b[off + 2] == e[2] && b[off + 3] == e[3]) by {
        assert(b.subrange(off, off + 12)[0] == b[off]);
        assert(b.subrange(off, off + 12)[1] == b[off + 1]);
        assert(b.subrange(off, off + 12)[2] == b[off + 2]);
        assert(b.subrange(off, off + 12)[3] == b[off + 3]);
    }
    assert(b[off + 4] == e[4] && b[off + 5] == e[5] && b[off + 6] == e[6] && b[off + 7] == e[7]) by {
        assert(b.subrange(off, off + 12)[4] == b[off + 4]);
        assert(b.subrange(off, off + 12)[5] == b[off + 5]);
        assert(b.subrange(off, off + 12)[6] == b[off + 6]);
        assert(b.subrange(off, off + 12)[7] == b[off + 7]);
    }
    assert(b[off + 8] == e[8] && b[off + 9] == e[9] && b[off + 10] == e[10] && b[off + 11] == e[11])
        by {
        assert(b.subrange(off, off + 12)[8] == b[off + 8]);
        assert(b.subrange(off, off + 12)[9] == b[off + 9]);
        assert(b.subrange(off, off + 12)[10] == b[off + 10]);
        assert(b.subrange(off, off + 12)[11] == b[off + 11]);
    }
    crate::codec::lemma_le16_round_trip(n.char_code);
    crate::codec::lemma_le32_round_trip(n.first_child);
    crate::codec::lemma_le32_round_trip(n.next_sibling);
    assert(read16(b, off) == read16(le16(n.char_code), 0));
    assert(read32(b, off + 4) == read32(le32(n.first_child), 0));
    assert(read32(b, off + 8) == read32(le32(n.next_sibling), 0));
}

/// Encoded nodes decode to themselves.
pub proof fn lemma_nodes_round_trip(nodes: Seq<BinaryTrieNode>)
    ensures
        node_bytes(nodes).len() == 12 * nodes.len(),
        decode_nodes(node_bytes(nodes), nodes.len()) == nodes,
    decreases nodes.len(),
{
    if nodes.len() > 0 {
        let pre = nodes.drop_last();
        lemma_nodes_round_trip(pre);
        let b = node_bytes(nodes);
        let pb = node_bytes(pre);
        assert forall|i: int| 0 <= i < nodes.len() implies #[trigger] node_dec(b, 12 * i)
            == nodes[i] by {
            if i < pre.len() {
                assert(node_dec(pb, 12 * i) == pre[i]);
                assert(node_dec(b, 12 * i) == node_dec(pb, 12 * i));
            } else {
                assert(b.subrange(12 * i, 12 * i + 12) =~= node_enc(nodes.last()));
                lemma_node_round_trip(nodes.last(), b, 12 * i);
            }
        }
        assert(decode_nodes(b, nodes.len()) =~= nodes);
    }
}

/// What `lz4_flex` decompresses from size-prefixed LZ4 data, if it is well formed.
pub uninterp spec fn lz4_unpacked(data: Seq<u8>) -> Option<Seq<u8>>;

/// The JSON object that `serde_json` writes for these key/value pairs.
pub uninterp spec fn forms_json(pairs: Seq<(Seq<char>, Seq<char>)>) -> Seq<u8>;

/// The entries of a JSON object of strings as `serde_json` reads it, if the bytes are one.
pub uninterp spec fn json_forms(bytes: Seq<u8>) -> Option<Seq<(Seq<char>, Seq<char>)>>;

#[verifier::external_type_specification]
#[verifier::external_body]
pub struct ExDecompressError(lz4_flex::block::DecompressError);

#[verifier::external_type_specification]
#[verifier::external_body]
pub struct ExJsonError(serde_json::Error);

/// Relies on `lz4_flex::compress_prepend_size`, whose output (led by the 4-byte size)
/// `lz4_flex::decompress_size_prepended` restores; the size is written as 32 bits, and the
/// output is at most 4 bytes more than `get_maximum_output_size` of the input length.
#[verifier::external_body]
fn lz4_compress(data: &[u8]) -> (r: Vec<u8>)
    requires
        data@.len() <= u32::MAX,
    ensures
        r@.len() >= 4,
        data@.len() * 110 <= usize::MAX ==> r@.len() <= 24 + data@.len() * 110 / 100,
        lz4_unpacked(r@) == Some(data@),
{
    lz4_flex::compress_prepend_size(data)
}

/// Relies on `lz4_flex::decompress_size_prepended`.
#[verifier::external_body]
fn lz4_decompress(data: &[u8]) -> (r: Result<Vec<u8>, lz4_flex::block::DecompressError>)
    ensures
        r is Ok <==> lz4_unpacked(data@) is Some,
        r matches Ok(v) ==> lz4_unpacked(data@) == Some(v@),
{
    lz4_flex::decompress_size_prepended(data)
}

/// Relies on `serde_json::to_vec` of a map of strings, which `serde_json::from_slice` reads
/// back as the same map.
#[verifier::external_body]
fn forms_to_json(pairs: &Vec<(String, String)>) -> (r: Vec<u8>)
    requires
        forall|i: int, j: int|
            0 <= i < j < pairs@.len() ==> (#[trigger] pairs@[i]).0@ != (#[trigger] pairs@[j]).0@,
    ensures
        r@ == forms_json(pairs_view(pairs@)),
        json_forms(r@) is Some,
        pair_map(json_forms(r@)->0) == pair_map(pairs_view(pairs@)),
{
    let m: std::collections::BTreeMap<&str, &str> = pairs.iter().map(
        |p| (p.0.as_str(), p.1.as_str()),
    ).collect();
    serde_json::to_vec(&m).unwrap_or_default()
}

/// Relies on `serde_json::from_slice` into a map of strings.
#[verifier::external_body]
fn json_to_forms(bytes: &[u8]) -> (r: Result<Vec<(String, String)>, serde_json::Error>)
    ensures
        r is Ok <==> json_forms(bytes@) is Some,
        r matches Ok(v) ==> json_forms(bytes@) == Some(pairs_view(v@)),
{
    serde_json::from_slice::<std::collections::BTreeMap<String, String>>(bytes).map(
        |m| m.into_iter().collect(),
    )
}

/// The bytes of a dictionary file for `t`, with its nodes and its canonical forms
/// compressed as `packed_nodes` and `packed_forms`.
pub open spec fn file_bytes(t: BinaryTrie, packed_nodes: Seq<u8>, packed_forms: Seq<u8>) -> Seq<u8> {
    let nodes = t.node_seq();
    magic() + le32(VERSION) + le32(t.words() as u32) + le32(nodes.len() as u32) + le32(
        checksum_of(nodes, nodes.len()),
    ) + le32(t.forms().keys().len() as u32) + le32(packed_nodes.len() as u32) + packed_nodes
        + packed_forms
}

/// The canonical forms stored after the nodes, which end at `end`.
pub open spec fn decode_forms(d: Seq<u8>, end: int) -> Result<
    Map<Seq<char>, Seq<char>>,
    TrieError,
> {
    if read32(d, 20) > 0 && d.len() > end {
        match lz4_unpacked(d.subrange(end, d.len() as int)) {
            None => Err(TrieError::DecompressionFailed),
            Some(j) => match json_forms(j) {
                None => Err(TrieError::CanonicalFormsInvalid),
                Some(p) => Ok(pair_map(p)),
            },
        }
    } else {
        Ok(Map::empty())
    }
}

/// What a dictionary file holds: its nodes, canonical forms and word count, or why it is
/// rejected.
pub open spec fn decode_file(d: Seq<u8>) -> Result<
    (Seq<BinaryTrieNode>, Map<Seq<char>, Seq<char>>, u32),
    TrieError,
> {
    if d.len() < 24 {
        Err(TrieError::BufferTooSmall)
    } else if d.subrange(0, 4) != magic() {
        Err(TrieError::InvalidMagic)
    } else if read32(d, 4) != VERSION {
        Err(TrieError::UnsupportedVersion)
    } else if d.len() < 28 || d.len() < 28 + read32(d, 24) {
        Err(TrieError::DataTooSmall)
    } else {
        let end = 28 + read32(d, 24);
        match lz4_unpacked(d.subrange(28, end)) {
            None => Err(TrieError::DecompressionFailed),
            Some(nd) => {
                let count = read32(d, 12) as nat;
                if nd.len() < 12 * count {
                    Err(TrieError::NodeDataTooSmall)
                } else {
                    let nodes = decode_nodes(nd, count);
                    if count == 0 || !links_ok(nodes) {
                        Err(TrieError::InvalidNodeLink)
                    } else {
                        match decode_forms(d, end) {
                            Err(e) => Err(e),
                            Ok(f) => if checksum_of(nodes, count) != read32(d, 16) {
                                Err(TrieError::ChecksumMismatch)
                            } else {
                                Ok((nodes, f, read32(d, 8)))
                            },
                        }
                    }
                }
            },
        }
    }
}

fn decode_node_list(nd: &Vec<u8>, count: u32) -> (r: Vec<BinaryTrieNode>)
    requires
        12 * (count as int) <= nd@.len(),
    ensures
        r@ == decode_nodes(nd@, count as nat),
{
    let mut nodes: Vec<BinaryTrieNode> = Vec::new();
    let mut i: usize = 0;
    while i < count as usize
        invariant
            12 * (count as int) <= nd@.len(),
            i <= count,
            nodes@ == decode_nodes(nd@, i as nat),
        decreases count - i,
    {
        let _len = nd.len();
        proof {
            assert(12 * (i as int) + 12 <= 12 * (count as int)) by (nonlinear_arith)
                requires
                    i < count,
            ;
        }
        let node = BinaryTrieNode::read_at(nd.as_slice(), 12 * i);
        nodes.push(node);
        i += 1;
        assert(nodes@ =~= decode_nodes(nd@, i as nat));
    }
    nodes
}

fn links_valid(nodes: &Vec<BinaryTrieNode>) -> (r: bool)
    ensures
        r == links_ok(nodes@),
{
    let mut j: usize = 0;
    while j < nodes.len()
        invariant
            j <= nodes@.len(),
            forall|k: int|
                #![trigger nodes@[k]]
                0 <= k < j ==> {
                    &&& (nodes@[k].first_child == 0 || (k < nodes@[k].first_child < nodes@.len()))
                    &&& (nodes@[k].next_sibling == 0 || (k < nodes@[k].next_sibling
                        < nodes@.len()))
                },
        decreases nodes.len() - j,
    {
        let n = nodes[j];
        let fc_ok = n.first_child == 0 || (j < n.first_child as usize && (n.first_child as usize)
            < nodes.len());
        let ns_ok = n.next_sibling == 0 || (j < n.next_sibling as usize && (n.next_sibling as usize)
            < nodes.len());
        if !(fc_ok && ns_ok) {
            assert(!links_ok(nodes@)) by {
                assert(nodes@[j as int] == n);
            }
            return false;
        }
        j += 1;
    }
    true
}

fn forms_from_pairs(pairs: Vec<(String, String)>) -> (r: WordMap<String>)
    ensures
        r.wf(),
        text_map(r@) == pair_map(pairs_view(pairs@)),
{
    let ghost pv = pairs_view(pairs@);
    let mut forms: WordMap<String> = WordMap::new();
    let mut k: usize = 0;
    let n_pairs = pairs.len();
    proof {
        assert(text_map(forms@) =~= Map::<Seq<char>, Seq<char>>::empty());
        assert(pv.subrange(0, 0) =~= Seq::<(Seq<char>, Seq<char>)>::empty());
    }
    while k < n_pairs
        invariant
            n_pairs == pairs@.len(),
            k <= n_pairs,
            pv == pairs_view(pairs@),
            forms.wf(),
            text_map(forms@) == pair_map(pv.subrange(0, k as int)),
        decreases n_pairs - k,
    {
        let key = pairs[k].0.clone();
        let val = pairs[k].1.clone();
        proof {
            lemma_text_map_insert(forms@, key@, val);
            assert(pv.subrange(0, k as int + 1).drop_last() =~= pv.subrange(0, k as int));
        }
        forms.insert(key, val);
        k += 1;
    }
    assert(pv.subrange(0, n_pairs as int) =~= pv);
    forms
}

proof fn lemma_read32_at(d: Seq<u8>, off: int, x: u32)
    requires
        0 <= off,
        off + 4 <= d.len(),
        d.subrange(off, off + 4) == le32(x),
    ensures
        read32(d, off) == x,
{
    crate::codec::lemma_le32_round_trip(x);
    assert(d.subrange(off, off + 4)[0] == d[off]);
    assert(d.subrange(off, off + 4)[1] == d[off + 1]);
    assert(d.subrange(off, off + 4)[2] == d[off + 2]);
    assert(d.subrange(off, off + 4)[3] == d[off + 3]);
}

/// A written file decodes to the trie's nodes, forms and word count, given what `lz4_flex`
/// and `serde_json` restore.
proof fn lemma_decode_file_bytes(t: BinaryTrie, packed: Seq<u8>, pf: Seq<u8>)
    requires
        t.wf(),
        packed.len() <= u32::MAX,
        t.forms().keys().len() <= u32::MAX,
        lz4_unpacked(packed) == Some(node_bytes(t.node_seq())),
        lz4_unpacked(pf) == Some(forms_json(t.forms().text_pairs())),
        pf.len() >= 4,
        json_forms(forms_json(t.forms().text_pairs())) is Some,
        pair_map(json_forms(forms_json(t.forms().text_pairs()))->0) == text_map(t.forms()@),
    ensures
        decode_file(file_bytes(t, packed, pf)) == Ok::<
            (Seq<BinaryTrieNode>, Map<Seq<char>, Seq<char>>, u32),
            TrieError,
        >((t.node_seq(), text_map(t.forms()@), t.words() as u32)),
{
    let nodes = t.node_seq();
    let d = file_bytes(t, packed, pf);
    let plen = packed.len() as u32;
    let fcount = t.forms().keys().len() as u32;
    assert(d.len() == 28 + packed.len() + pf.len());
    assert(d.subrange(0, 4) =~= magic());
    assert(d.subrange(4, 8) =~= le32(VERSION));
    assert(d.subrange(8, 12) =~= le32(t.words() as u32));
    assert(d.subrange(12, 16) =~= le32(nodes.len() as u32));
    assert(d.subrange(16, 20) =~= le32(checksum_of(nodes, nodes.len())));
    assert(d.subrange(20, 24) =~= le32(fcount));
    assert(d.subrange(24, 28) =~= le32(plen));
    lemma_read32_at(d, 4, VERSION);
    lemma_read32_at(d, 8, t.words() as u32);
    lemma_read32_at(d, 12, nodes.len() as u32);
    lemma_read32_at(d, 16, checksum_of(nodes, nodes.len()));
    lemma_read32_at(d, 20, fcount);
    lemma_read32_at(d, 24, plen);
    assert(plen as int == packed.len());
    assert((nodes.len() as u32) as int == nodes.len());
    assert(fcount as int == t.forms().keys().len());
    let end: int = 28 + packed.len() as int;
    assert(d.subrange(28, end) =~= packed);
    lemma_nodes_round_trip(nodes);
    t.forms().lemma_len();
    if fcount > 0 {
        assert(d.subrange(end, d.len() as int) =~= pf);
    } else {
        assert(text_map(t.forms()@) =~= Map::<Seq<char>, Seq<char>>::empty());
    }
}

/// Two well-formed maps with the same texts hold the same number of keys.
pub proof fn lemma_same_forms_same_count(a: WordMap<String>, b: WordMap<String>)
    requires
        a.wf(),
        b.wf(),
        text_map(a@) == text_map(b@),
    ensures
        a.keys().len() == b.keys().len(),
{
    a.lemma_len();
    b.lemma_len();
    assert(a@.dom() =~= text_map(a@).dom());
    assert(b@.dom() =~= text_map(b@).dom());
}

impl BinaryTrie {
    /// The dictionary file for this trie. It fails only where a section does not fit the
    /// format's 32-bit sizes.
    pub fn serialize(&self) -> (r: Result<Vec<u8>, TrieError>)
        requires
            self.wf(),
        ensures
            r matches Ok(d) ==> decode_file(d@) == Ok::<
                (Seq<BinaryTrieNode>, Map<Seq<char>, Seq<char>>, u32),
                TrieError,
            >((self.node_seq(), text_map(self.forms()@), self.words() as u32)),
            r is Err ==> r == Err::<Vec<u8>, TrieError>(TrieError::TooLarge),
            12 * self.node_seq().len() > u32::MAX || self.forms().keys().len() > u32::MAX
                || forms_json(self.forms().text_pairs()).len() > u32::MAX ==> r is Err,
            24 + 12 * self.node_seq().len() * 110 / 100 <= u32::MAX && 12 * self.node_seq().len()
                * 110 <= usize::MAX && self.forms().keys().len() <= u32::MAX && forms_json(
                self.forms().text_pairs(),
            ).len() <= u32::MAX ==> r is Ok,
    {
        if self.nodes.len() > 0x1555_5555usize || self.canonical_forms.len() > 0xffff_ffffusize {
            return Err(TrieError::TooLarge);
        }
        let checksum = self.calculate_checksum();
        #[verifier::truncate]
        let words = self.word_count as u32;
        #[verifier::truncate]
        let forms = self.canonical_forms.len() as u32;
        let header = FileHeader::new(words, self.nodes.len() as u32, checksum, forms);
        let mut node_data: Vec<u8> = Vec::new();
        let mut i: usize = 0;
        while i < self.nodes.len()
            invariant
                i <= self.node_seq().len(),
                node_data@ == node_bytes(self.node_seq().subrange(0, i as int)),
            decreases self.nodes.len() - i,
        {
            let b = self.nodes[i].to_bytes();
            let mut k: usize = 0;
            let ghost before = node_data@;
            while k < b.len()
                invariant
                    k <= b@.len(),
                    node_data@ == before + b@.subrange(0, k as int),
                decreases b.len() - k,
            {
                node_data.push(b[k]);
                k += 1;
                assert(node_data@ =~= before + b@.subrange(0, k as int));
            }
            assert(self.node_seq().subrange(0, i as int + 1).drop_last() =~= self.node_seq().subrange(
                0,
                i as int,
            ));
            assert(b@.subrange(0, b@.len() as int) =~= b@);
            i += 1;
        }
        assert(self.node_seq().subrange(0, i as int) =~= self.node_seq());
        proof {
            lemma_nodes_round_trip(self.node_seq());
        }
        let packed_nodes = lz4_compress(node_data.as_slice());
        if packed_nodes.len() > 0xffff_ffffusize {
            return Err(TrieError::TooLarge);
        }
        let pairs = self.canonical_forms.pairs();
        let json = forms_to_json(&pairs);
        if json.len() > 0xffff_ffffusize {
            return Err(TrieError::TooLarge);
        }
        let packed_forms = lz4_compress(json.as_slice());
        let mut data = header.to_bytes();
        #[verifier::truncate]
        let packed_len = packed_nodes.len() as u32;
        push_u32(&mut data, packed_len);
        let ghost pn = packed_nodes@;
        let ghost pfm = packed_forms@;
        let mut a = packed_nodes;
        data.append(&mut a);
        let mut c = packed_forms;
        data.append(&mut c);
        assert(data@ =~= file_bytes(*self, pn, pfm));
        proof {
            lemma_decode_file_bytes(*self, pn, pfm);
        }
        Ok(data)
    }

    /// Reads a dictionary file; a malformed file leaves nothing behind. Besides staying in
    /// bounds, every link must point to a later node, which rules out cycles; files written
    /// by `serialize` always satisfy this.
    pub fn deserialize(data: &[u8]) -> (r: Result<Self, TrieError>)
        ensures
            r is Ok <==> decode_file(data@) is Ok,
            r matches Err(e) ==> decode_file(data@) == Err::<
                (Seq<BinaryTrieNode>, Map<Seq<char>, Seq<char>>, u32),
                TrieError,
            >(e),
            r matches Ok(t) ==> {
                &&& t.wf()
                &&& decode_file(data@) matches Ok(d)
                &&& t.node_seq() == d.0
                &&& text_map(t.forms()@) == d.1
                &&& t.words() == d.2
            },
    {
        let header = match FileHeader::from_bytes(data) {
            Ok(h) => h,
            Err(e) => {
                return Err(e);
            },
        };
        if data.len() < 28 {
            return Err(TrieError::DataTooSmall);
        }
        let clen = get_u32(data, 24);
        if (data.len() as u64) < 28 + clen as u64 {
            return Err(TrieError::DataTooSmall);
        }
        let end: usize = 28 + clen as usize;
        let packed = vstd::slice::slice_subrange(data, 28, end);
        let nd = match lz4_decompress(packed) {
            Ok(v) => v,
            Err(_) => {
                return Err(TrieError::DecompressionFailed);
            },
        };
        let count = header.node_count;
        if (nd.len() as u64) < 12 * (count as u64) {
            return Err(TrieError::NodeDataTooSmall);
        }
        let nodes = decode_node_list(&nd, count);
        if count == 0 {
            return Err(TrieError::InvalidNodeLink);
        }
        if !links_valid(&nodes) {
            return Err(TrieError::InvalidNodeLink);
        }
        let mut forms: WordMap<String> = WordMap::new();
        if header.canonical_count > 0 && data.len() > end {
            let tail = vstd::slice::slice_subrange(data, end, data.len());
            let json = match lz4_decompress(tail) {
                Ok(v) => v,
                Err(_) => {
                    return Err(TrieError::DecompressionFailed);
                },
            };
            let pairs = match json_to_forms(json.as_slice()) {
                Ok(p) => p,
                Err(_) => {
                    return Err(TrieError::CanonicalFormsInvalid);
                },
            };
            forms = forms_from_pairs(pairs);
        } else {
            proof {
                assert(text_map(forms@) =~= Map::<Seq<char>, Seq<char>>::empty());
            }
        }
        let trie = BinaryTrie { nodes, word_count: header.word_count as usize, canonical_forms: forms };
        if trie.calculate_checksum() != header.checksum {
            return Err(TrieError::ChecksumMismatch);
        }
        Ok(trie)
    }
}

/// Why a dictionary could not be built from JSON.
#[derive(Clone, Copy, Debug, PartialEq, Eq, Structural)]
pub enum BuildError {
    /// The text is not a JSON object of words to non-negative integers.
    InvalidJson,
    /// A frequency does not fit in a byte.
    FrequencyOutOfRange,
    /// The trie would need more nodes than 32-bit links can address.
    TooLarge,
}

/// The total length of the entries' lookup keys.
pub open spec fn key_chars(es: Seq<(Seq<char>, u64)>) -> nat
    decreases es.len(),
{
    if es.len() == 0 {
        0
    } else {
        key_chars(es.drop_last()) + lookup_key(es.last().0).len()
    }
}

proof fn lemma_key_chars_prefix(es: Seq<(Seq<char>, u64)>, k: int)
    requires
        0 <= k <= es.len(),
    ensures
        key_chars(es.subrange(0, k)) <= key_chars(es),
    decreases es.len() - k,
{
    if k < es.len() {
        lemma_key_chars_prefix(es, k + 1);
        assert(es.subrange(0, k + 1).drop_last() =~= es.subrange(0, k));
    } else {
        assert(es.subrange(0, k) =~= es);
    }
}

proof fn lemma_key_chars_remove(es: Seq<(Seq<char>, u64)>, j: int)
    requires
        0 <= j < es.len(),
    ensures
        key_chars(es) == key_chars(es.remove(j)) + lookup_key(es[j].0).len(),
    decreases es.len(),
{
    if j == es.len() - 1 {
        assert(es.remove(j) =~= es.drop_last());
    } else {
        lemma_key_chars_remove(es.drop_last(), j);
        assert(es.remove(j).drop_last() =~= es.drop_last().remove(j));
        assert(es.remove(j).last() == es.last());
    }
}

/// Reordering the entries keeps the total key length.
proof fn lemma_key_chars_perm(a: Seq<(String, u64)>, b: Seq<(String, u64)>)
    requires
        a.to_multiset() == b.to_multiset(),
    ensures
        key_chars(counts_view(a)) == key_chars(counts_view(b)),
    decreases a.len(),
{
    broadcast use vstd::seq_lib::group_to_multiset_ensures;

    if a.len() == 0 {
        vstd::seq_lib::to_multiset_len(b);
        assert(counts_view(a) =~= Seq::<(Seq<char>, u64)>::empty());
        assert(counts_view(b) =~= Seq::<(Seq<char>, u64)>::empty());
    } else {
        let x = a.last();
        let a0 = a.drop_last();
        assert(a0.push(x) =~= a);
        vstd::seq_lib::to_multiset_build(a0, x);
        vstd::seq_lib::to_multiset_contains(b, x);
        assert(b.to_multiset().count(x) > 0);
        let j = choose|j: int| 0 <= j < b.len() && b[j] == x;
        vstd::seq_lib::to_multiset_remove(b, j);
        assert(a0.to_multiset() =~= b.remove(j).to_multiset());
        lemma_key_chars_perm(a0, b.remove(j));
        assert(counts_view(a).drop_last() =~= counts_view(a0));
        assert(counts_view(b.remove(j)) =~= counts_view(b).remove(j));
        lemma_key_chars_remove(counts_view(b), j);
    }
}

pub open spec fn all_bytes(es: Seq<(Seq<char>, u64)>) -> bool {
    forall|i: int| 0 <= i < es.len() ==> (#[trigger] es[i]).1 <= 255
}

/// Every entry with a positive frequency can be found under its lookup key.
pub open spec fn finds_all(t: BinaryTrie, es: Seq<(Seq<char>, u64)>) -> bool {
    forall|i: int|
        0 <= i < es.len() && (#[trigger] es[i]).1 > 0 && lookup_key(es[i].0).len() > 0
            ==> (t.freq_of(lookup_key(es[i].0)) matches Some(g) && g > 0)
}

/// Every entry whose trimmed spelling carries information has a canonical form filed.
pub open spec fn files_all(forms: Map<Seq<char>, Seq<char>>, es: Seq<(Seq<char>, u64)>) -> bool {
    forall|i: int|
        0 <= i < es.len() && preserves_canonical(trim_of((#[trigger] es[i]).0)) ==> forms.contains_key(
            lookup_key(trim_of(es[i].0)),
        )
}

/// Every canonical form filed is the trimmed spelling of an entry, under its lookup key.
pub open spec fn files_only(forms: Map<Seq<char>, Seq<char>>, es: Seq<(Seq<char>, u64)>) -> bool {
    forall|key: Seq<char>|
        #[trigger] forms.contains_key(key) ==> exists|i: int|
            0 <= i < es.len() && preserves_canonical(trim_of((#[trigger] es[i]).0)) && lookup_key(
                trim_of(es[i].0),
            ) == key && forms[key] == trim_of(es[i].0)
}

/// Entry `j` has a positive frequency and a non-empty lookup key.
pub open spec fn pos_entry(es: Seq<(Seq<char>, u64)>, j: int) -> bool {
    0 <= j < es.len() && es[j].1 > 0 && lookup_key(es[j].0).len() > 0
}

/// The lookup keys of `a` and `b` lead to the same node of `t`.
pub open spec fn same_node(t: BinaryTrie, a: Seq<char>, b: Seq<char>) -> bool {
    walk(t.node_seq(), codes_of(lookup_key(a))) == walk(t.node_seq(), codes_of(lookup_key(b)))
}

/// Entry `i`'s node stores the least frequency among the entries that lead to it.
pub open spec fn least_at(t: BinaryTrie, es: Seq<(Seq<char>, u64)>, i: int) -> bool {
    &&& t.freq_of(lookup_key(es[i].0)) matches Some(g)
    &&& exists|j: int|
        #[trigger] pos_entry(es, j) && same_node(t, es[j].0, es[i].0) && g as u64 == es[j].1
    &&& forall|j: int|
        #[trigger] pos_entry(es, j) && same_node(t, es[j].0, es[i].0) ==> g as u64 <= es[j].1
}

/// Each entry's node stores the least frequency among the entries that lead to it; in
/// particular an entry whose node no other entry reaches stores its own frequency.
#[verifier::opaque]
pub open spec fn stores_least(t: BinaryTrie, es: Seq<(Seq<char>, u64)>) -> bool {
    forall|i: int| #[trigger] pos_entry(es, i) ==> least_at(t, es, i)
}

/// What inserting `word` with frequency `f` into `before` gives `after`.
pub open spec fn inserted(before: BinaryTrie, after: BinaryTrie, word: Seq<char>, f: u8) -> bool {
    &&& (f == 0 || word.len() == 0 ==> after.node_seq() == before.node_seq())
    &&& (f > 0 && word.len() > 0 ==> {
        &&& grows(before.node_seq(), after.node_seq())
        &&& after.freq_of(word) == Some(f)
        &&& forall|w: Seq<char>|
            #![trigger after.freq_of(w)]
            before.freq_of(w) is Some && walk(after.node_seq(), codes_of(w)) != walk(
                after.node_seq(),
                codes_of(word),
            ) ==> after.freq_of(w) == before.freq_of(w)
    })
}

proof fn lemma_least_new(after: BinaryTrie, pre: Seq<(Seq<char>, u64)>, e: (Seq<char>, u64))
    requires
        forall|j: int| 0 <= j < pre.len() ==> (#[trigger] pre[j]).1 >= e.1,
        e.1 <= 255,
        e.1 > 0 && lookup_key(e.0).len() > 0,
        after.freq_of(lookup_key(e.0)) == Some(e.1 as u8),
    ensures
        least_at(after, pre.push(e), pre.len() as int),
{
    let post = pre.push(e);
    let k = pre.len() as int;
    assert(post[k] == e);
    assert(pos_entry(post, k) && same_node(after, post[k].0, post[k].0));
    assert forall|j: int|
        #[trigger] pos_entry(post, j) && same_node(after, post[j].0, post[k].0) implies (e.1 as u8)
            as u64 <= post[j].1 by {
        if j < k {
            assert(post[j] == pre[j]);
        }
    }
}

#[verifier::rlimit(60)]
proof fn lemma_least_kept(
    before: BinaryTrie,
    after: BinaryTrie,
    pre: Seq<(Seq<char>, u64)>,
    e: (Seq<char>, u64),
    i: int,
)
    requires
        0 <= i < pre.len(),
        pos_entry(pre, i),
        least_at(before, pre, i),
        forall|j: int| #[trigger] pos_entry(pre, j) ==> before.freq_of(lookup_key(pre[j].0)) is Some,
        forall|j: int| 0 <= j < pre.len() ==> (#[trigger] pre[j]).1 >= e.1,
        e.1 <= 255,
        inserted(before, after, lookup_key(e.0), e.1 as u8),
    ensures
        least_at(after, pre.push(e), i),
{
    let post = pre.push(e);
    let k = pre.len() as int;
    assert(post[k] == e);
    assert(post[i] == pre[i]);
    let wi = lookup_key(pre[i].0);
    let g = before.freq_of(wi)->0;
    let j0 = choose|j: int|
        #[trigger] pos_entry(pre, j) && same_node(before, pre[j].0, pre[i].0) && g as u64 == pre[j].1;
    assert(post[j0] == pre[j0]);
    if e.1 == 0 || lookup_key(e.0).len() == 0 {
        assert(!pos_entry(post, k));
        assert(pos_entry(post, j0) && same_node(after, post[j0].0, post[i].0));
        assert forall|j: int|
            #[trigger] pos_entry(post, j) && same_node(after, post[j].0, post[i].0) implies g as u64
                <= post[j].1 by {
            assert(post[j] == pre[j]);
            assert(pos_entry(pre, j));
        }
    } else {
        let ke = lookup_key(e.0);
        lemma_walk_grows(before.node_seq(), after.node_seq(), codes_of(wi));
        if walk(after.node_seq(), codes_of(wi)) == walk(after.node_seq(), codes_of(ke)) {
            assert(after.freq_of(wi) == after.freq_of(ke));
            assert(pos_entry(post, k) && same_node(after, post[k].0, post[i].0));
            assert forall|j: int|
                #[trigger] pos_entry(post, j) && same_node(after, post[j].0, post[i].0) implies (e.1
                    as u8) as u64 <= post[j].1 by {
                if j < k {
                    assert(post[j] == pre[j]);
                }
            }
        } else {
            assert(after.freq_of(wi) == before.freq_of(wi));
            lemma_walk_grows(before.node_seq(), after.node_seq(), codes_of(lookup_key(pre[j0].0)));
            assert(pos_entry(post, j0) && same_node(after, post[j0].0, post[i].0));
            assert forall|j: int|
                #[trigger] pos_entry(post, j) && same_node(after, post[j].0, post[i].0) implies g as u64
                    <= post[j].1 by {
                if j < k {
                    assert(post[j] == pre[j]);
                    assert(pos_entry(pre, j));
                    lemma_walk_grows(before.node_seq(), after.node_seq(), codes_of(lookup_key(pre[j].0)));
                    assert(same_node(before, pre[j].0, pre[i].0));
                }
            }
        }
    }
}

#[verifier::rlimit(60)]
proof fn lemma_stores_least_step(
    before: BinaryTrie,
    after: BinaryTrie,
    pre: Seq<(Seq<char>, u64)>,
    e: (Seq<char>, u64),
)
    requires
        stores_least(before, pre),
        forall|j: int| 0 <= j < pre.len() ==> (#[trigger] pre[j]).1 >= e.1,
        e.1 <= 255,
        inserted(before, after, lookup_key(e.0), e.1 as u8),
    ensures
        stores_least(after, pre.push(e)),
{
    reveal(stores_least);
    assert forall|i: int| #[trigger] pos_entry(pre.push(e), i) implies least_at(after, pre.push(e), i) by {
        let k = pre.len() as int;
        if i == k {
            lemma_least_new(after, pre, e);
        } else {
            assert(pre.push(e)[i] == pre[i]);
            assert(pos_entry(pre, i));
            assert forall|j: int| #[trigger] pos_entry(pre, j) implies before.freq_of(lookup_key(pre[j].0)) is Some by {
                assert(least_at(before, pre, j));
            }
            lemma_least_kept(before, after, pre, e, i);
        }
    }
}

/// Where an entry of `a` stands in `b`, when both hold the same entries.
proof fn lemma_index_in(a: Seq<(String, u64)>, b: Seq<(String, u64)>, i: int) -> (j: int)
    requires
        a.to_multiset() == b.to_multiset(),
        0 <= i < a.len(),
    ensures
        0 <= j < b.len(),
        b[j] == a[i],
        counts_view(b)[j] == counts_view(a)[i],
{
    vstd::seq_lib::to_multiset_contains(a, a[i]);
    vstd::seq_lib::to_multiset_contains(b, a[i]);
    assert(a.contains(a[i]));
    let j = choose|j: int| 0 <= j < b.len() && b[j] == a[i];
    j
}

#[verifier::rlimit(60)]
proof fn lemma_perm_entry(t: BinaryTrie, sorted: Seq<(String, u64)>, orig: Seq<(String, u64)>, i: int)
    requires
        sorted.to_multiset() == orig.to_multiset(),
        pos_entry(counts_view(orig), i),
        forall|s: int| #[trigger] pos_entry(counts_view(sorted), s) ==> least_at(t, counts_view(sorted), s),
    ensures
        least_at(t, counts_view(orig), i),
{
    let sv = counts_view(sorted);
    let es = counts_view(orig);
    let s = lemma_index_in(orig, sorted, i);
    assert(pos_entry(sv, s));
    assert(least_at(t, sv, s));
    let g = t.freq_of(lookup_key(sv[s].0))->0;
    let j0 = choose|j: int| #[trigger] pos_entry(sv, j) && same_node(t, sv[j].0, sv[s].0) && g as u64 == sv[j].1;
    let i0 = lemma_index_in(sorted, orig, j0);
    assert(pos_entry(es, i0) && same_node(t, es[i0].0, es[i].0) && g as u64 == es[i0].1);
    assert forall|j: int| #[trigger] pos_entry(es, j) && same_node(t, es[j].0, es[i].0) implies g as u64 <= es[j].1 by {
        let s2 = lemma_index_in(orig, sorted, j);
        assert(pos_entry(sv, s2));
    }
}

proof fn lemma_back_to_entries(t: BinaryTrie, sorted: Seq<(String, u64)>, orig: Seq<(String, u64)>)
    requires
        stores_least(t, counts_view(sorted)),
        sorted.to_multiset() == orig.to_multiset(),
    ensures
        stores_least(t, counts_view(orig)),
{
    reveal(stores_least);
    assert forall|i: int| #[trigger] pos_entry(counts_view(orig), i) implies least_at(t, counts_view(orig), i) by {
        lemma_perm_entry(t, sorted, orig, i);
    }
}

/// In a trie built from entries, an entry whose node no other entry reaches is found with
/// its own frequency.
pub proof fn lemma_own_frequency(t: BinaryTrie, es: Seq<(Seq<char>, u64)>, i: int)
    requires
        stores_least(t, es),
        pos_entry(es, i),
        es[i].1 <= 255,
        forall|j: int| #[trigger] pos_entry(es, j) && j != i ==> !same_node(t, es[j].0, es[i].0),
    ensures
        t.freq_of(lookup_key(es[i].0)) == Some(es[i].1 as u8),
{
    reveal(stores_least);
    assert(least_at(t, es, i));
    let g = t.freq_of(lookup_key(es[i].0))->0;
    let j = choose|j: int| #[trigger] pos_entry(es, j) && same_node(t, es[j].0, es[i].0) && g as u64 == es[j].1;
    assert(j == i);
}

proof fn lemma_stores_least_same_nodes(a: BinaryTrie, b: BinaryTrie, es: Seq<(Seq<char>, u64)>)
    requires
        a.node_seq() == b.node_seq(),
        stores_least(a, es),
    ensures
        stores_least(b, es),
{
    reveal(stores_least);
    assert forall|i: int| #[trigger] pos_entry(es, i) implies least_at(b, es, i) by {
        assert(least_at(a, es, i));
        assert forall|j: int| same_node(a, es[j].0, es[i].0) == same_node(b, es[j].0, es[i].0) by {}
        assert(a.freq_of(lookup_key(es[i].0)) == b.freq_of(lookup_key(es[i].0)));
    }
}

proof fn lemma_stores_least_empty(t: BinaryTrie, es: Seq<(Seq<char>, u64)>)
    requires
        es.len() == 0,
    ensures
        stores_least(t, es),
{
    reveal(stores_least);
}

proof fn lemma_sorted_prefix(sorted: Seq<(String, u64)>, k: int)
    requires
        sorted_desc(sorted),
        0 <= k < sorted.len(),
    ensures
        forall|j: int| 0 <= j < k ==> (#[trigger] counts_view(sorted.subrange(0, k))[j]).1
            >= counts_view(sorted)[k].1,
{
    assert forall|j: int| 0 <= j < k implies (#[trigger] counts_view(sorted.subrange(0, k))[j]).1
        >= counts_view(sorted)[k].1 by {
        assert(sorted[j].1 >= sorted[k].1);
    }
}

fn check_bytes(v: &Vec<(String, u64)>) -> (r: bool)
    ensures
        r == all_bytes(counts_view(v@)),
{
    let mut i: usize = 0;
    while i < v.len()
        invariant
            i <= v@.len(),
            forall|k: int| 0 <= k < i ==> (#[trigger] v@[k]).1 <= 255,
        decreases v.len() - i,
    {
        if v[i].1 > 255 {
            assert(counts_view(v@)[i as int].1 > 255);
            return false;
        }
        i += 1;
    }
    true
}

/// Builds a trie from a JSON object of words to frequencies. Words are taken by frequency,
/// highest first; each is stored under its lookup key, and a spelling that carries
/// information (a contraction, acronym or proper noun) is filed as its canonical form.
pub fn build_from_json_with_canonical(json: &str) -> (r: Result<BinaryTrie, BuildError>)
    ensures
        json_counts(json@) is None ==> r == Err::<BinaryTrie, BuildError>(BuildError::InvalidJson),
        json_counts(json@) matches Some(es) && !all_bytes(es) ==> r == Err::<
            BinaryTrie,
            BuildError,
        >(BuildError::FrequencyOutOfRange),
        json_counts(json@) matches Some(es) && all_bytes(es) && key_chars(es) + 1 > u32::MAX
            ==> r == Err::<BinaryTrie, BuildError>(BuildError::TooLarge),
        r is Ok <==> (json_counts(json@) matches Some(es) && all_bytes(es) && key_chars(es) + 1
            <= u32::MAX),
        r matches Ok(t) ==> {
            &&& t.wf()
            &&& json_counts(json@) matches Some(es)
            &&& finds_all(t, es)
            &&& stores_least(t, es)
            &&& files_all(text_map(t.forms()@), es)
            &&& files_only(text_map(t.forms()@), es)
        },
{
    let parsed = match parse_word_counts(json) {
        Ok(v) => v,
        Err(_) => {
            return Err(BuildError::InvalidJson);
        },
    };
    if !check_bytes(&parsed) {
        return Err(BuildError::FrequencyOutOfRange);
    }
    let ghost es = counts_view(parsed@);
    let ghost orig = parsed@;
    let mut total: u64 = 0;
    let mut q: usize = 0;
    while q < parsed.len()
        invariant
            q <= parsed@.len(),
            es == counts_view(parsed@),
            json_counts(json@) == Some(es),
            all_bytes(es),
            total == key_chars(es.subrange(0, q as int)),
            total <= 0xffff_fffe,
        decreases parsed.len() - q,
    {
        proof {
            assert(es.subrange(0, q as int + 1).drop_last() =~= es.subrange(0, q as int));
        }
        let key = normalize_for_lookup(parsed[q].0.as_str());
        let n = key.as_str().unicode_len() as u64;
        if n > 0xffff_fffeu64 - total {
            proof {
                assert(es[q as int].0 == parsed@[q as int].0@);
                lemma_key_chars_prefix(es, q as int + 1);
            }
            return Err(BuildError::TooLarge);
        }
        assert(es[q as int].0 == parsed@[q as int].0@);
        total = total + n;
        q += 1;
    }
    assert(es.subrange(0, q as int) =~= es);
    let sorted = sort_by_count_desc(parsed);
    proof {
        lemma_key_chars_perm(sorted@, orig);
    }
    let mut trie = BinaryTrie::new();
    let mut k: usize = 0;
    let n = sorted.len();
    proof {
        lemma_stores_least_empty(trie, counts_view(sorted@.subrange(0, 0)));
        assert(text_map(trie.forms()@) =~= Map::<Seq<char>, Seq<char>>::empty());
        assert forall|j: int| 0 <= j < sorted@.len() implies (#[trigger] counts_view(sorted@)[j]).1
            <= 255 by {
            vstd::seq_lib::to_multiset_contains(sorted@, sorted@[j]);
            vstd::seq_lib::to_multiset_contains(orig, sorted@[j]);
            assert(sorted@.contains(sorted@[j]));
            let i = choose|i: int| 0 <= i < orig.len() && orig[i] == sorted@[j];
            assert(es[i].1 == sorted@[j].1);
        }
    }
    while k < n
        invariant
            n == sorted@.len(),
            k <= n,
            trie.wf(),
            trie.words() <= k,
            key_chars(counts_view(sorted@)) + 1 <= u32::MAX,
            trie.node_seq().len() <= 1 + key_chars(counts_view(sorted@).subrange(0, k as int)),
            sorted_desc(sorted@),
            stores_least(trie, counts_view(sorted@.subrange(0, k as int))),

            json_counts(json@) == Some(es),
            all_bytes(es),
            all_bytes(counts_view(sorted@)),
            finds_all(trie, counts_view(sorted@.subrange(0, k as int))),
            files_all(text_map(trie.forms()@), counts_view(sorted@.subrange(0, k as int))),
            files_only(text_map(trie.forms()@), counts_view(sorted@.subrange(0, k as int))),
        decreases n - k,
    {
        let ghost sv = counts_view(sorted@);
        let ghost pre = counts_view(sorted@.subrange(0, k as int));
        let ghost post = counts_view(sorted@.subrange(0, k as int + 1));
        assert(post =~= pre.push(sv[k as int]));
        assert(sv[k as int].1 <= 255);
        let word = sorted[k].0.as_str();
        let freq = sorted[k].1;
        let trimmed = trim(word);
        let ghost forms_before = text_map(trie.forms()@);
        let ghost loop_start = trie;
        if should_preserve_canonical(trimmed) {
            let key = normalize_for_lookup(trimmed);
            let form = owned(trimmed);
            proof {
                lemma_text_map_insert(trie.forms()@, key@, form);
            }
            trie.add_canonical_form(key, form);
        }
        proof {
            let forms_now = text_map(trie.forms()@);
            assert forall|i: int|
                0 <= i < post.len() && preserves_canonical(trim_of((#[trigger] post[i]).0))
                    implies forms_now.contains_key(lookup_key(trim_of(post[i].0))) by {
                if i < pre.len() {
                    assert(post[i] == pre[i]);
                }
            }
            assert forall|key: Seq<char>| #[trigger] forms_now.contains_key(key) implies exists|
                i: int,
            |
                0 <= i < post.len() && preserves_canonical(trim_of((#[trigger] post[i]).0))
                    && lookup_key(trim_of(post[i].0)) == key && forms_now[key] == trim_of(
                    post[i].0,
                ) by {
                if preserves_canonical(trim_of(sv[k as int].0)) && key == lookup_key(
                    trim_of(sv[k as int].0),
                ) {
                    assert(post[k as int] == sv[k as int]);
                } else {
                    let i = choose|i: int|
                        0 <= i < pre.len() && preserves_canonical(trim_of((#[trigger] pre[i]).0))
                            && lookup_key(trim_of(pre[i].0)) == key && forms_before[key]
                            == trim_of(pre[i].0);
                    assert(post[i] == pre[i]);
                }
            }
        }
        let key = normalize_for_lookup(word);
        proof {
            assert(counts_view(sorted@).subrange(0, k as int + 1).drop_last() =~= counts_view(sorted@).subrange(0, k as int));
            lemma_key_chars_prefix(counts_view(sorted@), k as int + 1);
        }
        let ghost before = trie;
        proof {
            lemma_stores_least_same_nodes(loop_start, before, pre);
        }
        trie.insert(key.as_str(), freq as u8);
        proof {
            assert(key@ == lookup_key(sv[k as int].0));
            lemma_sorted_prefix(sorted@, k as int);
            lemma_stores_least_step(before, trie, pre, sv[k as int]);
            assert(pre.push(sv[k as int]) =~= post);
            assert forall|i: int|
                0 <= i < post.len() && (#[trigger] post[i]).1 > 0 && lookup_key(post[i].0).len()
                    > 0 implies (trie.freq_of(lookup_key(post[i].0)) matches Some(g) && g > 0) by {
                let w = lookup_key(post[i].0);
                if i < pre.len() {
                    assert(post[i] == pre[i]);
                    if freq > 0 && key@.len() > 0 {
                        if walk(trie.node_seq(), codes_of(w)) == walk(
                            trie.node_seq(),
                            codes_of(key@),
                        ) {
                            assert(trie.freq_of(w) == trie.freq_of(key@));
                        }
                    }
                } else {
                    assert(post[i] == sv[k as int]);
                }
            }
        }
        k += 1;
    }
    proof {
        assert(sorted@.subrange(0, n as int) =~= sorted@);
        let sv = counts_view(sorted@);
        assert forall|i: int| 0 <= i < es.len() implies exists|j: int|
            0 <= j < sv.len() && #[trigger] sv[j] == #[trigger] es[i] by {
            vstd::seq_lib::to_multiset_contains(orig, orig[i]);
            vstd::seq_lib::to_multiset_contains(sorted@, orig[i]);
            assert(orig.contains(orig[i]));
            let j = choose|j: int| 0 <= j < sorted@.len() && sorted@[j] == orig[i];
            assert(sv[j] == es[i]);
        }
        assert forall|i: int|
            0 <= i < es.len() && (#[trigger] es[i]).1 > 0 && lookup_key(es[i].0).len() > 0
                implies (trie.freq_of(lookup_key(es[i].0)) matches Some(g) && g > 0) by {
            let j = choose|j: int| 0 <= j < sv.len() && #[trigger] sv[j] == es[i];
        }
        assert forall|i: int|
            0 <= i < es.len() && preserves_canonical(trim_of((#[trigger] es[i]).0))
                implies text_map(trie.forms()@).contains_key(lookup_key(trim_of(es[i].0))) by {
            let j = choose|j: int| 0 <= j < sv.len() && #[trigger] sv[j] == es[i];
        }
        let forms = text_map(trie.forms()@);
        assert forall|key: Seq<char>| #[trigger] forms.contains_key(key) implies exists|i: int|
            0 <= i < es.len() && preserves_canonical(trim_of((#[trigger] es[i]).0)) && lookup_key(
                trim_of(es[i].0),
            ) == key && forms[key] == trim_of(es[i].0) by {
            let j = choose|j: int|
                0 <= j < sv.len() && preserves_canonical(trim_of((#[trigger] sv[j]).0))
                    && lookup_key(trim_of(sv[j].0)) == key && forms[key] == trim_of(sv[j].0);
            vstd::seq_lib::to_multiset_contains(sorted@, sorted@[j]);
            vstd::seq_lib::to_multiset_contains(orig, sorted@[j]);
            assert(sorted@.contains(sorted@[j]));
            let i = choose|i: int| 0 <= i < orig.len() && orig[i] == sorted@[j];
            assert(es[i] == sv[j]);
        }
        lemma_back_to_entries(trie, sorted@, orig);
    }
    Ok(trie)
}

} // verus!
