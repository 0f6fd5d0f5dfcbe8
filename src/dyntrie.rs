//! A character trie held as numbered nodes and a list of labelled edges, each node with an
//! optional value; n-gram keys join their tokens with a separator character.

use vstd::prelude::*;

verus! {

/// Joins the tokens of an n-gram key.
pub const TOKEN_SEPARATOR: char = '\u{1e}';

/// A trie of values keyed by character sequences; node 0 is the root.
pub struct DynTrieNode<T> {
    edges: Vec<(usize, char, usize)>,
    values: Vec<Option<T>>,
}

/// The child of `p` reached by `c` along `edges`, if any.
pub open spec fn edge_child(edges: Seq<(usize, char, usize)>, p: int, c: char) -> Option<int>
    decreases edges.len(),
{
    if edges.len() == 0 {
        None
    } else if edges.last().0 == p && edges.last().1 == c {
        Some(edges.last().2 as int)
    } else {
        edge_child(edges.drop_last(), p, c)
    }
}

proof fn lemma_edge_child_bounds(edges: Seq<(usize, char, usize)>, p: int, c: char, n: int)
    requires
        forall|k: int| 0 <= k < edges.len() ==> (#[trigger] edges[k]).0 < edges[k].2 < n,
    ensures
        edge_child(edges, p, c) matches Some(k) ==> p < k < n,
    decreases edges.len(),
{
    if edges.len() > 0 {
        let e = edges.drop_last();
        assert forall|k: int| 0 <= k < e.len() implies (#[trigger] e[k]).0 < e[k].2 < n by {
            assert(e[k] == edges[k]);
        }
        lemma_edge_child_bounds(e, p, c, n);
    }
}

proof fn lemma_edge_child_push(edges: Seq<(usize, char, usize)>, e: (usize, char, usize), p: int, c: char)
    requires
        edge_child(edges, e.0 as int, e.1) is None,
    ensures
        edge_child(edges, p, c) is Some ==> edge_child(edges.push(e), p, c) == edge_child(edges, p, c),
        edge_child(edges.push(e), e.0 as int, e.1) == Some(e.2 as int),
{
    assert(edges.push(e).drop_last() =~= edges);
}

impl<T> DynTrieNode<T> {
    pub closed spec fn edge_seq(&self) -> Seq<(usize, char, usize)> {
        self.edges@
    }

    pub closed spec fn value_seq(&self) -> Seq<Option<T>> {
        self.values@
    }

    /// Edges point forward to existing nodes.
    pub open spec fn wf(&self) -> bool {
        &&& self.value_seq().len() >= 1
        &&& forall|k: int|
            0 <= k < self.edge_seq().len() ==> (#[trigger] self.edge_seq()[k]).0 < self.edge_seq()[k].2
                < self.value_seq().len()
    }

    /// The child of `node` reached by `c`.
    pub open spec fn step(&self, node: int, c: char) -> Option<int> {
        edge_child(self.edge_seq(), node, c)
    }

    /// The node reached from `node` by the characters of `token`.
    pub open spec fn path(&self, node: int, token: Seq<char>) -> Option<int>
        decreases token.len(),
    {
        if token.len() == 0 {
            if 0 <= node < self.value_seq().len() { Some(node) } else { None }
        } else {
            match self.path(node, token.drop_last()) {
                Some(p) => self.step(p, token.last()),
                None => None,
            }
        }
    }

    /// An empty trie: the root alone.
    pub fn new() -> (r: Self)
        ensures
            r.wf(),
            r.value_seq().len() == 1,
            r.value_seq()[0] is None,
            r.edge_seq().len() == 0,
    {
        let mut values: Vec<Option<T>> = Vec::new();
        values.push(None);
        DynTrieNode { edges: Vec::new(), values }
    }

    pub fn node_count(&self) -> (r: usize)
        ensures
            r == self.value_seq().len(),
    {
        self.values.len()
    }

    /// The value stored at `node`.
    pub fn value(&self, node: usize) -> (r: &Option<T>)
        requires
            node < self.value_seq().len(),
        ensures
            *r == self.value_seq()[node as int],
    {
        &self.values[node]
    }

    /// Stores `v` at `node`.
    pub fn set_value(&mut self, node: usize, v: T)
        requires
            old(self).wf(),
            node < old(self).value_seq().len(),
        ensures
            final(self).wf(),
            final(self).edge_seq() == old(self).edge_seq(),
            final(self).value_seq() == old(self).value_seq().update(node as int, Some(v)),
    {
        self.values.set(node, Some(v));
        assert forall|k: int| 0 <= k < self.edge_seq().len() implies (#[trigger] self.edge_seq()[k]).0
            < self.edge_seq()[k].2 < self.value_seq().len() by {
            assert(old(self).edge_seq()[k] == self.edge_seq()[k]);
        }
    }

    /// The child of `node` reached by `c`, if any.
    pub fn traverse(&self, node: usize, c: char) -> (r: Option<usize>)
        requires
            self.wf(),
        ensures
            r is Some <==> self.step(node as int, c) is Some,
            r matches Some(k) ==> self.step(node as int, c) == Some(k as int) && k
                < self.value_seq().len(),
    {
        proof {
            lemma_edge_child_bounds(self.edges@, node as int, c, self.values@.len() as int);
        }
        let mut i: usize = self.edges.len();
        assert(self.edge_seq().subrange(0, i as int) =~= self.edge_seq());
        while i > 0
            invariant
                self.wf(),
                i <= self.edge_seq().len(),
                edge_child(self.edge_seq().subrange(0, i as int), node as int, c) == edge_child(
                    self.edge_seq(),
                    node as int,
                    c,
                ),
            decreases i,
        {
            let (p, ch, k) = self.edges[i - 1];
            assert(self.edge_seq().subrange(0, i as int).drop_last() =~= self.edge_seq().subrange(0, i - 1));
            if p == node && ch == c {
                return Some(k);
            }
            i -= 1;
        }
        assert(self.edge_seq().subrange(0, 0) =~= Seq::<(usize, char, usize)>::empty());
        None
    }

    /// The child of `node` reached by `c`, created if missing.
    pub fn traverse_or_insert(&mut self, node: usize, c: char) -> (r: usize)
        requires
            old(self).wf(),
            node < old(self).value_seq().len(),
        ensures
            final(self).wf(),
            r < final(self).value_seq().len(),
            final(self).step(node as int, c) == Some(r as int),
            old(self).value_seq().len() <= final(self).value_seq().len(),
            forall|i: int|
                0 <= i < old(self).value_seq().len() ==> (#[trigger] final(self).value_seq()[i])
                    == old(self).value_seq()[i],
            forall|i: int|
                old(self).value_seq().len() <= i < final(self).value_seq().len() ==> (
                #[trigger] final(self).value_seq()[i]) is None,
            forall|p: int, d: char|
                #[trigger] old(self).step(p, d) is Some ==> final(self).step(p, d) == old(self).step(p, d),
    {
        match self.traverse(node, c) {
            Some(k) => k,
            None => {
                let k = self.values.len();
                let ghost old_edges = self.edges@;
                self.values.push(None);
                self.edges.push((node, c, k));
                proof {
                    assert forall|p: int, d: char| #[trigger] old(self).step(p, d) is Some implies
                        self.step(p, d) == old(self).step(p, d) by {
                        lemma_edge_child_push(old_edges, (node, c, k), p, d);
                    }
                    lemma_edge_child_push(old_edges, (node, c, k), node as int, c);
                }
                k
            },
        }
    }
}

/// The key of an n-gram: its tokens joined by the separator.
pub open spec fn ngram_key(ngram: Seq<Seq<char>>) -> Seq<char>
    decreases ngram.len(),
{
    if ngram.len() == 0 {
        Seq::empty()
    } else if ngram.len() == 1 {
        ngram[0]
    } else {
        ngram_key(ngram.drop_last()) + seq![TOKEN_SEPARATOR] + ngram.last()
    }
}

pub open spec fn token_views(ngram: Seq<Vec<char>>) -> Seq<Seq<char>> {
    ngram.map_values(|t: Vec<char>| t@)
}

/// The key of an n-gram.
pub fn join_ngram(ngram: &Vec<Vec<char>>) -> (r: Vec<char>)
    ensures
        r@ == ngram_key(token_views(ngram@)),
{
    let mut out: Vec<char> = Vec::new();
    let mut i: usize = 0;
    while i < ngram.len()
        invariant
            i <= ngram@.len(),
            out@ == ngram_key(token_views(ngram@).subrange(0, i as int)),
        decreases ngram.len() - i,
    {
        let ghost before = out@;
        if i > 0 {
            out.push(TOKEN_SEPARATOR);
        }
        let t = &ngram[i];
        let mut k: usize = 0;
        let ghost mid = out@;
        while k < t.len()
            invariant
                k <= t@.len(),
                out@ == mid + t@.subrange(0, k as int),
            decreases t.len() - k,
        {
            out.push(t[k]);
            k += 1;
            assert(out@ =~= mid + t@.subrange(0, k as int));
        }
        proof {
            let tv = token_views(ngram@);
            assert(t@.subrange(0, t@.len() as int) =~= t@);
            assert(tv.subrange(0, i as int + 1).drop_last() =~= tv.subrange(0, i as int));
            assert(tv.subrange(0, i as int + 1).last() == t@);
            if i == 0 {
                assert(tv.subrange(0, 1)[0] == t@);
                assert(out@ =~= t@);
            } else {
                assert(out@ =~= before + seq![TOKEN_SEPARATOR] + t@);
            }
        }
        i += 1;
    }
    assert(token_views(ngram@).subrange(0, i as int) =~= token_views(ngram@));
    out
}

impl<T> DynTrieNode<T> {
    /// The node reached from `node` by `token`, if any.
    pub fn get(&self, node: usize, token: &Vec<char>) -> (r: Option<usize>)
        requires
            self.wf(),
            node < self.value_seq().len(),
        ensures
            r is Some <==> self.path(node as int, token@) is Some,
            r matches Some(k) ==> self.path(node as int, token@) == Some(k as int) && k
                < self.value_seq().len(),
    {
        let mut cur = node;
        let mut i: usize = 0;
        while i < token.len()
            invariant
                self.wf(),
                i <= token@.len(),
                cur < self.value_seq().len(),
                self.path(node as int, token@.subrange(0, i as int)) == Some(cur as int),
            decreases token.len() - i,
        {
            assert(token@.subrange(0, i as int + 1).drop_last() =~= token@.subrange(0, i as int));
            match self.traverse(cur, token[i]) {
                Some(k) => {
                    cur = k;
                },
                None => {
                    proof {
                        lemma_path_none_extends(*self, node as int, token@, i as int + 1);
                    }
                    return None;
                },
            }
            i += 1;
        }
        assert(token@.subrange(0, token@.len() as int) =~= token@);
        Some(cur)
    }

    /// The node reached from `node` by `token`, created if missing; a node without a value
    /// gets `fresh`.
    pub fn get_or_insert(&mut self, node: usize, token: &Vec<char>, fresh: T) -> (r: usize)
        requires
            old(self).wf(),
            node < old(self).value_seq().len(),
        ensures
            final(self).wf(),
            r < final(self).value_seq().len(),
            final(self).path(node as int, token@) == Some(r as int),
            final(self).value_seq()[r as int] is Some,
            old(self).value_seq()[r as int] is Some && (r as int) < old(self).value_seq().len()
                ==> final(self).value_seq()[r as int] == old(self).value_seq()[r as int],
            !((r as int) < old(self).value_seq().len() && old(self).value_seq()[r as int] is Some)
                ==> final(self).value_seq()[r as int] == Some(fresh),
            old(self).value_seq().len() <= final(self).value_seq().len(),
            forall|i: int|
                0 <= i < old(self).value_seq().len() && i != r ==> (#[trigger] final(self).value_seq()[i])
                    == old(self).value_seq()[i],
            forall|n: int, t: Seq<char>|
                #[trigger] old(self).path(n, t) is Some ==> final(self).path(n, t) == old(self).path(n, t),
    {
        let mut cur = node;
        let mut i: usize = 0;
        while i < token.len()
            invariant
                self.wf(),
                i <= token@.len(),
                cur < self.value_seq().len(),
                old(self).value_seq().len() <= self.value_seq().len(),
                self.path(node as int, token@.subrange(0, i as int)) == Some(cur as int),
                forall|j: int|
                    0 <= j < old(self).value_seq().len() ==> (#[trigger] self.value_seq()[j])
                        == old(self).value_seq()[j],
                forall|j: int|
                    old(self).value_seq().len() <= j < self.value_seq().len() ==> (
                    #[trigger] self.value_seq()[j]) is None,
                forall|p: int, d: char|
                    #[trigger] old(self).step(p, d) is Some ==> self.step(p, d) == old(self).step(p, d),
            decreases token.len() - i,
        {
            assert(token@.subrange(0, i as int + 1).drop_last() =~= token@.subrange(0, i as int));
            let ghost before = *self;
            let k = self.traverse_or_insert(cur, token[i]);
            proof {
                lemma_path_kept(before, *self, node as int, token@.subrange(0, i as int));
            }
            cur = k;
            i += 1;
        }
        assert(token@.subrange(0, token@.len() as int) =~= token@);
        let ghost before = *self;
        if self.values[cur].is_none() {
            self.set_value(cur, fresh);
        }
        proof {
            assert forall|n: int, t: Seq<char>| #[trigger] old(self).path(n, t) is Some implies
                self.path(n, t) == old(self).path(n, t) by {
                lemma_path_kept(*old(self), before, n, t);
                lemma_path_kept(before, *self, n, t);
            }
            lemma_path_kept(before, *self, node as int, token@);
        }
        cur
    }
}

proof fn lemma_path_none_extends<T>(d: DynTrieNode<T>, n: int, t: Seq<char>, k: int)
    requires
        0 <= k <= t.len(),
        d.path(n, t.subrange(0, k)) is None,
    ensures
        d.path(n, t) is None,
    decreases t.len() - k,
{
    if k < t.len() {
        assert(t.subrange(0, k + 1).drop_last() =~= t.subrange(0, k));
        lemma_path_none_extends(d, n, t, k + 1);
    } else {
        assert(t.subrange(0, k) =~= t);
    }
}

/// A path leads to an existing node.
pub proof fn lemma_path_in_bounds<T>(d: DynTrieNode<T>, n: int, t: Seq<char>)
    requires
        d.wf(),
    ensures
        d.path(n, t) matches Some(k) ==> 0 <= k < d.value_seq().len(),
    decreases t.len(),
{
    if t.len() > 0 {
        lemma_path_in_bounds(d, n, t.drop_last());
        if let Some(p) = d.path(n, t.drop_last()) {
            lemma_edge_child_bounds(d.edge_seq(), p, t.last(), d.value_seq().len() as int);
        }
    }
}

/// A step that already led somewhere keeps leading there, so does a path.
pub proof fn lemma_path_kept<T>(a: DynTrieNode<T>, b: DynTrieNode<T>, n: int, t: Seq<char>)
    requires
        a.value_seq().len() <= b.value_seq().len(),
        forall|p: int, d: char| #[trigger] a.step(p, d) is Some ==> b.step(p, d) == a.step(p, d),
        a.path(n, t) is Some,
    ensures
        b.path(n, t) == a.path(n, t),
    decreases t.len(),
{
    if t.len() > 0 {
        lemma_path_kept(a, b, n, t.drop_last());
    }
}

/// The keys without a separator under node `p` that hold values, spelled from `prefix`,
/// with their nodes, depth first.
pub open spec fn keyed_at<T>(d: DynTrieNode<T>, p: int, prefix: Seq<char>) -> Seq<(Seq<char>, int)>
    decreases d.value_seq().len() - p, d.edge_seq().len() + 1,
{
    if 0 <= p < d.value_seq().len() {
        let own = if d.value_seq()[p] is Some {
            seq![(prefix, p)]
        } else {
            Seq::empty()
        };
        own + keyed_edges(d, p, prefix, 0)
    } else {
        Seq::empty()
    }
}

/// The keys reached through the edges of `p` from position `i` on.
pub open spec fn keyed_edges<T>(d: DynTrieNode<T>, p: int, prefix: Seq<char>, i: int) -> Seq<
    (Seq<char>, int),
>
    decreases d.value_seq().len() - p, d.edge_seq().len() - i,
{
    if 0 <= p < d.value_seq().len() && 0 <= i < d.edge_seq().len() {
        let e = d.edge_seq()[i];
        let k = e.2 as int;
        let here = if e.0 == p && e.1 != TOKEN_SEPARATOR && d.step(p, e.1) == Some(k) && p < k
            < d.value_seq().len() {
            keyed_at(d, k, prefix.push(e.1))
        } else {
            Seq::empty()
        };
        here + keyed_edges(d, p, prefix, i + 1)
    } else {
        Seq::empty()
    }
}

pub open spec fn keyed_view(out: Seq<(Vec<char>, usize)>) -> Seq<(Seq<char>, int)> {
    out.map_values(|x: (Vec<char>, usize)| (x.0@, x.1 as int))
}

/// Every listed key leads from the root to its node, which holds a value, and the key
/// has no separator.
pub open spec fn keyed_ok<T>(d: DynTrieNode<T>, out: Seq<(Vec<char>, usize)>) -> bool {
    forall|i: int|
        0 <= i < out.len() ==> {
            &&& d.path(0, (#[trigger] out[i]).0@) == Some(out[i].1 as int)
            &&& d.value_seq()[out[i].1 as int] is Some
            &&& !out[i].0@.contains(TOKEN_SEPARATOR)
        }
}

impl<T> DynTrieNode<T> {
    /// The keys under `node` (spelled from `prefix`) that hold values, with their nodes,
    /// depth first, not entering separator edges.
    pub fn entries_under(&self, node: usize, prefix: &Vec<char>) -> (r: Vec<(Vec<char>, usize)>)
        requires
            self.wf(),
            node < self.value_seq().len(),
        ensures
            keyed_view(r@) == keyed_at(*self, node as int, prefix@),
    {
        let mut out: Vec<(Vec<char>, usize)> = Vec::new();
        assert(keyed_view(out@) =~= Seq::<(Seq<char>, int)>::empty());
        self.collect_under(node, prefix, &mut out);
        assert(keyed_view(out@) =~= Seq::<(Seq<char>, int)>::empty() + keyed_at(*self, node as int, prefix@));
        out
    }

    /// The keys without a separator that hold values, with their nodes, depth first.
    pub fn entries(&self) -> (r: Vec<(Vec<char>, usize)>)
        requires
            self.wf(),
        ensures
            keyed_ok(*self, r@),
            keyed_view(r@) == keyed_at(*self, 0, Seq::empty()),
    {
        let mut out: Vec<(Vec<char>, usize)> = Vec::new();
        let prefix: Vec<char> = Vec::new();
        proof {
            assert(prefix@.len() == 0);
        }
        assert(keyed_view(out@) =~= Seq::<(Seq<char>, int)>::empty());
        assert(prefix@ =~= Seq::<char>::empty());
        self.collect_keyed(0, &prefix, &mut out);
        assert(keyed_view(out@) =~= Seq::<(Seq<char>, int)>::empty() + keyed_at(*self, 0, Seq::empty()));
        out
    }

    fn collect_keyed(&self, p: usize, prefix: &Vec<char>, out: &mut Vec<(Vec<char>, usize)>)
        requires
            self.wf(),
            p < self.value_seq().len(),
            self.path(0, prefix@) == Some(p as int),
            !prefix@.contains(TOKEN_SEPARATOR),
            keyed_ok(*self, old(out)@),
        ensures
            keyed_ok(*self, final(out)@),
            keyed_view(final(out)@) == keyed_view(old(out)@) + keyed_at(*self, p as int, prefix@),
        decreases self.value_seq().len() - p,
    {
        let ghost target = keyed_view(old(out)@) + keyed_at(*self, p as int, prefix@);
        if self.values[p].is_some() {
            let ghost before = keyed_view(out@);
            out.push((prefix.clone(), p));
            assert(keyed_view(out@) =~= before.push((prefix@, p as int)));
        }
        assert(keyed_view(out@) + keyed_edges(*self, p as int, prefix@, 0) =~= target);
        let mut i: usize = 0;
        while i < self.edges.len()
            invariant
                self.wf(),
                p < self.value_seq().len(),
                self.path(0, prefix@) == Some(p as int),
                !prefix@.contains(TOKEN_SEPARATOR),
                keyed_ok(*self, out@),
                i <= self.edge_seq().len(),
                keyed_view(out@) + keyed_edges(*self, p as int, prefix@, i as int) == target,
            decreases self.edges.len() - i,
        {
            let ghost mid = keyed_view(out@);
            let ghost rest = keyed_edges(*self, p as int, prefix@, i as int + 1);
            let (q, c, k) = self.edges[i];
            if q == p && c != TOKEN_SEPARATOR {
                match self.traverse(p, c) {
                    Some(k2) => {
                        if k2 == k {
                            assert(self.edge_seq()[i as int] == (q, c, k));
                            let mut np = prefix.clone();
                            np.push(c);
                            proof {
                                assert(np@.drop_last() =~= prefix@);
                                if np@.contains(TOKEN_SEPARATOR) {
                                    let j = choose|j: int| 0 <= j < np@.len() && np@[j] == TOKEN_SEPARATOR;
                                    if j < prefix@.len() {
                                        assert(prefix@[j] == TOKEN_SEPARATOR);
                                    }
                                }
                            }
                            self.collect_keyed(k, &np, out);
                            assert(keyed_view(out@) + rest =~= mid + (keyed_at(*self, k as int, np@) + rest));
                        } else {
                            assert(mid + rest =~= mid + (Seq::<(Seq<char>, int)>::empty() + rest));
                        }
                    },
                    None => {
                        assert(mid + rest =~= mid + (Seq::<(Seq<char>, int)>::empty() + rest));
                    },
                }
            } else {
                assert(mid + rest =~= mid + (Seq::<(Seq<char>, int)>::empty() + rest));
            }
            i += 1;
        }
        assert(keyed_view(out@) + keyed_edges(*self, p as int, prefix@, i as int) =~= keyed_view(out@));
    }

    fn collect_under(&self, p: usize, prefix: &Vec<char>, out: &mut Vec<(Vec<char>, usize)>)
        requires
            self.wf(),
            p < self.value_seq().len(),
        ensures
            keyed_view(final(out)@) == keyed_view(old(out)@) + keyed_at(*self, p as int, prefix@),
        decreases self.value_seq().len() - p,
    {
        let ghost target = keyed_view(old(out)@) + keyed_at(*self, p as int, prefix@);
        if self.values[p].is_some() {
            let ghost before = keyed_view(out@);
            out.push((prefix.clone(), p));
            assert(keyed_view(out@) =~= before.push((prefix@, p as int)));
        }
        assert(keyed_view(out@) + keyed_edges(*self, p as int, prefix@, 0) =~= target);
        let mut i: usize = 0;
        while i < self.edges.len()
            invariant
                self.wf(),
                p < self.value_seq().len(),
                i <= self.edge_seq().len(),
                keyed_view(out@) + keyed_edges(*self, p as int, prefix@, i as int) == target,
            decreases self.edges.len() - i,
        {
            let ghost mid = keyed_view(out@);
            let ghost rest = keyed_edges(*self, p as int, prefix@, i as int + 1);
            let (q, c, k) = self.edges[i];
            if q == p && c != TOKEN_SEPARATOR {
                match self.traverse(p, c) {
                    Some(k2) => {
                        if k2 == k {
                            assert(self.edge_seq()[i as int] == (q, c, k));
                            let mut np = prefix.clone();
                            np.push(c);
                            assert(np@.drop_last() =~= prefix@);
                            assert(np@ =~= prefix@.push(c));
                            self.collect_under(k, &np, out);
                            assert(keyed_view(out@) + rest =~= mid + (keyed_at(*self, k as int, np@) + rest));
                        } else {
                            assert(mid + rest =~= mid + (Seq::<(Seq<char>, int)>::empty() + rest));
                        }
                    },
                    None => {
                        assert(mid + rest =~= mid + (Seq::<(Seq<char>, int)>::empty() + rest));
                    },
                }
            } else {
                assert(mid + rest =~= mid + (Seq::<(Seq<char>, int)>::empty() + rest));
            }
            i += 1;
        }
        assert(keyed_view(out@) + keyed_edges(*self, p as int, prefix@, i as int) =~= keyed_view(out@));
    }
}

impl<T> DynTrieNode<T> {
    /// The node of an n-gram (tokens joined by the separator), if present.
    pub fn get_ngram(&self, ngram: &Vec<Vec<char>>) -> (r: Option<usize>)
        requires
            self.wf(),
        ensures
            r is Some <==> self.path(0, ngram_key(token_views(ngram@))) is Some,
            r matches Some(k) ==> self.path(0, ngram_key(token_views(ngram@))) == Some(k as int),
    {
        let key = join_ngram(ngram);
        self.get(0, &key)
    }

    /// The node of an n-gram, created if missing; a node without a value gets `fresh`.
    pub fn get_ngram_or_insert(&mut self, ngram: &Vec<Vec<char>>, fresh: T) -> (r: usize)
        requires
            old(self).wf(),
        ensures
            final(self).wf(),
            r < final(self).value_seq().len(),
            final(self).path(0, ngram_key(token_views(ngram@))) == Some(r as int),
            final(self).value_seq()[r as int] is Some,
            (r as int) < old(self).value_seq().len() && old(self).value_seq()[r as int] is Some
                ==> final(self).value_seq()[r as int] == old(self).value_seq()[r as int],
            !((r as int) < old(self).value_seq().len() && old(self).value_seq()[r as int] is Some)
                ==> final(self).value_seq()[r as int] == Some(fresh),
            old(self).value_seq().len() <= final(self).value_seq().len(),
            forall|i: int|
                0 <= i < old(self).value_seq().len() && i != r ==> (#[trigger] final(self).value_seq()[i])
                    == old(self).value_seq()[i],
            forall|n: int, t: Seq<char>|
                #[trigger] old(self).path(n, t) is Some ==> final(self).path(n, t) == old(self).path(n, t),
    {
        let key = join_ngram(ngram);
        self.get_or_insert(0, &key, fresh)
    }
}

impl<T> DynTrieNode<T> {
    /// The value slot of `node`, for changing it in place.
    pub fn value_mut(&mut self, node: usize) -> (r: &mut Option<T>)
        requires
            node < old(self).value_seq().len(),
        ensures
            *r == old(self).value_seq()[node as int],
            final(self).edge_seq() == old(self).edge_seq(),
            final(self).value_seq() == old(self).value_seq().update(node as int, *final(r)),
    {
        &mut self.values[node]
    }

    /// The value slot of the child of `node` reached by `c`, if any.
    pub fn traverse_mut(&mut self, node: usize, c: char) -> (r: Option<&mut Option<T>>)
        requires
            old(self).wf(),
        ensures
            r is Some <==> old(self).step(node as int, c) is Some,
            final(self).edge_seq() == old(self).edge_seq(),
            r is None ==> final(self).value_seq() == old(self).value_seq(),
            r matches Some(v) ==> {
                let k = old(self).step(node as int, c)->0;
                &&& *v == old(self).value_seq()[k]
                &&& final(self).value_seq() == old(self).value_seq().update(k, *final(v))
            },
    {
        match self.traverse(node, c) {
            Some(k) => Some(self.value_mut(k)),
            None => None,
        }
    }

    /// The value slot of the node reached from `node` by `token`, if any.
    pub fn get_mut(&mut self, node: usize, token: &Vec<char>) -> (r: Option<&mut Option<T>>)
        requires
            old(self).wf(),
            node < old(self).value_seq().len(),
        ensures
            r is Some <==> old(self).path(node as int, token@) is Some,
            final(self).edge_seq() == old(self).edge_seq(),
            r is None ==> final(self).value_seq() == old(self).value_seq(),
            r matches Some(v) ==> {
                let k = old(self).path(node as int, token@)->0;
                &&& *v == old(self).value_seq()[k]
                &&& final(self).value_seq() == old(self).value_seq().update(k, *final(v))
            },
    {
        match self.get(node, token) {
            Some(k) => Some(self.value_mut(k)),
            None => None,
        }
    }

    /// The value slot of the node of an n-gram, if present.
    pub fn get_ngram_mut(&mut self, ngram: &Vec<Vec<char>>) -> (r: Option<&mut Option<T>>)
        requires
            old(self).wf(),
        ensures
            r is Some <==> old(self).path(0, ngram_key(token_views(ngram@))) is Some,
            final(self).edge_seq() == old(self).edge_seq(),
            r is None ==> final(self).value_seq() == old(self).value_seq(),
            r matches Some(v) ==> {
                let k = old(self).path(0, ngram_key(token_views(ngram@)))->0;
                &&& *v == old(self).value_seq()[k]
                &&& final(self).value_seq() == old(self).value_seq().update(k, *final(v))
            },
    {
        let key = join_ngram(ngram);
        self.get_mut(0, &key)
    }
}

} // verus!
