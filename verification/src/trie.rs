//! The identifier trie: a character-keyed prefix automaton over the
//! declared identifier strings.  Each node records the entry whose key
//! ends there, if any, and the aggregated entries reachable beneath it
//! (an exact match shadows longer keys).  Lookup resolves unique
//! prefixes — abbreviations — and reports ambiguity otherwise.
use vstd::prelude::*;

use crate::errors::SpecError;

verus! {

/// One node of the trie.
pub struct TrieNode {
    /// The entry whose key ends at this node, if any.
    pub terminal: Option<usize>,
    /// The aggregated entry indices this node stands for: the terminal
    /// entry alone when there is one, else every entry whose key passes
    /// through this node.
    pub payload_list: Vec<usize>,
    /// The labelled edges to child nodes.
    pub children: Vec<(char, usize)>,
    /// The string spelled by the path from the root to this node.
    pub path: Ghost<Seq<char>>,
}

/// A prefix trie over entry keys, each carrying a payload.
pub struct Trie {
    /// The inserted entries: key string and payload.
    pub entries: Vec<(String, usize)>,
    /// The nodes; index 0 is the root.
    pub nodes: Vec<TrieNode>,
}

/// Whether `p` is a prefix of `q`.
pub open spec fn is_prefix(p: Seq<char>, q: Seq<char>) -> bool {
    p.len() <= q.len() && q.subrange(0, p.len() as int) == p
}

/// The key strings of the entries.
pub open spec fn keys_of(entries: Seq<(String, usize)>) -> Seq<Seq<char>> {
    Seq::new(entries.len(), |k: int| entries[k].0@)
}

/// The indices below `n` whose key has `p` as a prefix, ascending.
pub open spec fn ext_upto(K: Seq<Seq<char>>, p: Seq<char>, n: int) -> Seq<int>
    decreases n,
{
    if 0 < n && n <= K.len() {
        ext_upto(K, p, n - 1) + (if is_prefix(p, K[n - 1]) {
            seq![n - 1]
        } else {
            Seq::empty()
        })
    } else {
        Seq::empty()
    }
}

/// The indices whose key has `p` as a prefix, ascending.
pub open spec fn ext_ids(K: Seq<Seq<char>>, p: Seq<char>) -> Seq<int> {
    ext_upto(K, p, K.len() as int)
}

/// The first index below `n` whose key equals `p`, if any.
pub open spec fn exact_upto(K: Seq<Seq<char>>, p: Seq<char>, n: int) -> Option<int>
    decreases n,
{
    if 0 < n && n <= K.len() {
        match exact_upto(K, p, n - 1) {
            Some(i) => Some(i),
            None => if K[n - 1] == p {
                Some(n - 1)
            } else {
                None
            },
        }
    } else {
        None
    }
}

/// The first index whose key equals `p`, if any.
pub open spec fn exact_id(K: Seq<Seq<char>>, p: Seq<char>) -> Option<int> {
    exact_upto(K, p, K.len() as int)
}

/// The entries a node with path `p` stands for: the exact match alone
/// when one exists, else every entry whose key extends `p`.
pub open spec fn agg_ids(K: Seq<Seq<char>>, p: Seq<char>) -> Seq<int> {
    match exact_id(K, p) {
        Some(k) => seq![k],
        None => ext_ids(K, p),
    }
}

/// The payload indices a node's list holds, as mathematical integers.
pub open spec fn plist_of(n: TrieNode) -> Seq<int> {
    Seq::new(n.payload_list@.len(), |j: int| n.payload_list@[j] as int)
}

/// The root exists and spells the empty string.
pub open spec fn root_ok(N: Seq<TrieNode>) -> bool {
    N.len() >= 1 && N[0].path@ == Seq::<char>::empty()
}

/// Every edge leads to a later-created, in-bounds node spelling the
/// parent's path extended by the edge label.
pub open spec fn edges_ok(N: Seq<TrieNode>) -> bool {
    forall|n: int, j: int|
        0 <= n < N.len() && 0 <= j < N[n].children@.len() ==> {
            let e = #[trigger] N[n].children@[j];
            &&& 1 <= e.1 < N.len()
            &&& N[e.1 as int].path@ == N[n].path@.push(e.0)
        }
}

/// No node carries two edges with one label.
pub open spec fn edge_chars_distinct(N: Seq<TrieNode>) -> bool {
    forall|n: int, j1: int, j2: int|
        0 <= n < N.len() && 0 <= j1 < N[n].children@.len() && 0 <= j2 < N[n].children@.len() && j1
            != j2 ==> (#[trigger] N[n].children@[j1]).0 != (#[trigger] N[n].children@[j2]).0
}

/// Whether node `m` is some node's child.
pub open spec fn parent_exists(N: Seq<TrieNode>, m: int) -> bool {
    exists|n: int, j: int|
        0 <= n < N.len() && 0 <= j < N[n].children@.len() && (#[trigger] N[n].children@[j]).1 == m
}

/// Every node but the root is some node's child.
pub open spec fn parents_ok(N: Seq<TrieNode>) -> bool {
    forall|m: int| 1 <= m < N.len() ==> #[trigger] parent_exists(N, m)
}

/// No two nodes spell the same string.
pub open spec fn paths_unique(N: Seq<TrieNode>) -> bool {
    forall|n: int, m: int|
        #![trigger N[n].path@, N[m].path@]
        0 <= n < N.len() && 0 <= m < N.len() && n != m ==> N[n].path@ != N[m].path@
}

/// A terminal mark names an entry whose key is the node's path.
pub open spec fn terminals_sound(N: Seq<TrieNode>, K: Seq<Seq<char>>) -> bool {
    forall|n: int|
        0 <= n < N.len() ==> match #[trigger] N[n].terminal {
            Some(k) => k < K.len() && K[k as int] == N[n].path@,
            None => true,
        }
}

/// Every entry whose key is some node's path is marked there.
pub open spec fn terminals_complete(N: Seq<TrieNode>, K: Seq<Seq<char>>) -> bool {
    forall|n: int, k: int|
        #![trigger N[n].terminal, K[k]]
        0 <= n < N.len() && 0 <= k < K.len() && K[k] == N[n].path@ ==> N[n].terminal == Some(
            k as usize,
        )
}

/// All keys distinct.
pub open spec fn keys_unique(K: Seq<Seq<char>>) -> bool {
    forall|i: int, j: int| 0 <= i < j < K.len() ==> K[i] != K[j]
}

/// Whether node `n` carries an edge labelled `c`.
pub open spec fn has_edge(N: Seq<TrieNode>, n: int, c: char) -> bool {
    exists|j: int| 0 <= j < N[n].children@.len() && (#[trigger] N[n].children@[j]).0 == c
}

/// Wherever a key runs past a node's path, the node carries the edge
/// for the key's next character.
pub open spec fn edges_complete(N: Seq<TrieNode>, K: Seq<Seq<char>>) -> bool {
    forall|n: int, k: int|
        0 <= n < N.len() && 0 <= k < K.len() && #[trigger] is_prefix(N[n].path@, K[k])
            && N[n].path@.len() < K[k].len() ==> has_edge(N, n, K[k][N[n].path@.len() as int])
}

/// Whether node `m` lies on the way to some key.
pub open spec fn node_live_at(N: Seq<TrieNode>, K: Seq<Seq<char>>, m: int) -> bool {
    exists|k: int| 0 <= k < K.len() && #[trigger] is_prefix(N[m].path@, K[k])
}

/// Every node but the root lies on the way to some key.
pub open spec fn nodes_live(N: Seq<TrieNode>, K: Seq<Seq<char>>) -> bool {
    forall|m: int| 1 <= m < N.len() ==> #[trigger] node_live_at(N, K, m)
}

/// Every node's payload list is exactly its aggregate.
pub open spec fn payloads_ok(N: Seq<TrieNode>, K: Seq<Seq<char>>) -> bool {
    forall|n: int| 0 <= n < N.len() ==> plist_of(#[trigger] N[n]) == agg_ids(K, N[n].path@)
}

/// The structural clauses that do not mention the keys.
pub open spec fn wf_structure(N: Seq<TrieNode>) -> bool {
    &&& root_ok(N)
    &&& edges_ok(N)
    &&& edge_chars_distinct(N)
    &&& parents_ok(N)
    &&& paths_unique(N)
}

/// Well-formedness of a node arena with respect to a key list.
pub open spec fn wf_nk(N: Seq<TrieNode>, K: Seq<Seq<char>>) -> bool {
    &&& wf_structure(N)
    &&& terminals_sound(N, K)
    &&& terminals_complete(N, K)
    &&& keys_unique(K)
    &&& edges_complete(N, K)
    &&& nodes_live(N, K)
    &&& payloads_ok(N, K)
}

/// The trie invariant: the arena is well-formed for the entry keys.
pub open spec fn trie_wf(t: &Trie) -> bool {
    wf_nk(t.nodes@, keys_of(t.entries@))
}

// ---------------------------------------------------------------------
// Lemmas about the aggregate
// ---------------------------------------------------------------------

/// Every element of `ext_upto` is an in-range index of a key extending
/// `p`, and every such index occurs.
pub proof fn lemma_ext_upto(K: Seq<Seq<char>>, p: Seq<char>, n: int)
    requires
        0 <= n <= K.len(),
    ensures
        forall|x: int| 0 <= x < ext_upto(K, p, n).len() ==> 0 <= #[trigger] ext_upto(K, p, n)[x]
            < n && is_prefix(p, K[ext_upto(K, p, n)[x]]),
        ext_upto(K, p, n).len() == 0 ==> forall|k: int| 0 <= k < n ==> !is_prefix(
            p,
            #[trigger] K[k],
        ),
        (exists|k: int| 0 <= k < n && is_prefix(p, #[trigger] K[k])) ==> ext_upto(
            K,
            p,
            n,
        ).len() > 0,
    decreases n,
{
    if 0 < n {
        lemma_ext_upto(K, p, n - 1);
    }
}

/// `exact_upto` finds exactly the first key equal to `p`.
pub proof fn lemma_exact_upto(K: Seq<Seq<char>>, p: Seq<char>, n: int)
    requires
        0 <= n <= K.len(),
    ensures
        match exact_upto(K, p, n) {
            Some(i) => 0 <= i < n && K[i] == p,
            None => forall|k: int| 0 <= k < n ==> K[k] != p,
        },
    decreases n,
{
    if 0 < n {
        lemma_exact_upto(K, p, n - 1);
    }
}

/// Shorter cuts of a prefix are prefixes too.
pub proof fn lemma_prefix_take(p: Seq<char>, q: Seq<char>, j: int)
    requires
        is_prefix(p, q),
        0 <= j <= p.len(),
    ensures
        is_prefix(p.take(j), q),
        p.take(j) == q.take(j),
{
    assert(q.subrange(0, p.len() as int).subrange(0, j) =~= q.subrange(0, j));
    assert(p.take(j) =~= q.subrange(0, p.len() as int).subrange(0, j));
}

/// Appending a key leaves the aggregates of earlier positions alone.
pub proof fn lemma_ext_upto_push(K: Seq<Seq<char>>, s: Seq<char>, p: Seq<char>, n: int)
    requires
        0 <= n <= K.len(),
    ensures
        ext_upto(K.push(s), p, n) == ext_upto(K, p, n),
        exact_upto(K.push(s), p, n) == exact_upto(K, p, n),
    decreases n,
{
    if 0 < n {
        lemma_ext_upto_push(K, s, p, n - 1);
        assert(K.push(s)[n - 1] == K[n - 1]);
    }
}

/// How the aggregate of `p` changes when key `s` is appended: an exact
/// match keeps its shadow; a proper prefix of `s` gains the new index;
/// anything else is untouched.
pub proof fn lemma_agg_push(K: Seq<Seq<char>>, s: Seq<char>, p: Seq<char>)
    requires
        p != s,
    ensures
        exact_id(K, p) is Some ==> agg_ids(K.push(s), p) == agg_ids(K, p),
        exact_id(K, p) is None && is_prefix(p, s) ==> agg_ids(K.push(s), p) == agg_ids(
            K,
            p,
        ).push(K.len() as int),
        !is_prefix(p, s) ==> agg_ids(K.push(s), p) == agg_ids(K, p),
{
    let K2 = K.push(s);
    lemma_ext_upto_push(K, s, p, K.len() as int);
    assert(K2.len() == K.len() + 1);
    assert(K2[K.len() as int] == s);
    assert(ext_upto(K2, p, K2.len() as int) == ext_upto(K2, p, K.len() as int) + (if is_prefix(
        p,
        s,
    ) {
        seq![K.len() as int]
    } else {
        Seq::<int>::empty()
    }));
    assert(exact_upto(K2, p, K2.len() as int) == match exact_upto(K2, p, K.len() as int) {
        Some(i) => Some(i),
        None => if K2[K.len() as int] == p {
            Some(K.len() as int)
        } else {
            None
        },
    });
    if exact_id(K, p) is None && is_prefix(p, s) {
        assert(agg_ids(K2, p) =~= agg_ids(K, p).push(K.len() as int));
    }
    if !is_prefix(p, s) {
        assert(ext_upto(K2, p, K2.len() as int) =~= ext_upto(K, p, K.len() as int));
    }
}

/// A node lacking the edge for `c` proves no key extends its path by
/// `c`.
pub proof fn lemma_no_edge_no_key(
    N: Seq<TrieNode>,
    K: Seq<Seq<char>>,
    n: int,
    c: char,
)
    requires
        edges_complete(N, K),
        0 <= n < N.len(),
        !has_edge(N, n, c),
    ensures
        forall|k: int| 0 <= k < K.len() ==> !is_prefix(N[n].path@.push(c), #[trigger] K[k]),
{
    let p = N[n].path@;
    assert forall|k: int| 0 <= k < K.len() implies !is_prefix(p.push(c), #[trigger] K[k]) by {
        if is_prefix(p.push(c), K[k]) {
            lemma_prefix_take(p.push(c), K[k], p.len() as int);
            assert(p.push(c).take(p.len() as int) =~= p);
            assert(is_prefix(p, K[k]));
            assert(p.len() < K[k].len());
            assert(K[k][p.len() as int] == p.push(c)[p.len() as int]);
            assert(has_edge(N, n, c));
        }
    }
}


/// With distinct keys, a key equal to `p` is the exact match.
pub proof fn lemma_exact_of_key(K: Seq<Seq<char>>, p: Seq<char>, k: int)
    requires
        keys_unique(K),
        0 <= k < K.len(),
        K[k] == p,
    ensures
        exact_id(K, p) == Some(k),
{
    lemma_exact_upto(K, p, K.len() as int);
    match exact_id(K, p) {
        Some(i) => {
            if i != k {
                assert(K[i] == K[k]);
            }
        },
        None => {
            assert(K[k] != p);
        },
    }
}

/// Every aggregate element is an in-range entry index whose key
/// extends `p`.
pub proof fn lemma_agg_bounds(K: Seq<Seq<char>>, p: Seq<char>)
    ensures
        forall|x: int| 0 <= x < agg_ids(K, p).len() ==> 0 <= #[trigger] agg_ids(K, p)[x]
            < K.len() && is_prefix(p, K[agg_ids(K, p)[x]]),
{
    lemma_ext_upto(K, p, K.len() as int);
    lemma_exact_upto(K, p, K.len() as int);
    match exact_id(K, p) {
        Some(i) => {
            assert(is_prefix(p, K[i])) by {
                assert(K[i].subrange(0, p.len() as int) =~= p);
            }
        },
        None => {},
    }
}

/// The aggregate of the empty key list is empty.
pub proof fn lemma_agg_empty(K: Seq<Seq<char>>, p: Seq<char>)
    requires
        K.len() == 0,
    ensures
        agg_ids(K, p).len() == 0,
{
}

/// Pushing onto equal sequences stays equal; injectivity the other way.
pub proof fn lemma_push_injective(a: Seq<char>, b: Seq<char>, x: char, y: char)
    requires
        a.push(x) == b.push(y),
    ensures
        a == b,
        x == y,
{
    assert(a.push(x).len() == a.len() + 1);
    assert(b.push(y).len() == b.len() + 1);
    assert(a.len() == b.len());
    assert forall|i: int| 0 <= i < a.len() implies a[i] == b[i] by {
        assert(a.push(x)[i] == a[i]);
        assert(b.push(y)[i] == b[i]);
        assert(a.push(x)[i] == b.push(y)[i]);
    }
    assert(a =~= b);
    assert(x == a.push(x)[a.len() as int]);
    assert(y == b.push(y)[b.len() as int]);
}

// ---------------------------------------------------------------------
// Lookup
// ---------------------------------------------------------------------

/// The outcome of a trie lookup.
#[derive(Debug, PartialEq, Eq)]
pub enum TrieLookup {
    /// Exactly one entry remained reachable (or the default ambiguity
    /// resolution found all candidate payloads equal); carries its
    /// payload.
    Found(usize),
    /// No entry's key has the input as a prefix.
    NoMatch,
    /// Distinct entries remained reachable; carries their key strings.
    Ambiguous(Vec<String>),
}

/// The key strings of the aggregate indices, in order.
pub open spec fn cand_names(K: Seq<Seq<char>>, a: Seq<int>) -> Seq<Seq<char>> {
    Seq::new(a.len(), |x: int| K[a[x]])
}

/// The default ambiguity resolution: candidates resolve exactly when
/// every payload is the same, to that payload.
pub fn parse_resolve_ambiguous(values: &Vec<(String, usize)>) -> (r: Option<usize>)
    ensures
        match r {
            Some(p) => values@.len() > 0 && p == values@[0].1 && forall|i: int|
                0 <= i < values@.len() ==> (#[trigger] values@[i]).1 == p,
            None => values@.len() == 0 || exists|i: int|
                0 <= i < values@.len() && (#[trigger] values@[i]).1 != values@[0].1,
        },
{
    if values.len() == 0 {
        return None;
    }
    let first = values[0].1;
    let mut i: usize = 1;
    while i < values.len()
        invariant
            1 <= i <= values@.len(),
            first == values@[0].1,
            forall|t: int| 0 <= t < i ==> (#[trigger] values@[t]).1 == first,
        decreases values@.len() - i,
    {
        if values[i].1 != first {
            return None;
        }
        i = i + 1;
    }
    Some(first)
}

impl Trie {
    /// Resolve an input string against the trie.
    ///
    /// Descends the trie along the input's characters.  An exact key
    /// match wins outright; otherwise the entries whose keys extend
    /// the input are the candidates: none is a no-match, a single
    /// payload (after the default resolution) is found, and distinct
    /// payloads are ambiguous, reported with the candidate keys.
    #[verifier::loop_isolation(false)]
    #[verifier::rlimit(60)]
    pub fn lookup(&self, input: &str) -> (r: TrieLookup)
        requires
            trie_wf(self),
        ensures
            ({
                let K = keys_of(self.entries@);
                let a = agg_ids(K, input@);
                match r {
                    TrieLookup::NoMatch => a.len() == 0,
                    TrieLookup::Found(p) => a.len() > 0 && forall|x: int|
                        0 <= x < a.len() ==> self.entries@[#[trigger] a[x]].1 == p,
                    TrieLookup::Ambiguous(c) => a.len() >= 2 && (exists|x: int, y: int|
                        0 <= x < a.len() && 0 <= y < a.len() && self.entries@[#[trigger] a[x]].1
                            != self.entries@[#[trigger] a[y]].1) && c.deep_view() == cand_names(
                        K,
                        a,
                    ),
                }
            }),
    {
        let ghost K = keys_of(self.entries@);
        let ghost N = self.nodes@;
        let n = input.unicode_len();
        let mut cur: usize = 0;
        let mut i: usize = 0;
        assert(input@.take(0) =~= Seq::<char>::empty());
        while i < n
            invariant
                i <= n,
                cur < N.len(),
                N[cur as int].path@ == input@.take(i as int),
            decreases n - i,
        {
            let c = input.get_char(i);
            let edges = &self.nodes[cur].children;
            let mut j: usize = 0;
            let mut child: usize = 0;
            let mut found = false;
            while j < edges.len()
                invariant
                    j <= edges@.len(),
                    edges@ == N[cur as int].children@,
                    !found ==> forall|t: int| 0 <= t < j ==> (#[trigger] edges@[t]).0 != c,
                    found ==> exists|t: int| 0 <= t < edges@.len() && #[trigger] edges@[t] == (
                        c,
                        child,
                    ),
                decreases edges@.len() - j + (if found {
                    0int
                } else {
                    1int
                }),
            {
                if !found && edges[j].0 == c {
                    found = true;
                    child = edges[j].1;
                }
                j = j + 1;
            }
            if !found {
                proof {
                    assert(!has_edge(N, cur as int, c)) by {
                        if has_edge(N, cur as int, c) {
                            let t = choose|t: int|
                                0 <= t < N[cur as int].children@.len() && (
                                #[trigger] N[cur as int].children@[t]).0 == c;
                            assert((edges@[t]).0 != c);
                        }
                    }
                    lemma_no_edge_no_key(N, K, cur as int, c);
                    assert(input@.take(i as int).push(c) =~= input@.take(i + 1));
                    assert forall|k: int| 0 <= k < K.len() implies !is_prefix(
                        input@,
                        #[trigger] K[k],
                    ) by {
                        if is_prefix(input@, K[k]) {
                            lemma_prefix_take(input@, K[k], i + 1);
                            assert(input@.take(i + 1) =~= K[k].take(i + 1));
                            assert(is_prefix(input@.take(i + 1), K[k])) by {
                                assert(K[k].subrange(0, i + 1) =~= input@.take(i + 1));
                            }
                        }
                    }
                    lemma_ext_upto(K, input@, K.len() as int);
                    lemma_exact_upto(K, input@, K.len() as int);
                    if agg_ids(K, input@).len() > 0 {
                        match exact_id(K, input@) {
                            Some(t) => {
                                assert(is_prefix(input@, K[t])) by {
                                    assert(K[t].subrange(0, input@.len() as int) =~= input@);
                                }
                            },
                            None => {
                                let e0 = ext_ids(K, input@)[0];
                                assert(0 <= e0 < K.len() && is_prefix(input@, K[e0]));
                            },
                        }
                    }
                    assert(agg_ids(K, input@).len() == 0);
                }
                return TrieLookup::NoMatch;
            }
            proof {
                let t = choose|t: int|
                    0 <= t < edges@.len() && #[trigger] edges@[t] == (c, child);
                assert(N[cur as int].children@[t] == (c, child));
                assert(1 <= child < N.len());
                assert(N[child as int].path@ == N[cur as int].path@.push(c));
                assert(input@.take(i as int).push(c) =~= input@.take(i + 1));
            }
            cur = child;
            i = i + 1;
        }
        assert(input@.take(n as int) =~= input@);
        assert(N[cur as int].path@ == input@);
        let ghost a = agg_ids(K, input@);
        proof {
            assert(plist_of(N[cur as int]) == a);
            lemma_agg_bounds(K, input@);
        }
        let pl = &self.nodes[cur].payload_list;
        assert(pl@.len() == a.len());
        assert(forall|x: int| 0 <= x < a.len() ==> pl@[x] as int == a[x]);
        if pl.len() == 0 {
            return TrieLookup::NoMatch;
        }
        let mut cands: Vec<(String, usize)> = Vec::new();
        let mut q: usize = 0;
        while q < pl.len()
            invariant
                q <= pl@.len(),
                cands@.len() == q,
                forall|x: int| 0 <= x < q ==> (#[trigger] cands@[x]).0@ == K[a[x]],
                forall|x: int| 0 <= x < q ==> (#[trigger] cands@[x]).1 == self.entries@[a[x]].1,
            decreases pl@.len() - q,
        {
            let idx = pl[q];
            assert(idx as int == a[q as int]);
            assert(idx < self.entries.len());
            cands.push((self.entries[idx].0.clone(), self.entries[idx].1));
            proof {
                assert(K[a[q as int]] == self.entries@[a[q as int]].0@);
            }
            q = q + 1;
        }
        if cands.len() == 1 {
            let p = cands[0].1;
            proof {
                assert forall|x: int| 0 <= x < a.len() implies self.entries@[#[trigger] a[x]].1
                    == p by {
                    assert(x == 0);
                }
            }
            return TrieLookup::Found(p);
        }
        match parse_resolve_ambiguous(&cands) {
            Some(p) => {
                proof {
                    assert forall|x: int| 0 <= x < a.len() implies self.entries@[#[trigger] a[x]].1 == p by {
                        assert(cands@[x].1 == p);
                    }
                }
                TrieLookup::Found(p)
            },
            None => {
                proof {
                    let iw = choose|i: int|
                        0 <= i < cands@.len() && (#[trigger] cands@[i]).1 != cands@[0].1;
                    assert(self.entries@[a[iw]].1 != self.entries@[a[0]].1);
                }
                let mut names: Vec<String> = Vec::new();
                let mut w: usize = 0;
                while w < cands.len()
                    invariant
                        w <= cands@.len(),
                        names@.len() == w,
                        forall|x: int| 0 <= x < w ==> (#[trigger] names@[x])@ == K[a[x]],
                    decreases cands@.len() - w,
                {
                    names.push(cands[w].0.clone());
                    w = w + 1;
                }
                proof {
                    assert(names.deep_view() =~= cand_names(K, a));
                }
                TrieLookup::Ambiguous(names)
            },
        }
    }
}


// ---------------------------------------------------------------------
// Construction
// ---------------------------------------------------------------------

/// Whether one of the first `upto` keys equals `key`.
pub open spec fn has_key(K: Seq<Seq<char>>, upto: int, key: Seq<char>) -> bool {
    exists|t: int| 0 <= t < upto && t < K.len() && K[t] == key
}

/// The first key that repeats an earlier one, scanning from `j`.
pub open spec fn key_dup_from(K: Seq<Seq<char>>, j: int) -> Option<Seq<char>>
    decreases K.len() - j,
{
    if 0 <= j && j < K.len() {
        if has_key(K, j, K[j]) {
            Some(K[j])
        } else {
            key_dup_from(K, j + 1)
        }
    } else {
        None
    }
}


/// Clauses that ignore the payload lists survive a payload-only
/// rewrite of the arena.
pub proof fn lemma_shape_preserved(
    A: Seq<TrieNode>,
    B: Seq<TrieNode>,
    K: Seq<Seq<char>>,
    L: Seq<Seq<char>>,
)
    requires
        A.len() == B.len(),
        forall|m: int| 0 <= m < A.len() ==> (#[trigger] B[m]).path@ == A[m].path@,
        forall|m: int| 0 <= m < A.len() ==> (#[trigger] B[m]).children@ == A[m].children@,
        forall|m: int| 0 <= m < A.len() ==> (#[trigger] B[m]).terminal == A[m].terminal,
        wf_structure(A),
        terminals_sound(A, K),
        terminals_complete(A, K),
        edges_complete(A, K),
        nodes_live(A, L),
    ensures
        wf_structure(B),
        terminals_sound(B, K),
        terminals_complete(B, K),
        edges_complete(B, K),
        nodes_live(B, L),
        forall|n: int, c: char| 0 <= n < A.len() ==> #[trigger] has_edge(B, n, c) == has_edge(
            A,
            n,
            c,
        ),
{
    assert forall|n: int, c: char| 0 <= n < A.len() implies #[trigger] has_edge(B, n, c)
        == has_edge(A, n, c) by {
        if has_edge(A, n, c) {
            let j = choose|j: int|
                0 <= j < A[n].children@.len() && (#[trigger] A[n].children@[j]).0 == c;
            assert((B[n].children@[j]).0 == c);
        }
        if has_edge(B, n, c) {
            let j = choose|j: int|
                0 <= j < B[n].children@.len() && (#[trigger] B[n].children@[j]).0 == c;
            assert((A[n].children@[j]).0 == c);
        }
    }
    assert(root_ok(B));
    assert(edges_ok(B)) by {
        assert forall|n: int, j: int|
            0 <= n < B.len() && 0 <= j < B[n].children@.len() implies {
            let e = #[trigger] B[n].children@[j];
            &&& 1 <= e.1 < B.len()
            &&& B[e.1 as int].path@ == B[n].path@.push(e.0)
        } by {
            assert(B[n].children@[j] == A[n].children@[j]);
        }
    }
    assert(edge_chars_distinct(B)) by {
        assert forall|n: int, j1: int, j2: int|
            0 <= n < B.len() && 0 <= j1 < B[n].children@.len() && 0 <= j2 < B[
            n].children@.len() && j1 != j2 implies (#[trigger] B[n].children@[j1]).0 != (
        #[trigger] B[n].children@[j2]).0 by {
            assert(B[n].children@[j1] == A[n].children@[j1]);
            assert(B[n].children@[j2] == A[n].children@[j2]);
        }
    }
    assert(parents_ok(B)) by {
        assert forall|m: int| 1 <= m < B.len() implies parent_exists(B, m) by {
            assert(parent_exists(A, m));
            let (pn, pj) = choose|pn: int, pj: int|
                0 <= pn < A.len() && 0 <= pj < A[pn].children@.len() && (#[trigger] A[
                pn].children@[pj]).1 == m;
            assert((B[pn].children@[pj]).1 == m);
        }
    }
    assert(edges_complete(B, K)) by {
        assert forall|n: int, k: int|
            0 <= n < B.len() && 0 <= k < K.len() && #[trigger] is_prefix(B[n].path@, K[k]) && B[
            n].path@.len() < K[k].len() implies has_edge(B, n, K[k][B[n].path@.len() as int]) by {
            assert(is_prefix(A[n].path@, K[k]));
            assert(has_edge(A, n, K[k][A[n].path@.len() as int]));
        }
    }
    assert(nodes_live(B, L)) by {
        assert forall|m: int| 1 <= m < B.len() implies node_live_at(B, L, m) by {
            assert(node_live_at(A, L, m));
            let kk = choose|kk: int|
                0 <= kk < L.len() && #[trigger] is_prefix(A[m].path@, L[kk]);
            assert(is_prefix(B[m].path@, L[kk]));
        }
    }
}

/// The state in the middle of inserting key `s` after `i` characters:
/// the structure and the old-key clauses hold throughout; the nodes on
/// the consumed path already aggregate the new entry and carry its
/// next edge, all others still aggregate only the old entries.
pub open spec fn insert_partial(
    N: Seq<TrieNode>,
    K: Seq<Seq<char>>,
    s: Seq<char>,
    i: int,
) -> bool {
    &&& wf_structure(N)
    &&& terminals_sound(N, K)
    &&& terminals_complete(N, K)
    &&& keys_unique(K)
    &&& edges_complete(N, K)
    &&& nodes_live(N, K.push(s))
    &&& forall|n: int|
        0 <= n < N.len() ==> {
            let p = (#[trigger] N[n]).path@;
            if p.len() < i && p == s.take(p.len() as int) {
                plist_of(N[n]) == agg_ids(K.push(s), p) && has_edge(N, n, s[p.len() as int])
            } else {
                plist_of(N[n]) == agg_ids(K, p)
            }
        }
}

/// Insert key `s` (entry index `k`) into a trie over keys `K`.
/// Returns whether the key was already present; on a fresh key the
/// arena is well-formed for the extended key list.
#[verifier::loop_isolation(false)]
#[verifier::rlimit(100)]
fn insert_key(
    nodes: &mut Vec<TrieNode>,
    Ghost(K): Ghost<Seq<Seq<char>>>,
    key: &str,
    k: usize,
) -> (dup: bool)
    requires
        wf_nk(old(nodes)@, K),
        k as int == K.len(),
    ensures
        !dup ==> wf_nk(final(nodes)@, K.push(key@)),
        !dup ==> forall|t: int| 0 <= t < K.len() ==> K[t] != key@,
        dup ==> exists|t: int| 0 <= t < K.len() && K[t] == key@,
{
    let ghost s = key@;
    let n = key.unicode_len();
    let mut cur: usize = 0;
    let mut i: usize = 0;
    proof {
        assert(s.take(0) =~= Seq::<char>::empty());
        assert forall|m: int| 1 <= m < nodes@.len() implies node_live_at(
            nodes@,
            K.push(s),
            m,
        ) by {
            assert(node_live_at(nodes@, K, m));
            let kk = choose|kk: int|
                0 <= kk < K.len() && #[trigger] is_prefix(nodes@[m].path@, K[kk]);
            assert(K.push(s)[kk] == K[kk]);
            assert(is_prefix(nodes@[m].path@, K.push(s)[kk]));
        }
        assert(insert_partial(nodes@, K, s, 0));
    }
    while i < n
        invariant
            i <= n,
            n == s.len(),
            cur < nodes@.len(),
            nodes@[cur as int].path@ == s.take(i as int),
            insert_partial(nodes@, K, s, i as int),
        decreases n - i,
    {
        let ghost N0 = nodes@;
        let ghost p = N0[cur as int].path@;
        let c = key.get_char(i);

        // Aggregate the new entry at this node, unless an exact match
        // shadows everything beneath it.
        let is_term = nodes[cur].terminal.is_some();
        proof {
            assert(p != s) by {
                assert(p.len() == i < n);
            }
            assert(is_prefix(p, s)) by {
                assert(s.subrange(0, i as int) =~= s.take(i as int));
            }
            lemma_exact_upto(K, p, K.len() as int);
            if is_term {
                let kt = N0[cur as int].terminal->0;
                assert(K[kt as int] == p);
                lemma_exact_of_key(K, p, kt as int);
            } else {
                assert forall|t: int| 0 <= t < K.len() implies K[t] != p by {
                    if K[t] == p {
                        assert(N0[cur as int].terminal == Some(t as usize));
                    }
                }
                assert(exact_id(K, p) is None);
            }
            lemma_agg_push(K, s, p);
        }
        if !is_term {
            nodes[cur].payload_list.push(k);
            proof {
                assert(nodes@.len() == N0.len());
                assert(forall|m: int| 0 <= m < N0.len() && m != cur ==> nodes@[m] == N0[m]);
                assert(nodes@[cur as int].path@ == p);
                assert(nodes@[cur as int].children@ == N0[cur as int].children@);
                assert(nodes@[cur as int].terminal == N0[cur as int].terminal);
                assert(nodes@[cur as int].payload_list@ =~= N0[cur as int].payload_list@.push(
                    k,
                ));
                assert(plist_of(nodes@[cur as int]) =~= plist_of(N0[cur as int]).push(
                    k as int,
                ));
                assert(plist_of(nodes@[cur as int]) == agg_ids(K.push(s), p));
            }
        } else {
            proof {
                assert(plist_of(nodes@[cur as int]) == agg_ids(K.push(s), p));
            }
        }
        let ghost N1 = nodes@;
        proof {
            assert(N1.len() == N0.len());
            assert(forall|m: int|
                0 <= m < N1.len() && m != cur ==> N1[m] == N0[m]);
            assert(N1[cur as int].path@ == p);
            assert(N1[cur as int].children@ == N0[cur as int].children@);
            assert(N1[cur as int].terminal == N0[cur as int].terminal);
            lemma_shape_preserved(N0, N1, K, K.push(s));
        }

        // Find or create the child for the next character.
        let edges_len = nodes[cur].children.len();
        let mut j: usize = 0;
        let mut child: usize = 0;
        let mut found = false;
        while j < edges_len
            invariant
                j <= edges_len,
                edges_len == N1[cur as int].children@.len(),
                nodes@ == N1,
                cur < N1.len(),
                !found ==> forall|t: int|
                    0 <= t < j ==> (#[trigger] N1[cur as int].children@[t]).0 != c,
                found ==> exists|t: int|
                    0 <= t < N1[cur as int].children@.len() && #[trigger] N1[cur as int].children@[t] == (c, child),
            decreases edges_len - j + (if found {
                0int
            } else {
                1int
            }),
        {
            if !found && nodes[cur].children[j].0 == c {
                found = true;
                child = nodes[cur].children[j].1;
            }
            j = j + 1;
        }
        if found {
            proof {
                let t = choose|t: int|
                    0 <= t < N1[cur as int].children@.len() && #[trigger] N1[cur as int].children@[t] == (c, child);
                assert(N1[child as int].path@ == p.push(c));
                assert(p.push(c) =~= s.take(i + 1));
                assert(c == s[i as int]);
                assert((N1[cur as int].children@[t]).0 == c);
                assert(has_edge(N1, cur as int, c));
                assert(has_edge(N1, cur as int, s[p.len() as int]));
                assert(insert_partial(N1, K, s, i + 1)) by {
                    assert forall|m: int| 0 <= m < N1.len() implies {
                        let q = (#[trigger] N1[m]).path@;
                        if q.len() < i + 1 && q == s.take(q.len() as int) {
                            plist_of(N1[m]) == agg_ids(K.push(s), q) && has_edge(
                                N1,
                                m,
                                s[q.len() as int],
                            )
                        } else {
                            plist_of(N1[m]) == agg_ids(K, q)
                        }
                    } by {
                        let q = N1[m].path@;
                        if q.len() < i + 1 && q == s.take(q.len() as int) {
                            if q.len() < i {
                                assert(N1[m] == N0[m] || m == cur);
                            } else {
                                assert(q.len() == i);
                                assert(q == s.take(i as int));
                                assert(m == cur);
                            }
                        } else {
                            assert(m != cur);
                        }
                    }
                }
            }
            cur = child;
        } else {
            // No edge: no key runs past this node with `c`, so a fresh
            // node is sound.
            proof {
                assert(!has_edge(N1, cur as int, c)) by {
                    if has_edge(N1, cur as int, c) {
                        let t = choose|t: int|
                            0 <= t < N1[cur as int].children@.len() && (#[trigger] N1[cur as int].children@[t]).0 == c;
                        assert((N1[cur as int].children@[t]).0 != c);
                    }
                }
                lemma_no_edge_no_key(N1, K, cur as int, c);
            }
            let newidx = nodes.len();
            let ghost newpath = p.push(c);
            nodes.push(
                TrieNode {
                    terminal: None,
                    payload_list: Vec::new(),
                    children: Vec::new(),
                    path: Ghost(newpath),
                },
            );
            let ghost before = nodes@[cur as int];
            nodes[cur].children.push((c, newidx));
            let ghost N2 = nodes@;
            proof {
                assert(N2[newidx as int].path@ == newpath);
                assert(N2[newidx as int].terminal is None);
                assert(N2[newidx as int].children@.len() == 0);
                assert(plist_of(N2[newidx as int]) =~= Seq::<int>::empty());
                assert(N2[cur as int].children@ =~= N1[cur as int].children@.push((c, newidx)));
                assert(N2[cur as int].path@ == p);
                assert(N2[cur as int].terminal == N1[cur as int].terminal);
                assert(N2[cur as int].payload_list == N1[cur as int].payload_list);
                assert(forall|m: int|
                    0 <= m < N1.len() && m != cur ==> N2[m] == N1[m]);
                assert(N2.len() == N1.len() + 1);

                // No key reaches the fresh node's path.
                assert(forall|t: int| 0 <= t < K.len() ==> !is_prefix(newpath, #[trigger] K[t]));
                assert forall|t: int| 0 <= t < K.len() implies K[t] != newpath by {
                    if K[t] == newpath {
                        assert(is_prefix(newpath, K[t])) by {
                            assert(K[t].subrange(0, newpath.len() as int) =~= newpath);
                        }
                    }
                }
                lemma_exact_upto(K, newpath, K.len() as int);
                lemma_ext_upto(K, newpath, K.len() as int);
                assert(ext_ids(K, newpath).len() == 0) by {
                    if ext_ids(K, newpath).len() > 0 {
                        let e0 = ext_ids(K, newpath)[0];
                        assert(is_prefix(newpath, K[e0]));
                    }
                }
                assert(agg_ids(K, newpath) =~= Seq::<int>::empty());

                // The fresh path is new: any double would be a second
                // `c`-edge out of this node.
                assert forall|m: int| 0 <= m < N1.len() implies N1[m].path@ != newpath by {
                    if N1[m].path@ == newpath {
                        assert(m != 0) by {
                            assert(N1[0].path@.len() == 0);
                        }
                        assert(parent_exists(N1, m));
                        let (pn, pj) = choose|pn: int, pj: int|
                            0 <= pn < N1.len() && 0 <= pj < N1[pn].children@.len() && (
                            #[trigger] N1[pn].children@[pj]).1 == m;
                        let e = N1[pn].children@[pj];
                        assert(N1[m].path@ == N1[pn].path@.push(e.0));
                        lemma_push_injective(N1[pn].path@, p, e.0, c);
                        assert(pn == cur);
                        assert(has_edge(N1, cur as int, c));
                    }
                }

                // Structure.
                assert(root_ok(N2));
                assert(edges_ok(N2)) by {
                    assert forall|nn: int, jj: int|
                        0 <= nn < N2.len() && 0 <= jj < N2[nn].children@.len() implies {
                        let e = #[trigger] N2[nn].children@[jj];
                        &&& 1 <= e.1 < N2.len()
                        &&& N2[e.1 as int].path@ == N2[nn].path@.push(e.0)
                    } by {
                        if nn == cur && jj == N1[cur as int].children@.len() {
                            assert(N2[nn].children@[jj] == (c, newidx));
                        } else if nn == newidx {
                            assert(N2[nn].children@.len() == 0);
                        } else if nn == cur {
                            assert(N2[nn].children@[jj] == N1[nn].children@[jj]);
                            assert((N1[nn].children@[jj]).1 != newidx as int) by {
                                assert(1 <= (N1[nn].children@[jj]).1 < N1.len());
                            }
                        } else {
                            assert(N2[nn] == N1[nn]);
                        }
                    }
                }
                assert(edge_chars_distinct(N2)) by {
                    assert forall|nn: int, j1: int, j2: int|
                        0 <= nn < N2.len() && 0 <= j1 < N2[nn].children@.len() && 0 <= j2 < N2[nn].children@.len() && j1 != j2 implies (#[trigger] N2[nn].children@[j1]).0
                        != (#[trigger] N2[nn].children@[j2]).0 by {
                        if nn == cur {
                            let last = N1[cur as int].children@.len() as int;
                            if j1 == last {
                                assert((N2[nn].children@[j2]).0 != c);
                            } else if j2 == last {
                                assert((N2[nn].children@[j1]).0 != c);
                            }
                        }
                    }
                }
                assert(parents_ok(N2)) by {
                    assert forall|m: int| 1 <= m < N2.len() implies parent_exists(N2, m) by {
                        if m == newidx {
                            let jj = N1[cur as int].children@.len() as int;
                            assert(N2[cur as int].children@[jj] == (c, newidx));
                            assert(0 <= jj < N2[cur as int].children@.len() && (N2[
                                cur as int].children@[jj]).1 == m);
                        } else {
                            assert(parent_exists(N1, m));
                            let (pn, pj) = choose|pn: int, pj: int|
                                0 <= pn < N1.len() && 0 <= pj < N1[pn].children@.len() && (
                                #[trigger] N1[pn].children@[pj]).1 == m;
                            if pn == cur {
                                assert((N2[pn].children@[pj]).1 == m);
                            } else {
                                assert((N2[pn].children@[pj]).1 == m);
                            }
                        }
                    }
                }
                assert(paths_unique(N2)) by {
                    assert forall|n1: int, m1: int|
                        #![trigger N2[n1].path@, N2[m1].path@]
                        0 <= n1 < N2.len() && 0 <= m1 < N2.len() && n1 != m1 implies N2[n1].path@ != N2[m1].path@ by {
                        if n1 != newidx && m1 != newidx {
                            assert(N2[n1].path@ == N1[n1].path@);
                            assert(N2[m1].path@ == N1[m1].path@);
                        } else if n1 == newidx {
                            assert(N2[m1].path@ == N1[m1].path@ && N1[m1].path@ != newpath);
                        } else {
                            assert(N2[n1].path@ == N1[n1].path@ && N1[n1].path@ != newpath);
                        }
                    }
                }

                // Key-dependent clauses.
                assert(terminals_sound(N2, K));
                assert(terminals_complete(N2, K)) by {
                    assert forall|nn: int, t: int|
                        #![trigger N2[nn].terminal, K[t]]
                        0 <= nn < N2.len() && 0 <= t < K.len() && K[t] == N2[nn].path@ implies N2[nn].terminal == Some(t as usize) by {
                        if nn == newidx {
                            assert(K[t] != newpath);
                        }
                    }
                }
                assert(edges_complete(N2, K)) by {
                    assert forall|nn: int, t: int|
                        0 <= nn < N2.len() && 0 <= t < K.len() && #[trigger] is_prefix(
                        N2[nn].path@, K[t]) && N2[nn].path@.len() < K[t].len() implies has_edge(
                        N2, nn, K[t][N2[nn].path@.len() as int]) by {
                        if nn == newidx {
                            assert(!is_prefix(newpath, K[t]));
                        } else {
                            assert(N2[nn].path@ == N1[nn].path@);
                            assert(has_edge(N1, nn, K[t][N1[nn].path@.len() as int]));
                            let tj = choose|tj: int|
                                0 <= tj < N1[nn].children@.len() && (#[trigger] N1[nn].children@[tj]).0 == K[t][N1[nn].path@.len() as int];
                            if nn == cur {
                                assert((N2[nn].children@[tj]).0 == K[t][N1[nn].path@.len() as int]);
                            } else {
                                assert(N2[nn] == N1[nn]);
                            }
                            assert(has_edge(N2, nn, K[t][N2[nn].path@.len() as int]));
                        }
                    }
                }
                assert(nodes_live(N2, K.push(s))) by {
                    assert forall|m: int| 1 <= m < N2.len() implies node_live_at(
                        N2,
                        K.push(s),
                        m,
                    ) by {
                        if m == newidx {
                            assert(newpath =~= s.take(i + 1));
                            assert(is_prefix(newpath, K.push(s)[K.len() as int])) by {
                                assert(s.subrange(0, i + 1) =~= newpath);
                            }
                        } else {
                            assert(node_live_at(N1, K.push(s), m));
                            let kk = choose|kk: int|
                                0 <= kk < K.push(s).len() && #[trigger] is_prefix(
                                N1[m].path@, K.push(s)[kk]);
                            assert(N2[m].path@ == N1[m].path@);
                            assert(is_prefix(N2[m].path@, K.push(s)[kk]));
                        }
                    }
                }

                // The transitional payload clause at i + 1.
                assert(p.push(c) =~= s.take(i + 1));
                assert(has_edge(N2, cur as int, c)) by {
                    let jj = N1[cur as int].children@.len() as int;
                    assert((N2[cur as int].children@[jj]).0 == c);
                }
                assert forall|m: int| 0 <= m < N2.len() implies {
                    let q = (#[trigger] N2[m]).path@;
                    if q.len() < i + 1 && q == s.take(q.len() as int) {
                        plist_of(N2[m]) == agg_ids(K.push(s), q) && has_edge(
                            N2,
                            m,
                            s[q.len() as int],
                        )
                    } else {
                        plist_of(N2[m]) == agg_ids(K, q)
                    }
                } by {
                    let q = N2[m].path@;
                    if m == newidx {
                        assert(q == newpath);
                        assert(q.len() == i + 1);
                        assert(plist_of(N2[m]) =~= agg_ids(K, q));
                    } else if m == cur {
                        assert(q == p && q.len() == i);
                        assert(q == s.take(q.len() as int));
                        assert(plist_of(N2[m]) == plist_of(N1[m]));
                        assert(plist_of(N2[m]) == agg_ids(K.push(s), q));
                        assert(has_edge(N2, m, s[q.len() as int]));
                    } else {
                        assert(N2[m] == N1[m]);
                        if q.len() < i + 1 && q == s.take(q.len() as int) {
                            if q.len() < i {
                                assert(has_edge(N1, m, s[q.len() as int]));
                                let tj = choose|tj: int|
                                    0 <= tj < N1[m].children@.len() && (#[trigger] N1[m].children@[tj]).0 == s[q.len() as int];
                                assert((N2[m].children@[tj]).0 == s[q.len() as int]);
                            } else {
                                assert(q.len() == i && q == s.take(i as int));
                                assert(m == cur);
                            }
                        }
                    }
                }
                assert(insert_partial(N2, K, s, i + 1));
            }
            cur = newidx;
        }
        i = i + 1;
    }

    // The whole key is consumed: an existing terminal is a duplicate;
    // otherwise this node becomes the key's terminal.
    assert(nodes@[cur as int].path@ == s) by {
        assert(s.take(n as int) =~= s);
    }
    let ghost NF = nodes@;
    let dup = nodes[cur].terminal.is_some();
    if dup {
        proof {
            let kt = NF[cur as int].terminal->0;
            assert(K[kt as int] == s);
        }
        return true;
    }
    proof {
        assert forall|t: int| 0 <= t < K.len() implies K[t] != s by {
            if K[t] == s {
                assert(NF[cur as int].terminal == Some(t as usize));
            }
        }
    }
    let mut single: Vec<usize> = Vec::new();
    single.push(k);
    let ghost before = nodes@[cur as int];
    nodes[cur].terminal = Some(k);
    nodes[cur].payload_list = single;
    let ghost N3 = nodes@;
    proof {
        let K2 = K.push(s);
        assert(N3[cur as int].path@ == s);
        assert(N3[cur as int].terminal == Some(k));
        assert(plist_of(N3[cur as int]) =~= seq![k as int]);
        assert(forall|m: int| 0 <= m < N3.len() && m != cur ==> N3[m] == NF[m]);
        assert(N3.len() == NF.len());

        assert(K2.len() == K.len() + 1 && K2[K.len() as int] == s);
        assert(forall|t: int| 0 <= t < K.len() ==> K2[t] == K[t]);
        assert(keys_unique(K2)) by {
            assert forall|t1: int, t2: int| 0 <= t1 < t2 < K2.len() implies K2[t1] != K2[t2] by {
                if t2 == K.len() {
                    assert(K2[t1] == K[t1] && K[t1] != s);
                }
            }
        }
        assert(wf_structure(N3)) by {
            assert forall|nn: int, jj: int|
                0 <= nn < N3.len() && 0 <= jj < N3[nn].children@.len() implies {
                let e = #[trigger] N3[nn].children@[jj];
                &&& 1 <= e.1 < N3.len()
                &&& N3[e.1 as int].path@ == N3[nn].path@.push(e.0)
            } by {
                assert(N3[nn].children@ == NF[nn].children@);
                assert(NF[nn].children@[jj] == N3[nn].children@[jj]);
            }
            assert forall|m: int| 1 <= m < N3.len() implies parent_exists(N3, m) by {
                assert(parent_exists(NF, m));
                let (pn, pj) = choose|pn: int, pj: int|
                    0 <= pn < NF.len() && 0 <= pj < NF[pn].children@.len() && (#[trigger] NF[pn].children@[pj]).1 == m;
                assert((N3[pn].children@[pj]).1 == m);
            }
        }
        assert(terminals_sound(N3, K2)) by {
            assert forall|nn: int| 0 <= nn < N3.len() implies match #[trigger] N3[nn].terminal {
                Some(t) => t < K2.len() && K2[t as int] == N3[nn].path@,
                None => true,
            } by {
                if nn != cur {
                    assert(N3[nn].terminal == NF[nn].terminal);
                    match NF[nn].terminal {
                        Some(t) => {
                            assert(K2[t as int] == K[t as int]);
                        },
                        None => {},
                    }
                }
            }
        }
        assert(terminals_complete(N3, K2)) by {
            assert forall|nn: int, t: int|
                #![trigger N3[nn].terminal, K2[t]]
                0 <= nn < N3.len() && 0 <= t < K2.len() && K2[t] == N3[nn].path@ implies N3[nn].terminal == Some(t as usize) by {
                if t == K.len() {
                    assert(K2[t] == s);
                    assert(N3[nn].path@ == s);
                    assert(nn == cur) by {
                        if nn != cur {
                            assert(NF[nn].path@ == s && NF[cur as int].path@ == s);
                        }
                    }
                } else {
                    assert(K2[t] == K[t]);
                    assert(K[t] != s);
                    assert(nn != cur) by {
                        if nn == cur {
                            assert(K[t] == s);
                        }
                    }
                    assert(NF[nn].terminal == Some(t as usize));
                }
            }
        }
        assert(edges_complete(N3, K2)) by {
            assert forall|nn: int, t: int|
                0 <= nn < N3.len() && 0 <= t < K2.len() && #[trigger] is_prefix(
                N3[nn].path@, K2[t]) && N3[nn].path@.len() < K2[t].len() implies has_edge(
                N3, nn, K2[t][N3[nn].path@.len() as int]) by {
                let q = N3[nn].path@;
                assert(q == NF[nn].path@);
                if t < K.len() {
                    assert(has_edge(NF, nn, K[t][q.len() as int]));
                    let tj = choose|tj: int|
                        0 <= tj < NF[nn].children@.len() && (#[trigger] NF[nn].children@[tj]).0 == K[t][q.len() as int];
                    assert((N3[nn].children@[tj]).0 == K2[t][q.len() as int]);
                } else {
                    assert(K2[t] == s);
                    assert(q == s.take(q.len() as int)) by {
                        assert(s.subrange(0, q.len() as int) =~= s.take(q.len() as int));
                    }
                    assert(q.len() < n);
                    assert(has_edge(NF, nn, s[q.len() as int]));
                    let tj = choose|tj: int|
                        0 <= tj < NF[nn].children@.len() && (#[trigger] NF[nn].children@[tj]).0 == s[q.len() as int];
                    assert((N3[nn].children@[tj]).0 == s[q.len() as int]);
                }
            }
        }
        assert(nodes_live(N3, K2)) by {
            assert forall|m: int| 1 <= m < N3.len() implies node_live_at(N3, K2, m) by {
                assert(node_live_at(NF, K2, m));
                let kk = choose|kk: int|
                    0 <= kk < K2.len() && #[trigger] is_prefix(NF[m].path@, K2[kk]);
                assert(is_prefix(N3[m].path@, K2[kk]));
            }
        }
        assert(payloads_ok(N3, K2)) by {
            lemma_ext_upto_push(K, s, s, K.len() as int);
            assert(exact_id(K2, s) == Some(K.len() as int)) by {
                lemma_exact_upto(K, s, K.len() as int);
                assert(exact_upto(K2, s, K.len() as int) == exact_upto(K, s, K.len() as int));
                assert(exact_upto(K2, s, K2.len() as int) == match exact_upto(
                    K2,
                    s,
                    K.len() as int,
                ) {
                    Some(x) => Some(x),
                    None => if K2[K.len() as int] == s {
                        Some(K.len() as int)
                    } else {
                        None
                    },
                });
            }
            assert forall|nn: int| 0 <= nn < N3.len() implies plist_of(#[trigger] N3[nn])
                == agg_ids(K2, N3[nn].path@) by {
                let q = N3[nn].path@;
                if nn == cur {
                    assert(agg_ids(K2, s) =~= seq![K.len() as int]);
                    assert(plist_of(N3[nn]) =~= seq![k as int]);
                } else {
                    assert(N3[nn] == NF[nn]);
                    if q.len() < n && q == s.take(q.len() as int) {
                        assert(plist_of(NF[nn]) == agg_ids(K2, q));
                    } else {
                        assert(plist_of(NF[nn]) == agg_ids(K, q));
                        assert(q != s) by {
                            if q == s {
                                assert(NF[nn].path@ == NF[cur as int].path@);
                            }
                        }
                        assert(!is_prefix(q, s)) by {
                            if is_prefix(q, s) {
                                assert(q == s.take(q.len() as int)) by {
                                    assert(s.subrange(0, q.len() as int) =~= s.take(
                                        q.len() as int,
                                    ));
                                }
                                assert(q.len() < n) by {
                                    if q.len() == n {
                                        assert(q =~= s);
                                    }
                                }
                            }
                        }
                        lemma_agg_push(K, s, q);
                    }
                }
            }
        }
        assert(wf_nk(N3, K2));
    }
    false
}

impl Trie {
    /// Build a trie over the given entries.  Two entries spelling one
    /// identical key are a construction error naming the duplicate.
    #[verifier::loop_isolation(false)]
    #[verifier::rlimit(60)]
    pub fn new(entries: Vec<(String, usize)>) -> (r: Result<Trie, SpecError>)
        ensures
            ({
                let K = keys_of(entries@);
                match r {
                    Ok(t) => t.entries@ == entries@ && trie_wf(&t) && key_dup_from(K, 0)
                        is None,
                    Err(e) => key_dup_from(K, 0) matches Some(d) && e matches
                        SpecError::DuplicateId(ds) && ds@ == d,
                }
            }),
    {
        let ghost K = keys_of(entries@);
        let mut nodes: Vec<TrieNode> = Vec::new();
        nodes.push(
            TrieNode {
                terminal: None,
                payload_list: Vec::new(),
                children: Vec::new(),
                path: Ghost(Seq::empty()),
            },
        );
        proof {
            assert(K.take(0) =~= Seq::<Seq<char>>::empty());
            assert(plist_of(nodes@[0]) =~= Seq::<int>::empty());
            lemma_agg_empty(K.take(0), nodes@[0].path@);
            assert(wf_nk(nodes@, K.take(0)));
        }
        let mut k: usize = 0;
        while k < entries.len()
            invariant
                k <= entries@.len(),
                K == keys_of(entries@),
                wf_nk(nodes@, K.take(k as int)),
                key_dup_from(K, 0) == key_dup_from(K, k as int),
            decreases entries@.len() - k,
        {
            assert(K[k as int] == entries@[k as int].0@);
            let dup = insert_key(&mut nodes, Ghost(K.take(k as int)), entries[k].0.as_str(), k);
            if dup {
                proof {
                    let t = choose|t: int|
                        0 <= t < K.take(k as int).len() && K.take(k as int)[t] == entries@[k as int].0@;
                    assert(K[t] == K[k as int]);
                    assert(has_key(K, k as int, K[k as int]));
                    assert(key_dup_from(K, k as int) == Some(K[k as int]));
                }
                return Err(SpecError::DuplicateId(entries[k].0.clone()));
            }
            proof {
                assert(K.take(k as int).push(entries@[k as int].0@) =~= K.take(k + 1));
                assert(wf_nk(nodes@, K.take(k + 1)));
                assert(!has_key(K, k as int, K[k as int])) by {
                    if has_key(K, k as int, K[k as int]) {
                        let t = choose|t: int|
                            0 <= t < k as int && t < K.len() && K[t] == K[k as int];
                        assert(K.take(k as int)[t] == K[k as int]);
                    }
                }
                assert(key_dup_from(K, k as int) == key_dup_from(K, k + 1));
            }
            k = k + 1;
        }
        proof {
            assert(K.take(entries@.len() as int) =~= K);
        }
        Ok(Trie { entries, nodes })
    }
}


/// A borrowed view of one trie node.
pub struct TrieNodeRef<'a> {
    /// The owning trie.
    pub trie: &'a Trie,
    /// The index of the node.
    pub node: usize,
}

impl Trie {
    /// The root node.
    pub fn root<'a>(&'a self) -> (r: TrieNodeRef<'a>)
        requires
            trie_wf(self),
        ensures
            r.trie == self,
            r.node == 0,
    {
        TrieNodeRef { trie: self, node: 0 }
    }
}

impl<'a> TrieNodeRef<'a> {
    /// The entries this node stands for: the aggregated key/payload
    /// pairs beneath it, an exact match shadowing longer keys.
    #[verifier::loop_isolation(false)]
    pub fn payloads(&self) -> (r: Vec<(String, usize)>)
        requires
            trie_wf(self.trie),
            self.node < self.trie.nodes@.len(),
        ensures
            ({
                let a = agg_ids(keys_of(self.trie.entries@), self.trie.nodes@[
                    self.node as int].path@);
                &&& r@.len() == a.len()
                &&& forall|x: int|
                    0 <= x < a.len() ==> (#[trigger] r@[x]).0@ == keys_of(
                        self.trie.entries@,
                    )[a[x]] && r@[x].1 == self.trie.entries@[a[x]].1
            }),
    {
        let ghost K = keys_of(self.trie.entries@);
        let ghost a = agg_ids(K, self.trie.nodes@[self.node as int].path@);
        proof {
            assert(plist_of(self.trie.nodes@[self.node as int]) == a);
            lemma_agg_bounds(K, self.trie.nodes@[self.node as int].path@);
        }
        let pl = &self.trie.nodes[self.node].payload_list;
        let mut out: Vec<(String, usize)> = Vec::new();
        let mut q: usize = 0;
        while q < pl.len()
            invariant
                q <= pl@.len(),
                pl@.len() == a.len(),
                forall|x: int| 0 <= x < a.len() ==> pl@[x] as int == a[x],
                out@.len() == q,
                forall|x: int| 0 <= x < q ==> (#[trigger] out@[x]).0@ == K[a[x]],
                forall|x: int| 0 <= x < q ==> (#[trigger] out@[x]).1 == self.trie.entries@[a[x]].1,
            decreases pl@.len() - q,
        {
            let idx = pl[q];
            proof {
                assert(pl@[q as int] as int == a[q as int]);
                assert(0 <= a[q as int] < K.len());
                assert(K.len() == self.trie.entries@.len());
            }
            assert(idx < self.trie.entries.len());
            out.push((self.trie.entries[idx].0.clone(), self.trie.entries[idx].1));
            q = q + 1;
        }
        out
    }

    /// The labelled edges out of this node.
    #[verifier::loop_isolation(false)]
    pub fn children(&self) -> (r: Vec<(char, TrieNodeRef<'a>)>)
        requires
            trie_wf(self.trie),
            self.node < self.trie.nodes@.len(),
        ensures
            ({
                let cs = self.trie.nodes@[self.node as int].children@;
                &&& r@.len() == cs.len()
                &&& forall|x: int|
                    0 <= x < cs.len() ==> (#[trigger] r@[x]).0 == cs[x].0 && r@[x].1.node
                        == cs[x].1 && r@[x].1.trie == self.trie
            }),
    {
        let ghost cs = self.trie.nodes@[self.node as int].children@;
        let edges = &self.trie.nodes[self.node].children;
        let mut out: Vec<(char, TrieNodeRef<'a>)> = Vec::new();
        let mut q: usize = 0;
        while q < edges.len()
            invariant
                q <= cs.len(),
                edges@ == cs,
                out@.len() == q,
                forall|x: int|
                    0 <= x < q ==> (#[trigger] out@[x]).0 == cs[x].0 && out@[x].1.node == cs[x].1
                        && out@[x].1.trie == self.trie,
            decreases cs.len() - q,
        {
            out.push((edges[q].0, TrieNodeRef { trie: self.trie, node: edges[q].1 }));
            q = q + 1;
        }
        out
    }
}

} // verus!
