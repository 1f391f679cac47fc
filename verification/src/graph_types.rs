//! Graph-domain types: the adjacency list used by the graph algorithms, and
//! paths, subgraph views, queries and statistics.

use vstd::prelude::*;
use vstd::relations::{sorted_by, total_ordering};
use crate::errors::{FoundationError, FoundationResult};
use crate::id::{DeterministicId, EdgeDomain, GraphDomain, NodeDomain};
use crate::primitives::FloatBits;
use crate::text::{lex_lt, str_lex_less, str_equal, lemma_lex_irreflexive, lemma_lex_transitive,
    lemma_lex_total, lemma_lex_asymmetric, to_owned_string};
use crate::ordered_map::OrderedMap;

verus! {

broadcast use vstd::seq_lib::group_to_multiset_ensures, vstd::multiset::group_multiset_axioms;

/// The views of a sequence of strings.
pub open spec fn str_views(v: Seq<String>) -> Seq<Seq<char>> {
    v.map_values(|s: String| s@)
}

/// Node order used for deterministic traversal: by name, then by index
/// (indices only tie when names are equal, which never happens in a graph).
pub open spec fn name_leq(names: Seq<Seq<char>>, a: usize, b: usize) -> bool {
    lex_lt(names[a as int], names[b as int]) || (names[a as int] == names[b as int] && a <= b)
}

/// `name_leq` as a relation on node indices.
pub open spec fn name_order(names: Seq<Seq<char>>) -> spec_fn(usize, usize) -> bool {
    |a: usize, b: usize| name_leq(names, a, b)
}

/// `name_leq` lifted to edges `(target, weight)` by their targets.
pub open spec fn edge_order(names: Seq<Seq<char>>) -> spec_fn((usize, FloatBits), (usize, FloatBits)) -> bool {
    |a: (usize, FloatBits), b: (usize, FloatBits)| name_leq(names, a.0, b.0)
}

/// `name_leq` is a total order on indices.
pub proof fn lemma_name_order_total(names: Seq<Seq<char>>)
    ensures
        total_ordering(name_order(names)),
{
    let r = name_order(names);
    assert forall|x: usize| #[trigger] r(x, x) by {}
    assert forall|x: usize, y: usize| #[trigger] r(x, y) && #[trigger] r(y, x) implies x == y by {
        if lex_lt(names[x as int], names[y as int]) {
            lemma_lex_asymmetric(names[x as int], names[y as int]);
            lemma_lex_irreflexive(names[x as int]);
        } else if lex_lt(names[y as int], names[x as int]) {
            lemma_lex_irreflexive(names[x as int]);
        }
    }
    assert forall|x: usize, y: usize, z: usize| #[trigger] r(x, y) && #[trigger] r(y, z) implies r(x, z) by {
        lemma_name_leq_trans(names, x, y, z);
    }
    assert forall|x: usize, y: usize| #[trigger] r(x, y) || #[trigger] r(y, x) by {
        if names[x as int] != names[y as int] {
            lemma_lex_total(names[x as int], names[y as int]);
        }
    }
}

/// `name_leq` is transitive.
pub proof fn lemma_name_leq_trans(names: Seq<Seq<char>>, x: usize, y: usize, z: usize)
    requires
        name_leq(names, x, y),
        name_leq(names, y, z),
    ensures
        name_leq(names, x, z),
{
    if lex_lt(names[x as int], names[y as int]) && lex_lt(names[y as int], names[z as int]) {
        lemma_lex_transitive(names[x as int], names[y as int], names[z as int]);
    }
}

/// Whether `names[a] <= names[b]` in the traversal order.
pub fn name_leq_exec(names: &Vec<String>, a: usize, b: usize) -> (r: bool)
    requires
        a < names@.len(),
        b < names@.len(),
    ensures
        r == name_leq(str_views(names@), a, b),
{
    let na = names[a].as_str();
    let nb = names[b].as_str();
    if str_lex_less(na, nb) {
        true
    } else if str_lex_less(nb, na) {
        proof {
            lemma_lex_asymmetric(nb@, na@);
            lemma_lex_irreflexive(na@);
        }
        false
    } else {
        proof {
            if na@ != nb@ {
                lemma_lex_total(na@, nb@);
            }
        }
        a <= b
    }
}

/// Sorts edges by the name of their target node (insertion sort).
pub fn sort_edges_by_name(v: &mut Vec<(usize, FloatBits)>, names: &Vec<String>)
    requires
        forall|k: int| 0 <= k < old(v)@.len() ==> (#[trigger] old(v)@[k]).0 < names@.len(),
    ensures
        final(v)@.to_multiset() == old(v)@.to_multiset(),
        sorted_by(final(v)@, edge_order(str_views(names@))),
        forall|k: int| 0 <= k < final(v)@.len() ==> (#[trigger] final(v)@[k]).0 < names@.len(),
{
    let ghost nv = str_views(names@);
    let ghost leq = edge_order(nv);
    proof {
        lemma_name_order_total(nv);
    }
    let mut i: usize = 1;
    if v.len() == 0 {
        return;
    }
    let ghost len = v@.len();
    while i < v.len()
        invariant
            1 <= i <= v@.len(),
            v@.len() == len,
            nv == str_views(names@),
            leq == edge_order(nv),
            total_ordering(name_order(nv)),
            v@.to_multiset() == old(v)@.to_multiset(),
            forall|k: int| 0 <= k < v@.len() ==> (#[trigger] v@[k]).0 < names@.len(),
            sorted_by(v@.subrange(0, i as int), leq),
        decreases v.len() - i,
    {
        let mut j: usize = i;
        proof {
            assert forall|a: int, b: int| 0 <= a < b < j implies name_leq(nv, v@[a].0, v@[b].0) by {
                assert(leq(v@.subrange(0, i as int)[a], v@.subrange(0, i as int)[b]));
            }
        }
        while j > 0 && !name_leq_exec(names, v[j - 1].0, v[j].0)
            invariant
                0 <= j <= i < v@.len(),
                v@.len() == len,
                nv == str_views(names@),
                leq == edge_order(nv),
                total_ordering(name_order(nv)),
                v@.to_multiset() == old(v)@.to_multiset(),
                forall|k: int| 0 <= k < v@.len() ==> (#[trigger] v@[k]).0 < names@.len(),
                forall|a: int, b: int| 0 <= a < b < j ==> name_leq(nv, v@[a].0, v@[b].0),
                forall|a: int, b: int| j < a < b <= i ==> name_leq(nv, v@[a].0, v@[b].0),
                forall|a: int, b: int| 0 <= a < j && j < b <= i ==> name_leq(nv, v@[a].0, v@[b].0),
                forall|b: int| j < b <= i ==> name_leq(nv, v@[j as int].0, v@[b].0),
            decreases j,
        {
            let a = v[j - 1];
            let b = v[j];
            proof {
                let r = name_order(nv);
                assert(r(v@[j - 1].0, v@[j as int].0) || r(v@[j as int].0, v@[j - 1].0));
                assert(name_leq(nv, b.0, a.0));
            }
            let ghost pre = v@;
            v.set(j - 1, b);
            v.set(j, a);
            proof {
                assert(v@ == pre.update(j - 1, b).update(j as int, a));
                assert(v@.to_multiset() == pre.to_multiset());
                assert forall|x: int, y: int| j < x < y <= i implies name_leq(nv, v@[x].0, v@[y].0) by {}
                assert forall|x: int, y: int| j - 1 < x < y <= i implies name_leq(nv, v@[x].0, v@[y].0) by {
                    if x == j {
                        assert(v@[x] == a);
                        if y > j {
                            assert(name_leq(nv, pre[j - 1].0, pre[y].0));
                        }
                    }
                }
                assert forall|y: int| j - 1 < y <= i implies name_leq(nv, v@[j - 1].0, #[trigger] v@[y].0) by {
                    if y == j {
                        assert(name_leq(nv, b.0, a.0));
                    } else {
                        assert(name_leq(nv, pre[j as int].0, pre[y].0));
                    }
                }
                assert forall|x: int, y: int| 0 <= x < j - 1 && j - 1 < y <= i implies name_leq(nv, v@[x].0, v@[y].0) by {
                    if y == j {
                        assert(name_leq(nv, pre[x].0, pre[j - 1].0));
                        assert(v@[y] == a);
                    } else {
                        assert(name_leq(nv, pre[x].0, pre[y].0));
                    }
                }
            }
            j = j - 1;
        }
        proof {
            if j > 0 {
                assert forall|x: int| 0 <= x < j implies name_leq(nv, v@[x].0, v@[j as int].0) by {
                    if x < j - 1 {
                        lemma_name_leq_trans(nv, v@[x].0, v@[j - 1].0, v@[j as int].0);
                    }
                }
            }
            assert forall|x: int, y: int| 0 <= x < y < i + 1 implies #[trigger] leq(v@.subrange(0, i + 1)[x], v@.subrange(0, i + 1)[y]) by {
                assert(v@.subrange(0, i + 1)[x] == v@[x]);
                assert(v@.subrange(0, i + 1)[y] == v@[y]);
            }
        }
        i = i + 1;
    }
    proof {
        assert(v@.subrange(0, i as int) =~= v@);
    }
}

/// Sorts node indices by name (insertion sort).
pub fn sort_indices_by_name(v: &mut Vec<usize>, names: &Vec<String>)
    requires
        forall|k: int| 0 <= k < old(v)@.len() ==> #[trigger] old(v)@[k] < names@.len(),
    ensures
        final(v)@.to_multiset() == old(v)@.to_multiset(),
        sorted_by(final(v)@, name_order(str_views(names@))),
        forall|k: int| 0 <= k < final(v)@.len() ==> #[trigger] final(v)@[k] < names@.len(),
{
    let ghost nv = str_views(names@);
    let ghost leq = name_order(nv);
    proof {
        lemma_name_order_total(nv);
    }
    let mut i: usize = 1;
    if v.len() == 0 {
        return;
    }
    let ghost len = v@.len();
    while i < v.len()
        invariant
            1 <= i <= v@.len(),
            v@.len() == len,
            nv == str_views(names@),
            leq == name_order(nv),
            total_ordering(name_order(nv)),
            v@.to_multiset() == old(v)@.to_multiset(),
            forall|k: int| 0 <= k < v@.len() ==> #[trigger] v@[k] < names@.len(),
            sorted_by(v@.subrange(0, i as int), leq),
        decreases v.len() - i,
    {
        let mut j: usize = i;
        proof {
            assert forall|a: int, b: int| 0 <= a < b < j implies name_leq(nv, v@[a], v@[b]) by {
                assert(leq(v@.subrange(0, i as int)[a], v@.subrange(0, i as int)[b]));
            }
        }
        while j > 0 && !name_leq_exec(names, v[j - 1], v[j])
            invariant
                0 <= j <= i < v@.len(),
                v@.len() == len,
                nv == str_views(names@),
                leq == name_order(nv),
                total_ordering(name_order(nv)),
                v@.to_multiset() == old(v)@.to_multiset(),
                forall|k: int| 0 <= k < v@.len() ==> #[trigger] v@[k] < names@.len(),
                forall|a: int, b: int| 0 <= a < b < j ==> name_leq(nv, v@[a], v@[b]),
                forall|a: int, b: int| j < a < b <= i ==> name_leq(nv, v@[a], v@[b]),
                forall|a: int, b: int| 0 <= a < j && j < b <= i ==> name_leq(nv, v@[a], v@[b]),
                forall|b: int| j < b <= i ==> name_leq(nv, v@[j as int], v@[b]),
            decreases j,
        {
            let a = v[j - 1];
            let b = v[j];
            proof {
                let r = name_order(nv);
                assert(r(v@[j - 1], v@[j as int]) || r(v@[j as int], v@[j - 1]));
                assert(name_leq(nv, b, a));
            }
            let ghost pre = v@;
            v.set(j - 1, b);
            v.set(j, a);
            proof {
                assert(v@ == pre.update(j - 1, b).update(j as int, a));
                assert(v@.to_multiset() == pre.to_multiset());
                assert forall|x: int, y: int| j < x < y <= i implies name_leq(nv, v@[x], v@[y]) by {}
                assert forall|x: int, y: int| j - 1 < x < y <= i implies name_leq(nv, v@[x], v@[y]) by {
                    if x == j {
                        assert(v@[x] == a);
                        if y > j {
                            assert(name_leq(nv, pre[j - 1], pre[y]));
                        }
                    }
                }
                assert forall|y: int| j - 1 < y <= i implies name_leq(nv, v@[j - 1], #[trigger] v@[y]) by {
                    if y == j {
                        assert(name_leq(nv, b, a));
                    } else {
                        assert(name_leq(nv, pre[j as int], pre[y]));
                    }
                }
                assert forall|x: int, y: int| 0 <= x < j - 1 && j - 1 < y <= i implies name_leq(nv, v@[x], v@[y]) by {
                    if y == j {
                        assert(name_leq(nv, pre[x], pre[j - 1]));
                        assert(v@[y] == a);
                    } else {
                        assert(name_leq(nv, pre[x], pre[y]));
                    }
                }
            }
            j = j - 1;
        }
        proof {
            if j > 0 {
                assert forall|x: int| 0 <= x < j implies name_leq(nv, v@[x], v@[j as int]) by {
                    if x < j - 1 {
                        lemma_name_leq_trans(nv, v@[x], v@[j - 1], v@[j as int]);
                    }
                }
            }
            assert forall|x: int, y: int| 0 <= x < y < i + 1 implies #[trigger] leq(v@.subrange(0, i + 1)[x], v@.subrange(0, i + 1)[y]) by {
                assert(v@.subrange(0, i + 1)[x] == v@[x]);
                assert(v@.subrange(0, i + 1)[y] == v@[y]);
            }
        }
        i = i + 1;
    }
    proof {
        assert(v@.subrange(0, i as int) =~= v@);
    }
}

/// Edge storage: per-node lists while the graph is built, then a flat
/// compressed-sparse-row array with each node's edges sorted by target name.
#[derive(Debug, Clone)]
enum EdgeStorage {
    Lists(Vec<Vec<(usize, FloatBits)>>),
    Csr { offsets: Vec<usize>, edges: Vec<(usize, FloatBits)> },
}

/// A directed graph over named nodes, each edge carrying a weight.
///
/// Node names are unique; nodes are numbered in insertion order and found
/// by name through a sorted name index.  After
/// [`compact`](Self::compact) the edges are stored contiguously, sorted by
/// target name, and the graph can no longer grow.
#[derive(Debug)]
pub struct AdjacencyList {
    node_to_idx: OrderedMap<usize>,
    idx_to_node: Vec<String>,
    storage: EdgeStorage,
}

/// Whether every edge target in `adj` is a node index below `n`.
pub open spec fn targets_in_range(adj: Seq<Seq<(usize, FloatBits)>>, n: int) -> bool {
    forall|i: int, k: int| 0 <= i < adj.len() && 0 <= k < adj[i].len() ==> (#[trigger] adj[i][k]).0 < n
}

/// Whether the names are pairwise distinct.
pub open spec fn distinct_names(names: Seq<Seq<char>>) -> bool {
    forall|i: int, j: int| 0 <= i < names.len() && 0 <= j < names.len() && i != j ==> names[i] != names[j]
}

/// The structural facts every graph satisfies.
pub open spec fn graph_model_ok(names: Seq<Seq<char>>, adj: Seq<Seq<(usize, FloatBits)>>) -> bool {
    &&& adj.len() == names.len()
    &&& names.len() <= usize::MAX
    &&& total_edges(adj) <= usize::MAX
    &&& distinct_names(names)
    &&& targets_in_range(adj, names.len() as int)
}

/// The targets of a list of edges.
pub open spec fn edge_targets(es: Seq<(usize, FloatBits)>) -> Seq<usize> {
    es.map_values(|e: (usize, FloatBits)| e.0)
}

/// The name with the given index-in-list, when present.
pub open spec fn index_of_name(names: Seq<Seq<char>>, name: Seq<char>) -> int {
    names.index_of(name)
}

impl AdjacencyList {
    /// The node names, by index.
    pub closed spec fn names(&self) -> Seq<Seq<char>> {
        str_views(self.idx_to_node@)
    }

    /// The outgoing edges `(target, weight)` of each node, in stored order.
    pub closed spec fn adj(&self) -> Seq<Seq<(usize, FloatBits)>> {
        match self.storage {
            EdgeStorage::Lists(lists) => lists@.map_values(|l: Vec<(usize, FloatBits)>| l@),
            EdgeStorage::Csr { offsets, edges } => Seq::new(
                self.idx_to_node@.len(),
                |i: int| edges@.subrange(offsets@[i] as int, offsets@[i + 1] as int),
            ),
        }
    }

    /// Whether the graph has been compacted.
    pub closed spec fn compacted(&self) -> bool {
        self.storage is Csr
    }

    #[verifier::type_invariant]
    closed spec fn inv(&self) -> bool {
        &&& distinct_names(self.names())
        &&& forall|k: Seq<char>| #[trigger] self.node_to_idx@.contains_key(k) <==> self.names().contains(k)
        &&& forall|i: int| 0 <= i < self.names().len() ==> self.node_to_idx@[#[trigger] self.names()[i]] == i
        &&& match self.storage {
            EdgeStorage::Lists(lists) => {
                &&& lists@.len() == self.idx_to_node@.len()
                &&& total_edges(self.adj()) <= usize::MAX
                &&& forall|i: int, k: int| 0 <= i < lists@.len() && 0 <= k < lists@[i]@.len()
                    ==> (#[trigger] lists@[i]@[k]).0 < self.idx_to_node@.len()
            },
            EdgeStorage::Csr { offsets, edges } => {
                &&& offsets@.len() == self.idx_to_node@.len() + 1
                &&& offsets@[0] == 0
                &&& forall|i: int| 0 <= i < self.idx_to_node@.len() ==> #[trigger] offsets@[i] <= offsets@[i + 1]
                &&& offsets@[self.idx_to_node@.len() as int] == edges@.len()
                &&& forall|k: int| 0 <= k < edges@.len() ==> (#[trigger] edges@[k]).0 < self.idx_to_node@.len()
                &&& forall|i: int| 0 <= i < self.idx_to_node@.len() ==> sorted_by(
                    #[trigger] edges@.subrange(offsets@[i] as int, offsets@[i + 1] as int),
                    edge_order(self.names()),
                )
            },
        }
    }

    proof fn lemma_inv(&self)
        requires
            self.inv(),
        ensures
            graph_model_ok(self.names(), self.adj()),
            self.compacted() ==> forall|i: int| 0 <= i < self.adj().len()
                ==> sorted_by(#[trigger] self.adj()[i], edge_order(self.names())),
    {
        assert(self.idx_to_node.len() == self.idx_to_node@.len());
        match self.storage {
            EdgeStorage::Lists(lists) => {
                assert forall|i: int, k: int| 0 <= i < self.adj().len() && 0 <= k < self.adj()[i].len()
                    implies (#[trigger] self.adj()[i][k]).0 < self.names().len() by {
                    assert(self.adj()[i] == lists@[i]@);
                }
            },
            EdgeStorage::Csr { offsets, edges } => {
                lemma_csr_total(offsets@, edges@, self.idx_to_node@.len() as int);
                assert forall|i: int, k: int| 0 <= i < self.adj().len() && 0 <= k < self.adj()[i].len()
                    implies (#[trigger] self.adj()[i][k]).0 < self.names().len() by {
                    assert(offsets@[i] <= offsets@[i + 1]);
                    lemma_offsets_bounded(offsets@, edges@.len() as int, i);
                    assert(self.adj()[i][k] == edges@[offsets@[i] + k]);
                }
            },
        }
    }

    /// Every graph's names are distinct and its edges point at nodes; a
    /// compacted graph keeps each node's edges sorted by target name.
    pub fn model_facts(&self)
        ensures
            graph_model_ok(self.names(), self.adj()),
            self.compacted() ==> forall|i: int| 0 <= i < self.adj().len()
                ==> sorted_by(#[trigger] self.adj()[i], edge_order(self.names())),
    {
        proof {
            use_type_invariant(self);
            self.lemma_inv();
        }
    }

    /// An empty graph under construction.
    pub fn new() -> (g: AdjacencyList)
        ensures
            g.names() == Seq::<Seq<char>>::empty(),
            g.adj() == Seq::<Seq<(usize, FloatBits)>>::empty(),
            !g.compacted(),
    {
        let names: Vec<String> = Vec::new();
        let lists: Vec<Vec<(usize, FloatBits)>> = Vec::new();
        assert(str_views(names@) =~= Seq::<Seq<char>>::empty());
        let g = AdjacencyList { node_to_idx: OrderedMap::new(), idx_to_node: names, storage: EdgeStorage::Lists(lists) };
        assert(g.names() =~= Seq::<Seq<char>>::empty());
        assert(g.adj() =~= Seq::<Seq<(usize, FloatBits)>>::empty());
        g
    }

    /// The index of the node with the given name.
    pub fn node_index(&self, node_id: &str) -> (r: Option<usize>)
        ensures
            r is None <==> !self.names().contains(node_id@),
            r matches Some(i) ==> i < self.names().len() && self.names()[i as int] == node_id@,
    {
        proof {
            use_type_invariant(self);
        }
        match self.node_to_idx.get(node_id) {
            Some(i) => {
                proof {
                    let j = choose|j: int| 0 <= j < self.names().len() && self.names()[j] == node_id@;
                    assert(self.node_to_idx@[self.names()[j]] == j);
                }
                Some(*i)
            },
            None => None,
        }
    }

    /// Adds a node if absent and returns its index.  Adding a new node to a
    /// compacted graph is not allowed.
    pub fn add_node(&mut self, node_id: &str) -> (idx: usize)
        requires
            !old(self).compacted() || old(self).names().contains(node_id@),
        ensures
            old(self).names().contains(node_id@) ==> final(self).names() == old(self).names()
                && final(self).adj() == old(self).adj(),
            !old(self).names().contains(node_id@) ==> final(self).names() == old(self).names().push(node_id@)
                && final(self).adj() == old(self).adj().push(Seq::empty()),
            final(self).compacted() == old(self).compacted(),
            idx < final(self).names().len(),
            final(self).names()[idx as int] == node_id@,
    {
        proof {
            use_type_invariant(&*self);
        }
        match self.node_index(node_id) {
            Some(i) => i,
            None => {
                let idx = self.idx_to_node.len();
                let name = to_owned_string(node_id);
                let ghost old_names = self.names();
                let ghost old_adj = self.adj();
                let mut taken = AdjacencyList::new();
                std::mem::swap(&mut taken, self);
                proof {
                    use_type_invariant(&taken);
                }
                let AdjacencyList { node_to_idx: mut index, idx_to_node: mut names, storage } = taken;
                match storage {
                    EdgeStorage::Lists(mut lists) => {
                        lists.push(Vec::new());
                        names.push(name);
                        let ghost old_index = index@;
                        index.insert(to_owned_string(node_id), idx);
                        let ghost new_names = str_views(names@);
                        assert(new_names =~= old_names.push(node_id@));
                        assert(distinct_names(new_names));
                        assert forall|k: Seq<char>| #[trigger] index@.contains_key(k) <==> new_names.contains(k) by {
                            if old_names.contains(k) {
                                let j = choose|j: int| 0 <= j < old_names.len() && old_names[j] == k;
                                assert(new_names[j] == k);
                            }
                            if new_names.contains(k) && k != node_id@ {
                                let j = choose|j: int| 0 <= j < new_names.len() && new_names[j] == k;
                                assert(j < old_names.len());
                                assert(old_names[j] == k);
                            }
                            assert(new_names[idx as int] == node_id@);
                        }
                        assert forall|i: int| 0 <= i < new_names.len() implies index@[#[trigger] new_names[i]] == i by {
                            if i < old_names.len() {
                                assert(new_names[i] == old_names[i]);
                                assert(old_names.contains(old_names[i]));
                                assert(old_index[old_names[i]] == i);
                            }
                        }
                        assert forall|i: int, k: int| 0 <= i < lists@.len() && 0 <= k < lists@[i]@.len()
                            implies (#[trigger] lists@[i]@[k]).0 < names@.len() by {
                            if i < lists@.len() - 1 {
                                assert(lists@[i] == old(self).storage->Lists_0@[i]);
                            }
                        }
                        proof {
                            let new_adj = lists@.map_values(|l: Vec<(usize, FloatBits)>| l@);
                            assert(new_adj =~= old_adj.push(Seq::empty()));
                            lemma_total_edges_push_empty(old_adj);
                        }
                        *self = AdjacencyList { node_to_idx: index, idx_to_node: names, storage: EdgeStorage::Lists(lists) };
                        assert(self.adj() =~= old_adj.push(Seq::empty()));
                        idx
                    },
                    EdgeStorage::Csr { offsets, edges } => {
                        proof {
                            assert(false);
                        }
                        *self = AdjacencyList { node_to_idx: index, idx_to_node: names, storage: EdgeStorage::Csr { offsets, edges } };
                        idx
                    },
                }
            },
        }
    }

    /// The name of a node.
    pub fn node_name(&self, idx: usize) -> (s: &str)
        requires
            idx < self.names().len(),
        ensures
            s@ == self.names()[idx as int],
    {
        self.idx_to_node[idx].as_str()
    }

    /// Number of nodes.
    pub fn node_count(&self) -> (n: usize)
        ensures
            n == self.names().len(),
    {
        self.idx_to_node.len()
    }

    /// Whether the graph has been compacted.
    pub fn is_compacted(&self) -> (b: bool)
        ensures
            b == self.compacted(),
    {
        match &self.storage {
            EdgeStorage::Lists(_) => false,
            EdgeStorage::Csr { .. } => true,
        }
    }
}

proof fn lemma_offsets_bounded(offsets: Seq<usize>, total: int, i: int)
    requires
        offsets.len() >= 1,
        0 <= i < offsets.len() - 1,
        forall|j: int| 0 <= j < offsets.len() - 1 ==> #[trigger] offsets[j] <= offsets[j + 1],
        offsets[offsets.len() - 1] == total,
    ensures
        offsets[i + 1] <= total,
    decreases offsets.len() - 1 - i,
{
    if i + 1 < offsets.len() - 1 {
        lemma_offsets_bounded(offsets, total, i + 1);
    }
}


/// The names after adding a node: unchanged when present, else appended.
pub open spec fn with_name(names: Seq<Seq<char>>, name: Seq<char>) -> Seq<Seq<char>> {
    if names.contains(name) { names } else { names.push(name) }
}

/// The index of a name in a list of distinct names.
pub open spec fn name_index(names: Seq<Seq<char>>, name: Seq<char>) -> int {
    choose|i: int| 0 <= i < names.len() && names[i] == name
}

/// The edge lists extended with empty lists up to `n` nodes.
pub open spec fn pad_adj(adj: Seq<Seq<(usize, FloatBits)>>, n: int) -> Seq<Seq<(usize, FloatBits)>> {
    Seq::new(n as nat, |i: int| if i < adj.len() { adj[i] } else { Seq::empty() })
}

/// Total number of edges.
pub open spec fn total_edges(adj: Seq<Seq<(usize, FloatBits)>>) -> nat
    decreases adj.len(),
{
    if adj.len() == 0 { 0 } else { total_edges(adj.drop_last()) + adj.last().len() }
}

impl AdjacencyList {
    /// Adds a directed edge `from -> to` with the given weight, adding either
    /// endpoint that is absent.  The graph must not be compacted.
    pub fn add_edge(&mut self, from: &str, to: &str, weight: FloatBits)
        requires
            !old(self).compacted(),
            total_edges(old(self).adj()) < usize::MAX,
        ensures
            !final(self).compacted(),
            final(self).names() == with_name(with_name(old(self).names(), from@), to@),
            final(self).adj() == ({
                let n = final(self).names();
                let f = name_index(n, from@);
                let base = pad_adj(old(self).adj(), n.len() as int);
                base.update(f, base[f].push((name_index(n, to@) as usize, weight)))
            }),
    {
        proof {
            use_type_invariant(&*self);
            self.lemma_inv();
        }
        let ghost old_adj = self.adj();
        let from_idx = self.add_node(from);
        let to_idx = self.add_node(to);
        let ghost n = self.names();
        let ghost base = self.adj();
        proof {
            use_type_invariant(&*self);
            self.lemma_inv();
            assert(base =~= pad_adj(old_adj, n.len() as int));
            assert(name_index(n, from@) == from_idx) by {
                let k = name_index(n, from@);
                assert(n[from_idx as int] == from@);
            }
            assert(name_index(n, to@) == to_idx) by {
                assert(n[to_idx as int] == to@);
            }
            lemma_total_edges_pad(old_adj, n.len() as int);
        }
        let mut taken = AdjacencyList::new();
        std::mem::swap(&mut taken, self);
        proof {
            use_type_invariant(&taken);
        }
        let AdjacencyList { node_to_idx: index, idx_to_node: names, storage } = taken;
        match storage {
            EdgeStorage::Lists(mut lists) => {
                let mut l: Vec<(usize, FloatBits)> = Vec::new();
                let mut k: usize = 0;
                while k < lists[from_idx].len()
                    invariant
                        from_idx < lists@.len(),
                        k <= lists@[from_idx as int]@.len(),
                        l@ == lists@[from_idx as int]@.subrange(0, k as int),
                    decreases lists@[from_idx as int]@.len() - k,
                {
                    l.push(lists[from_idx][k]);
                    k = k + 1;
                    assert(l@ =~= lists@[from_idx as int]@.subrange(0, k as int));
                }
                assert(l@ =~= lists@[from_idx as int]@);
                l.push((to_idx, weight));
                let ghost before = lists@;
                lists.set(from_idx, l);
                proof {
                    let new_adj = lists@.map_values(|l: Vec<(usize, FloatBits)>| l@);
                    assert(new_adj =~= base.update(from_idx as int, base[from_idx as int].push((to_idx, weight))));
                    lemma_total_edges_grow(base, from_idx as int, (to_idx, weight));
                }
                assert forall|i: int, j: int| 0 <= i < lists@.len() && 0 <= j < lists@[i]@.len()
                    implies (#[trigger] lists@[i]@[j]).0 < names@.len() by {
                    if i != from_idx {
                        assert(lists@[i] == before[i]);
                    }
                }
                *self = AdjacencyList { node_to_idx: index, idx_to_node: names, storage: EdgeStorage::Lists(lists) };
                assert(self.adj() =~= base.update(from_idx as int, base[from_idx as int].push((to_idx, weight))));
            },
            EdgeStorage::Csr { offsets, edges } => {
                proof {
                    assert(false);
                }
                *self = AdjacencyList { node_to_idx: index, idx_to_node: names, storage: EdgeStorage::Csr { offsets, edges } };
            },
        }
    }

    /// The outgoing edges `(target, weight)` of a node, in stored order.
    pub fn neighbors_idx(&self, idx: usize) -> (r: &[(usize, FloatBits)])
        requires
            idx < self.names().len(),
        ensures
            r@ == self.adj()[idx as int],
    {
        proof {
            use_type_invariant(self);
        }
        match &self.storage {
            EdgeStorage::Lists(lists) => lists[idx].as_slice(),
            EdgeStorage::Csr { offsets, edges } => {
                proof {
                    assert(offsets@[idx as int] <= offsets@[idx + 1]);
                    lemma_offsets_bounded(offsets@, edges@.len() as int, idx as int);
                }
                let len = offsets.len();
                assert(idx + 1 < len);
                let a = offsets[idx];
                let b = offsets[idx + 1];
                &edges.as_slice()[a..b]
            },
        }
    }

    /// The outgoing edges of the node with the given name, if present.
    pub fn neighbors(&self, node_id: &str) -> (r: Option<&[(usize, FloatBits)]>)
        ensures
            r is None <==> !self.names().contains(node_id@),
            r matches Some(es) ==> es@ == self.adj()[name_index(self.names(), node_id@)],
    {
        proof {
            use_type_invariant(self);
            self.lemma_inv();
        }
        match self.node_index(node_id) {
            Some(i) => {
                assert(name_index(self.names(), node_id@) == i);
                Some(self.neighbors_idx(i))
            },
            None => None,
        }
    }

    /// The total number of edges.
    pub fn edge_count(&self) -> (n: usize)
        ensures
            n == total_edges(self.adj()),
    {
        proof {
            use_type_invariant(self);
        }
        match &self.storage {
            EdgeStorage::Lists(lists) => {
                let mut total: usize = 0;
                let mut i: usize = 0;
                while i < lists.len()
                    invariant
                        self.storage == EdgeStorage::Lists(*lists),
                        i <= lists@.len(),
                        total == total_edges(self.adj().subrange(0, i as int)),
                        total_edges(self.adj()) <= usize::MAX,
                        self.adj().len() == lists@.len(),
                    decreases lists.len() - i,
                {
                    assert(self.adj().subrange(0, i + 1).drop_last() =~= self.adj().subrange(0, i as int));
                    proof {
                        lemma_total_edges_prefix(self.adj(), i + 1);
                    }
                    total = total + lists[i].len();
                    i = i + 1;
                }
                assert(self.adj().subrange(0, i as int) =~= self.adj());
                total
            },
            EdgeStorage::Csr { offsets, edges } => {
                proof {
                    lemma_csr_total(offsets@, edges@, self.idx_to_node@.len() as int);
                    assert(self.adj() =~= Seq::new(
                        self.idx_to_node@.len() as nat,
                        |i: int| edges@.subrange(offsets@[i] as int, offsets@[i + 1] as int),
                    ));
                }
                edges.len()
            },
        }
    }

    /// Converts the graph to compressed-sparse-row form with each node's edges
    /// sorted by target name.  Idempotent.
    #[verifier::rlimit(60)]
    pub fn compact(&mut self)
        ensures
            final(self).compacted(),
            final(self).names() == old(self).names(),
            final(self).adj().len() == old(self).adj().len(),
            forall|i: int| 0 <= i < final(self).adj().len() ==> (#[trigger] final(self).adj()[i]).to_multiset()
                == old(self).adj()[i].to_multiset(),
            forall|i: int| 0 <= i < final(self).adj().len() ==> sorted_by(
                #[trigger] final(self).adj()[i],
                edge_order(final(self).names()),
            ),
            old(self).compacted() ==> final(self).adj() == old(self).adj(),
            total_edges(final(self).adj()) == total_edges(old(self).adj()),
    {
        proof {
            use_type_invariant(&*self);
            self.lemma_inv();
        }
        if self.is_compacted() {
            return;
        }
        let ghost old_adj = self.adj();
        let ghost nv = self.names();
        let mut taken = AdjacencyList::new();
        std::mem::swap(&mut taken, self);
        proof {
            use_type_invariant(&taken);
        }
        let AdjacencyList { node_to_idx: index, idx_to_node: names, storage } = taken;
        match storage {
            EdgeStorage::Lists(lists) => {
                let n = lists.len();
                let mut offsets: Vec<usize> = Vec::new();
                let mut edges: Vec<(usize, FloatBits)> = Vec::new();
                offsets.push(0);
                let mut i: usize = 0;
                while i < n
                    invariant
                        n == lists@.len(),
                        n == names@.len(),
                        nv == str_views(names@),
                        old_adj == lists@.map_values(|l: Vec<(usize, FloatBits)>| l@),
                        i <= n,
                        offsets@.len() == i + 1,
                        offsets@[0] == 0,
                        offsets@[i as int] == edges@.len(),
                        forall|j: int| 0 <= j < i ==> #[trigger] offsets@[j] <= offsets@[j + 1],
                        forall|k: int| 0 <= k < edges@.len() ==> (#[trigger] edges@[k]).0 < n,
                        forall|j: int| 0 <= j < i ==> sorted_by(
                            #[trigger] edges@.subrange(offsets@[j] as int, offsets@[j + 1] as int),
                            edge_order(nv),
                        ),
                        forall|j: int| 0 <= j < i ==> (#[trigger] edges@.subrange(offsets@[j] as int, offsets@[j + 1] as int)).to_multiset()
                            == old_adj[j].to_multiset(),
                        forall|a: int, b: int| 0 <= a < lists@.len() && 0 <= b < lists@[a]@.len()
                            ==> (#[trigger] lists@[a]@[b]).0 < n,
                    decreases n - i,
                {
                    let mut tmp = copy_edges(lists[i].as_slice());
                    sort_edges_by_name(&mut tmp, &names);
                    let ghost before = edges@;
                    let ghost offs = offsets@;
                    extend_edges(&mut edges, &tmp);
                    offsets.push(edges.len());
                    proof {
                        assert forall|j: int| 0 <= j < i + 1 implies (#[trigger] edges@.subrange(offsets@[j] as int, offsets@[j + 1] as int))
                            == (if j < i { before.subrange(offs[j] as int, offs[j + 1] as int) } else { tmp@ }) by {
                            if j < i {
                                lemma_offsets_bounded(offs, before.len() as int, j);
                                assert(edges@.subrange(offsets@[j] as int, offsets@[j + 1] as int)
                                    =~= before.subrange(offs[j] as int, offs[j + 1] as int));
                            } else {
                                assert(edges@.subrange(offsets@[j] as int, offsets@[j + 1] as int) =~= tmp@);
                            }
                        }
                        assert forall|k3: int| 0 <= k3 < edges@.len() implies (#[trigger] edges@[k3]).0 < n by {
                            if k3 >= before.len() {
                                assert(edges@[k3] == tmp@[k3 - before.len()]);
                            }
                        }
                        assert(old_adj[i as int] == lists@[i as int]@);
                    }
                    i = i + 1;
                }
                *self = AdjacencyList { node_to_idx: index, idx_to_node: names, storage: EdgeStorage::Csr { offsets, edges } };
                proof {
                    lemma_total_edges_same_multisets(self.adj(), old_adj);
                }
            },
            EdgeStorage::Csr { offsets, edges } => {
                proof {
                    assert(false);
                }
                *self = AdjacencyList { node_to_idx: index, idx_to_node: names, storage: EdgeStorage::Csr { offsets, edges } };
            },
        }
    }
}

fn copy_edges(src: &[(usize, FloatBits)]) -> (r: Vec<(usize, FloatBits)>)
    ensures
        r@ == src@,
{
    let mut r: Vec<(usize, FloatBits)> = Vec::new();
    let mut k: usize = 0;
    while k < src.len()
        invariant
            k <= src@.len(),
            r@ == src@.subrange(0, k as int),
        decreases src.len() - k,
    {
        r.push(src[k]);
        k = k + 1;
        assert(r@ =~= src@.subrange(0, k as int));
    }
    assert(r@ =~= src@);
    r
}

fn extend_edges(dst: &mut Vec<(usize, FloatBits)>, src: &Vec<(usize, FloatBits)>)
    ensures
        final(dst)@ == old(dst)@ + src@,
{
    let mut k: usize = 0;
    while k < src.len()
        invariant
            k <= src@.len(),
            dst@ == old(dst)@ + src@.subrange(0, k as int),
        decreases src.len() - k,
    {
        dst.push(src[k]);
        k = k + 1;
        assert(dst@ =~= old(dst)@ + src@.subrange(0, k as int));
    }
    assert(src@.subrange(0, k as int) =~= src@);
}

proof fn lemma_total_edges_prefix(adj: Seq<Seq<(usize, FloatBits)>>, k: int)
    requires
        0 <= k <= adj.len(),
    ensures
        total_edges(adj.subrange(0, k)) <= total_edges(adj),
    decreases adj.len() - k,
{
    if k < adj.len() {
        lemma_total_edges_prefix(adj, k + 1);
        assert(adj.subrange(0, k + 1).drop_last() =~= adj.subrange(0, k));
    } else {
        assert(adj.subrange(0, k) =~= adj);
    }
}

proof fn lemma_total_edges_push_empty(adj: Seq<Seq<(usize, FloatBits)>>)
    ensures
        total_edges(adj.push(Seq::empty())) == total_edges(adj),
{
    assert(adj.push(Seq::empty()).drop_last() =~= adj);
}

proof fn lemma_total_edges_pad(adj: Seq<Seq<(usize, FloatBits)>>, n: int)
    requires
        adj.len() <= n,
    ensures
        total_edges(pad_adj(adj, n)) == total_edges(adj),
    decreases n - adj.len(),
{
    if n == adj.len() {
        assert(pad_adj(adj, n) =~= adj);
    } else {
        lemma_total_edges_pad(adj, n - 1);
        assert(pad_adj(adj, n).drop_last() =~= pad_adj(adj, n - 1));
    }
}

proof fn lemma_total_edges_grow(adj: Seq<Seq<(usize, FloatBits)>>, f: int, e: (usize, FloatBits))
    requires
        0 <= f < adj.len(),
    ensures
        total_edges(adj.update(f, adj[f].push(e))) == total_edges(adj) + 1,
    decreases adj.len(),
{
    let a2 = adj.update(f, adj[f].push(e));
    if f == adj.len() - 1 {
        assert(a2.drop_last() =~= adj.drop_last());
    } else {
        lemma_total_edges_grow(adj.drop_last(), f, e);
        assert(a2.drop_last() =~= adj.drop_last().update(f, adj.drop_last()[f].push(e)));
    }
}

proof fn lemma_total_edges_same_multisets(a: Seq<Seq<(usize, FloatBits)>>, b: Seq<Seq<(usize, FloatBits)>>)
    requires
        a.len() == b.len(),
        forall|i: int| 0 <= i < a.len() ==> (#[trigger] a[i]).to_multiset() == b[i].to_multiset(),
    ensures
        total_edges(a) == total_edges(b),
    decreases a.len(),
{
    broadcast use vstd::seq_lib::group_to_multiset_ensures;
    if a.len() > 0 {
        lemma_total_edges_same_multisets(a.drop_last(), b.drop_last());
        assert(a.last().to_multiset() == b.last().to_multiset());
        assert(a.last().len() == a.last().to_multiset().len());
        assert(b.last().len() == b.last().to_multiset().len());
    }
}

proof fn lemma_csr_total(offsets: Seq<usize>, edges: Seq<(usize, FloatBits)>, n: int)
    requires
        n >= 0,
        offsets.len() == n + 1,
        offsets[0] == 0,
        forall|i: int| 0 <= i < n ==> #[trigger] offsets[i] <= offsets[i + 1],
        offsets[n] == edges.len(),
    ensures
        total_edges(Seq::new(n as nat, |i: int| edges.subrange(offsets[i] as int, offsets[i + 1] as int)))
            == edges.len(),
{
    lemma_csr_total_prefix(offsets, edges, n, n);
}

proof fn lemma_csr_total_prefix(offsets: Seq<usize>, edges: Seq<(usize, FloatBits)>, n: int, m: int)
    requires
        0 <= m <= n,
        offsets.len() == n + 1,
        offsets[0] == 0,
        forall|i: int| 0 <= i < n ==> #[trigger] offsets[i] <= offsets[i + 1],
        offsets[n] == edges.len(),
    ensures
        total_edges(Seq::new(m as nat, |i: int| edges.subrange(offsets[i] as int, offsets[i + 1] as int)))
            == offsets[m],
    decreases m,
{
    if m > 0 {
        lemma_csr_total_prefix(offsets, edges, n, m - 1);
        let s = Seq::new(m as nat, |i: int| edges.subrange(offsets[i] as int, offsets[i + 1] as int));
        assert(s.drop_last() =~= Seq::new((m - 1) as nat, |i: int| edges.subrange(offsets[i] as int, offsets[i + 1] as int)));
        lemma_offsets_bounded(offsets, edges.len() as int, m - 1);
    }
}


/// The successors of node `i`, ordered by name (each appears as often as it
/// has edges from `i`).
pub open spec fn succ_of(names: Seq<Seq<char>>, adj: Seq<Seq<(usize, FloatBits)>>, i: int) -> Seq<usize> {
    edge_targets(adj[i]).sort_by(name_order(names))
}

impl AdjacencyList {
    /// The successors of node `i` in traversal order (by name).
    pub open spec fn succ(&self, i: int) -> Seq<usize> {
        succ_of(self.names(), self.adj(), i)
    }

    /// The successors of a node, ordered by name.
    pub fn sorted_successors(&self, idx: usize) -> (r: Vec<usize>)
        requires
            idx < self.names().len(),
        ensures
            r@ == self.succ(idx as int),
            forall|k: int| 0 <= k < r@.len() ==> #[trigger] r@[k] < self.names().len(),
    {
        proof {
            use_type_invariant(self);
            self.lemma_inv();
        }
        let es = self.neighbors_idx(idx);
        let mut t: Vec<usize> = Vec::new();
        let mut k: usize = 0;
        while k < es.len()
            invariant
                es@ == self.adj()[idx as int],
                graph_model_ok(self.names(), self.adj()),
                idx < self.names().len(),
                k <= es@.len(),
                t@ == edge_targets(es@.subrange(0, k as int)),
            decreases es.len() - k,
        {
            t.push(es[k].0);
            k = k + 1;
            assert(t@ =~= edge_targets(es@.subrange(0, k as int)));
        }
        assert(es@.subrange(0, k as int) =~= es@);
        let ghost orig = t@;
        assert forall|j: int| 0 <= j < t@.len() implies #[trigger] t@[j] < self.idx_to_node@.len() by {
            assert(t@[j] == self.adj()[idx as int][j].0);
        }
        sort_indices_by_name(&mut t, &self.idx_to_node);
        proof {
            let nv = self.names();
            lemma_name_order_total(nv);
            orig.lemma_sort_by_ensures(name_order(nv));
            vstd::seq_lib::lemma_sorted_unique(t@, orig.sort_by(name_order(nv)), name_order(nv));
        }
        t
    }
}


impl AdjacencyList {
    /// Sorts node indices by node name.
    pub fn sort_node_indices(&self, v: &mut Vec<usize>)
        requires
            forall|k: int| 0 <= k < old(v)@.len() ==> #[trigger] old(v)@[k] < self.names().len(),
        ensures
            final(v)@.to_multiset() == old(v)@.to_multiset(),
            sorted_by(final(v)@, name_order(self.names())),
            forall|k: int| 0 <= k < final(v)@.len() ==> #[trigger] final(v)@[k] < self.names().len(),
    {
        sort_indices_by_name(v, &self.idx_to_node);
    }
}

impl Default for AdjacencyList {
    fn default() -> (g: Self)
        ensures
            g.names() == Seq::<Seq<char>>::empty(),
            g.adj() == Seq::<Seq<(usize, FloatBits)>>::empty(),
            !g.compacted(),
    {
        AdjacencyList::new()
    }
}

// ---------------------------------------------------------------------------
// Paths, subgraph views, queries and statistics
// ---------------------------------------------------------------------------

/// A path: node identifiers, the identifiers of the edges between them, and
/// the total weight (the bits of an `f64`).
#[derive(Debug)]
pub struct GraphPath {
    pub nodes: Vec<DeterministicId<NodeDomain>>,
    pub edges: Vec<DeterministicId<EdgeDomain>>,
    pub total_weight: FloatBits,
}

impl GraphPath {
    /// The path without nodes or edges, of weight zero.
    pub fn empty() -> (p: Self)
        ensures
            p.nodes@.len() == 0,
            p.edges@.len() == 0,
            p.total_weight == FloatBits(0),
    {
        GraphPath { nodes: Vec::new(), edges: Vec::new(), total_weight: FloatBits(0) }
    }

    /// A path from its parts.  When both lists are non-empty there must be
    /// exactly one edge fewer than nodes.
    pub fn new(nodes: Vec<DeterministicId<NodeDomain>>, edges: Vec<DeterministicId<EdgeDomain>>,
        total_weight: FloatBits) -> (r: FoundationResult<Self>)
        ensures
            r is Ok <==> nodes@.len() == 0 || edges@.len() == 0 || edges@.len() + 1 == nodes@.len(),
            r matches Ok(p) ==> p.nodes@ == nodes@ && p.edges@ == edges@ && p.total_weight == total_weight,
            r matches Err(e) ==> e is ValidationFailed && e.message() == "edges count must be nodes count - 1"@,
    {
        if nodes.len() > 0 && edges.len() > 0 && edges.len() != nodes.len() - 1 {
            return Err(FoundationError::ValidationFailed(to_owned_string("edges count must be nodes count - 1")));
        }
        Ok(GraphPath { nodes, edges, total_weight })
    }

    /// The number of edges.
    pub fn length(&self) -> (n: usize)
        ensures
            n == self.edges@.len(),
    {
        self.edges.len()
    }

    /// Whether the path has no node.
    pub fn is_empty(&self) -> (b: bool)
        ensures
            b == (self.nodes@.len() == 0),
    {
        self.nodes.len() == 0
    }
}

/// The identifier texts of a list of identifiers.
pub open spec fn ids_view<D: crate::id::DomainTag>(ids: Seq<DeterministicId<D>>) -> Seq<Seq<char>> {
    ids.map_values(|d: DeterministicId<D>| d@)
}

/// Appends `id` unless an equal identifier is present.
fn push_unique<D: crate::id::DomainTag>(ids: &mut Vec<DeterministicId<D>>, id: DeterministicId<D>)
    ensures
        ids_view(old(ids)@).contains(id@) ==> final(ids)@ == old(ids)@,
        !ids_view(old(ids)@).contains(id@) ==> final(ids)@ == old(ids)@.push(id),
{
    let mut i: usize = 0;
    while i < ids.len()
        invariant
            i <= ids@.len(),
            forall|j: int| 0 <= j < i ==> ids@[j]@ != id@,
        decreases ids.len() - i,
    {
        if ids[i] == id {
            assert(ids_view(ids@)[i as int] == id@);
            return;
        }
        i = i + 1;
    }
    proof {
        if ids_view(ids@).contains(id@) {
            let j = choose|j: int| 0 <= j < ids@.len() && ids_view(ids@)[j] == id@;
            assert(ids@[j]@ == id@);
        }
    }
    ids.push(id);
}

/// A named subset of a graph's nodes and edges, without repetitions.
#[derive(Debug)]
pub struct SubgraphView {
    pub graph_id: DeterministicId<GraphDomain>,
    pub node_ids: Vec<DeterministicId<NodeDomain>>,
    pub edge_ids: Vec<DeterministicId<EdgeDomain>>,
    pub label: String,
}

impl SubgraphView {
    /// An empty view of the graph.
    pub fn new(graph_id: DeterministicId<GraphDomain>, label: &str) -> (v: Self)
        ensures
            v.graph_id == graph_id,
            v.node_ids@.len() == 0,
            v.edge_ids@.len() == 0,
            v.label@ == label@,
    {
        SubgraphView { graph_id, node_ids: Vec::new(), edge_ids: Vec::new(), label: to_owned_string(label) }
    }

    /// Adds a node unless it is already in the view.
    pub fn add_node(&mut self, id: DeterministicId<NodeDomain>)
        ensures
            ids_view(old(self).node_ids@).contains(id@) ==> final(self).node_ids@ == old(self).node_ids@,
            !ids_view(old(self).node_ids@).contains(id@) ==> final(self).node_ids@ == old(self).node_ids@.push(id),
            final(self).edge_ids == old(self).edge_ids,
            final(self).graph_id == old(self).graph_id,
            final(self).label == old(self).label,
    {
        push_unique(&mut self.node_ids, id);
    }

    /// Adds an edge unless it is already in the view.
    pub fn add_edge(&mut self, id: DeterministicId<EdgeDomain>)
        ensures
            ids_view(old(self).edge_ids@).contains(id@) ==> final(self).edge_ids@ == old(self).edge_ids@,
            !ids_view(old(self).edge_ids@).contains(id@) ==> final(self).edge_ids@ == old(self).edge_ids@.push(id),
            final(self).node_ids == old(self).node_ids,
            final(self).graph_id == old(self).graph_id,
            final(self).label == old(self).label,
    {
        push_unique(&mut self.edge_ids, id);
    }
}

/// Adding to a view never creates a repetition: if the identifiers of a
/// list are distinct before an insertion, they are distinct after it.
pub proof fn lemma_view_stays_distinct<D: crate::id::DomainTag>(before: Seq<DeterministicId<D>>,
    after: Seq<DeterministicId<D>>, id: DeterministicId<D>)
    requires
        ids_view(before).no_duplicates(),
        ids_view(before).contains(id@) ==> after == before,
        !ids_view(before).contains(id@) ==> after == before.push(id),
    ensures
        ids_view(after).no_duplicates(),
{
    if !ids_view(before).contains(id@) {
        assert(ids_view(after) =~= ids_view(before).push(id@));
        assert forall|a: int, b: int| 0 <= a < b < ids_view(after).len()
            implies ids_view(after)[a] != ids_view(after)[b] by {
            if b == ids_view(before).len() {
                assert(ids_view(before)[a] == ids_view(after)[a]);
            }
        }
    }
}

/// Filters for graph traversals; the weight bounds are the bits of `f64`s.
#[derive(Debug)]
pub struct GraphQuery {
    pub label_filter: Option<String>,
    pub relation_filter: Option<String>,
    pub max_depth: Option<usize>,
    pub min_weight: Option<FloatBits>,
    pub max_weight: Option<FloatBits>,
    pub limit: Option<usize>,
}

impl GraphQuery {
    /// A query without filters.
    pub fn new() -> (q: Self)
        ensures
            q.label_filter is None,
            q.relation_filter is None,
            q.max_depth is None,
            q.min_weight is None,
            q.max_weight is None,
            q.limit is None,
    {
        GraphQuery { label_filter: None, relation_filter: None, max_depth: None, min_weight: None, max_weight: None,
            limit: None }
    }

    /// The query restricted to nodes with the given label.
    pub fn with_label(self, label: &str) -> (q: Self)
        ensures
            q.label_filter matches Some(l) && l@ == label@,
            q.relation_filter == self.relation_filter,
            q.max_depth == self.max_depth,
            q.min_weight == self.min_weight,
            q.max_weight == self.max_weight,
            q.limit == self.limit,
    {
        let mut q = self;
        q.label_filter = Some(to_owned_string(label));
        q
    }

    /// The query restricted to edges with the given relation.
    pub fn with_relation(self, relation: &str) -> (q: Self)
        ensures
            q.relation_filter matches Some(r) && r@ == relation@,
            q.label_filter == self.label_filter,
            q.max_depth == self.max_depth,
            q.min_weight == self.min_weight,
            q.max_weight == self.max_weight,
            q.limit == self.limit,
    {
        let mut q = self;
        q.relation_filter = Some(to_owned_string(relation));
        q
    }

    /// The query limited to the given depth.
    pub fn with_max_depth(self, depth: usize) -> (q: Self)
        ensures
            q.max_depth == Some(depth),
            q.label_filter == self.label_filter,
            q.relation_filter == self.relation_filter,
            q.min_weight == self.min_weight,
            q.max_weight == self.max_weight,
            q.limit == self.limit,
    {
        let mut q = self;
        q.max_depth = Some(depth);
        q
    }

    /// The query limited to the given number of results.
    pub fn with_limit(self, limit: usize) -> (q: Self)
        ensures
            q.limit == Some(limit),
            q.label_filter == self.label_filter,
            q.relation_filter == self.relation_filter,
            q.max_depth == self.max_depth,
            q.min_weight == self.min_weight,
            q.max_weight == self.max_weight,
    {
        let mut q = self;
        q.limit = Some(limit);
        q
    }
}

impl Default for GraphQuery {
    fn default() -> (q: Self)
        ensures
            q.label_filter is None,
            q.relation_filter is None,
            q.max_depth is None,
            q.min_weight is None,
            q.max_weight is None,
            q.limit is None,
    {
        GraphQuery::new()
    }
}

/// Summary statistics of a graph; the average degree and density are the
/// bits of `f64`s.
#[derive(Debug, Clone, Copy)]
pub struct GraphStats {
    pub node_count: usize,
    pub edge_count: usize,
    pub avg_degree: FloatBits,
    pub density: FloatBits,
    pub is_connected: bool,
}

} // verus!
