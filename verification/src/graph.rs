//! Deterministic graph algorithms over [`AdjacencyList`]: breadth- and
//! depth-first search, topological sort, cycle detection, connected
//! components, degrees and path reconstruction.
//!
//! Every traversal visits a node's successors in name order, so the same
//! graph always yields the same output.

use vstd::prelude::*;
use vstd::relations::sorted_by;
use crate::errors::{FoundationError, FoundationResult, is_validation_failed};
use crate::graph_types::{AdjacencyList, graph_model_ok, name_index, succ_of, edge_targets,
    name_order, name_leq, lemma_name_order_total};
use crate::text::{to_owned_string, concat3, str_equal, string_seq_view};
use crate::ordered_map::OrderedMap;

verus! {

broadcast use vstd::seq_lib::group_to_multiset_ensures, vstd::multiset::group_multiset_axioms;

/// A sequence without repeats whose elements are below `n` has at most `n`
/// elements.
pub proof fn lemma_distinct_bounded(s: Seq<usize>, n: nat)
    requires
        s.no_duplicates(),
        forall|i: int| 0 <= i < s.len() ==> #[trigger] s[i] < n,
    ensures
        s.len() <= n,
{
    let set = s.to_set();
    s.unique_seq_to_set();
    let range = Set::new(|x: usize| x < n);
    assert(set.subset_of(range));
    lemma_usize_range_finite(n);
    vstd::set_lib::lemma_len_subset(set, range);
}

proof fn lemma_usize_range_finite(n: nat)
    ensures
        Set::new(|x: usize| x < n).finite(),
        Set::new(|x: usize| x < n).len() <= n,
    decreases n,
{
    if n == 0 {
        assert(Set::new(|x: usize| x < n) =~= Set::<usize>::empty());
    } else {
        lemma_usize_range_finite((n - 1) as nat);
        let a = Set::new(|x: usize| x < (n - 1) as nat);
        let b = Set::new(|x: usize| x < n);
        if n - 1 <= usize::MAX {
            assert(b =~= a.insert((n - 1) as usize));
        } else {
            assert(b =~= a);
        }
    }
}

/// The message of the error for a source node missing from the graph.
pub open spec fn missing_source_msg(source: Seq<char>) -> Seq<char> {
    "source node '"@ + source + "' not in graph"@
}

fn missing_source(source: &str) -> (e: FoundationError)
    ensures
        e matches FoundationError::ValidationFailed(m) && m@ == missing_source_msg(source@),
{
    FoundationError::ValidationFailed(concat3("source node '", source, "' not in graph"))
}

/// The names of a sequence of nodes.
pub open spec fn names_of(g: &AdjacencyList, order: Seq<usize>) -> Seq<Seq<char>> {
    order.map_values(|i: usize| g.names()[i as int])
}

/// The views of a vector of strings.
pub open spec fn string_views(v: Seq<String>) -> Seq<Seq<char>> {
    v.map_values(|s: String| s@)
}

fn node_names(g: &AdjacencyList, order: &Vec<usize>) -> (r: Vec<String>)
    requires
        forall|i: int| 0 <= i < order@.len() ==> #[trigger] order@[i] < g.names().len(),
    ensures
        string_views(r@) == names_of(g, order@),
{
    let mut r: Vec<String> = Vec::new();
    let mut k: usize = 0;
    while k < order.len()
        invariant
            forall|i: int| 0 <= i < order@.len() ==> #[trigger] order@[i] < g.names().len(),
            k <= order@.len(),
            r@.len() == k,
            string_views(r@) == names_of(g, order@.subrange(0, k as int)),
        decreases order.len() - k,
    {
        let s = to_owned_string(g.node_name(order[k]));
        let ghost before = r@;
        r.push(s);
        proof {
            assert(r@ == before.push(s));
            assert(string_views(r@) =~= names_of(g, order@.subrange(0, k + 1))) by {
                assert forall|i: int| 0 <= i < k + 1 implies string_views(r@)[i] == names_of(g, order@.subrange(0, k + 1))[i] by {
                    if i < k {
                        assert(string_views(r@)[i] == string_views(before)[i]);
                        assert(names_of(g, order@.subrange(0, k + 1))[i] == names_of(g, order@.subrange(0, k as int))[i]);
                    }
                }
            }
        }
        k = k + 1;
    }
    assert(order@.subrange(0, k as int) =~= order@);
    r
}

// ---------------------------------------------------------------------------
// Breadth-first search
// ---------------------------------------------------------------------------

/// Appends, in order, the elements of `xs` not already present.
pub open spec fn append_new(order: Seq<usize>, xs: Seq<usize>) -> Seq<usize>
    decreases xs.len(),
{
    if xs.len() == 0 {
        order
    } else {
        append_new(if order.contains(xs[0]) { order } else { order.push(xs[0]) }, xs.drop_first())
    }
}

/// The BFS visiting order after `k` nodes have been dequeued: the source,
/// then the new successors of each visited node in turn.
pub open spec fn bfs_state(g: &AdjacencyList, src: usize, k: nat) -> Seq<usize>
    decreases k,
{
    if k == 0 {
        seq![src]
    } else {
        let prev = bfs_state(g, src, (k - 1) as nat);
        if k - 1 < prev.len() {
            append_new(prev, g.succ(prev[k - 1] as int))
        } else {
            prev
        }
    }
}

/// The complete BFS order from `src`.
pub open spec fn bfs_order(g: &AdjacencyList, src: usize) -> Seq<usize> {
    bfs_state(g, src, g.names().len())
}

proof fn lemma_bfs_stable(g: &AdjacencyList, src: usize, k: nat, m: nat)
    requires
        k <= m,
        k >= bfs_state(g, src, k).len(),
    ensures
        bfs_state(g, src, m) == bfs_state(g, src, k),
    decreases m - k,
{
    if k < m {
        lemma_bfs_stable(g, src, k, (m - 1) as nat);
    }
}

/// A listing of the nodes `s` reaches: `s` first, each reached node exactly
/// once, and every later node entered by an edge from an earlier one.
pub open spec fn lists_reachable(g: &AdjacencyList, s: usize, ord: Seq<usize>) -> bool {
    &&& ord.len() >= 1
    &&& ord[0] == s
    &&& ord.no_duplicates()
    &&& forall|i: int| 0 <= i < ord.len() ==> #[trigger] ord[i] < g.names().len()
    &&& forall|x: usize| x < g.names().len() ==> (#[trigger] ord.contains(x) <==> reaches(g, s, x))
    &&& forall|i: int| 0 < i < ord.len() ==> exists|j: int| 0 <= j < i && has_edge(g, ord[j], #[trigger] ord[i])
}

/// A walk of at most `d` edges leads from `s` to `x`.
pub open spec fn walk_within(g: &AdjacencyList, s: usize, x: usize, d: nat) -> bool {
    exists|w: Seq<usize>| #[trigger] is_walk(g, w) && w[0] == s && w[w.len() - 1] == x && w.len() <= d + 1
}

/// `d` is the length of a shortest walk from `s` to `x`.
pub open spec fn is_distance(g: &AdjacencyList, s: usize, x: usize, d: nat) -> bool {
    &&& walk_within(g, s, x, d)
    &&& forall|e: nat| #[trigger] walk_within(g, s, x, e) ==> d <= e
}

/// The listed nodes come in non-decreasing distance from `s`.
pub open spec fn in_distance_order(g: &AdjacencyList, s: usize, ord: Seq<usize>) -> bool {
    exists|lev: Seq<nat>| {
        &&& #[trigger] lev.len() == ord.len()
        &&& forall|i: int| 0 <= i < ord.len() ==> is_distance(g, s, ord[i], #[trigger] lev[i])
        &&& forall|i: int, j: int| 0 <= i < j < ord.len() ==> #[trigger] lev[i] <= #[trigger] lev[j]
    }
}

/// The level bookkeeping of the breadth-first search: each node one level
/// past its parent, levels non-decreasing, at most one level between the
/// node being expanded and the last one, and every successor of an
/// expanded node listed at most one level past it.
#[verifier::opaque]
spec fn bfs_levels(g: &AdjacencyList, order: Seq<usize>, par: Seq<int>, lev: Seq<nat>, head: int, n: nat) -> bool {
    &&& lev.len() == order.len()
    &&& par.len() == order.len()
    &&& lev[0] == 0
    &&& forall|i: int| 0 < i < order.len() ==> #[trigger] lev[i] == lev[par[i]] + 1
    &&& forall|i: int, j: int| 0 <= i < j < order.len() ==> #[trigger] lev[i] <= #[trigger] lev[j]
    &&& forall|j: int| head <= j < order.len() ==> #[trigger] lev[j] <= lev[head] + 1
    &&& forall|i: int, y: usize| 0 <= i < head && y < n && #[trigger] has_edge(g, order[i], y)
        ==> exists|j: int| 0 <= j < order.len() && order[j] == y && #[trigger] lev[j] <= lev[i] + 1
}

/// The first `t` successors of the node being expanded are listed at most
/// one level past it.
#[verifier::opaque]
spec fn bfs_expanded(order: Seq<usize>, lev: Seq<nat>, head: int, nb: Seq<usize>, t: int) -> bool {
    forall|k: int| #![trigger nb[k]] 0 <= k < t ==> exists|j: int| 0 <= j < order.len() && order[j] == nb[k]
        && #[trigger] lev[j] <= lev[head] + 1
}

proof fn lemma_bfs_levels_push(g: &AdjacencyList, before: Seq<usize>, x: usize, pb: Seq<int>, lb: Seq<nat>,
    head: int, nb: Seq<usize>, t: int, n: nat)
    requires
        bfs_levels(g, before, pb, lb, head, n),
        bfs_expanded(before, lb, head, nb, t),
        0 <= head < before.len(),
        forall|i: int| 0 < i < before.len() ==> 0 <= #[trigger] pb[i] < i,
        0 <= t < nb.len(),
        nb[t] == x,
    ensures
        bfs_levels(g, before.push(x), pb.push(head), lb.push((lb[head] + 1) as nat), head, n),
        bfs_expanded(before.push(x), lb.push((lb[head] + 1) as nat), head, nb, t + 1),
{
    reveal(bfs_levels);
    reveal(bfs_expanded);
    let order = before.push(x);
    let par = pb.push(head);
    let lev = lb.push((lb[head] + 1) as nat);
    let last = order.len() - 1;
    assert(lb[before.len() - 1] <= lb[head] + 1);
    assert forall|i: int| 0 < i < order.len() implies #[trigger] lev[i] == lev[par[i]] + 1 by {
        if i < before.len() {
            assert(lev[i] == lb[i] && par[i] == pb[i] && lev[pb[i]] == lb[pb[i]]);
        }
    }
    assert forall|i: int, j: int| 0 <= i < j < order.len() implies #[trigger] lev[i] <= #[trigger] lev[j] by {
        if j < before.len() {
            assert(lev[i] == lb[i] && lev[j] == lb[j]);
        } else {
            assert(lev[i] == lb[i]);
            if i >= head {
                assert(lb[i] <= lb[head] + 1);
            } else {
                assert(lb[i] <= lb[head]);
            }
        }
    }
    assert forall|j: int| head <= j < order.len() implies #[trigger] lev[j] <= lev[head] + 1 by {
        if j < before.len() {
            assert(lev[j] == lb[j]);
        }
    }
    assert forall|i: int, y: usize| 0 <= i < head && y < n && #[trigger] has_edge(g, order[i], y)
        implies exists|j: int| 0 <= j < order.len() && order[j] == y && #[trigger] lev[j] <= lev[i] + 1 by {
        assert(order[i] == before[i]);
        assert(has_edge(g, before[i], y));
        let j = choose|j: int| 0 <= j < before.len() && before[j] == y && #[trigger] lb[j] <= lb[i] + 1;
        assert(order[j] == y && lev[j] == lb[j]);
    }
    assert forall|k: int| #![trigger nb[k]] 0 <= k < t + 1 implies exists|j: int| 0 <= j < order.len() && order[j] == nb[k]
        && #[trigger] lev[j] <= lev[head] + 1 by {
        if k < t {
            let j = choose|j: int| 0 <= j < before.len() && before[j] == nb[k] && #[trigger] lb[j] <= lb[head] + 1;
            assert(order[j] == nb[k] && lev[j] == lb[j]);
        } else {
            assert(order[last] == nb[k] && lev[last] == lev[head] + 1);
        }
    }
}

proof fn lemma_bfs_levels_seen(g: &AdjacencyList, order: Seq<usize>, par: Seq<int>, lev: Seq<nat>,
    head: int, nb: Seq<usize>, t: int, n: nat)
    requires
        bfs_levels(g, order, par, lev, head, n),
        bfs_expanded(order, lev, head, nb, t),
        0 <= head < order.len(),
        0 <= t < nb.len(),
        order.contains(nb[t]),
    ensures
        bfs_expanded(order, lev, head, nb, t + 1),
{
    reveal(bfs_levels);
    reveal(bfs_expanded);
    let j = choose|j: int| 0 <= j < order.len() && order[j] == nb[t];
    if j < head {
        assert(lev[j] <= lev[head]);
    } else if j > head {
        assert(lev[j] <= lev[head] + 1);
    }
    assert forall|k: int| #![trigger nb[k]] 0 <= k < t + 1 implies exists|j2: int| 0 <= j2 < order.len() && order[j2] == nb[k]
        && #[trigger] lev[j2] <= lev[head] + 1 by {
        if k == t {
            assert(lev[j] <= lev[head] + 1);
        }
    }
}

proof fn lemma_bfs_levels_advance(g: &AdjacencyList, order: Seq<usize>, par: Seq<int>, lev: Seq<nat>,
    head: int, nb: Seq<usize>, n: nat)
    requires
        bfs_levels(g, order, par, lev, head, n),
        bfs_expanded(order, lev, head, nb, nb.len() as int),
        0 <= head < order.len(),
        forall|y: usize| #[trigger] has_edge(g, order[head], y) ==> nb.contains(y),
    ensures
        bfs_levels(g, order, par, lev, head + 1, n),
{
    reveal(bfs_levels);
    reveal(bfs_expanded);
    assert forall|i: int, y: usize| 0 <= i < head + 1 && y < n && #[trigger] has_edge(g, order[i], y)
        implies exists|j: int| 0 <= j < order.len() && order[j] == y && #[trigger] lev[j] <= lev[i] + 1 by {
        if i == head {
            assert(nb.contains(y));
            let k = choose|k: int| 0 <= k < nb.len() && nb[k] == y;
            let j = choose|j: int| 0 <= j < order.len() && order[j] == nb[k] && #[trigger] lev[j] <= lev[head] + 1;
            assert(order[j] == y);
        }
    }
    if head + 1 < order.len() {
        assert forall|j: int| head + 1 <= j < order.len() implies #[trigger] lev[j] <= lev[head + 1] + 1 by {
            assert(lev[j] <= lev[head] + 1);
            assert(lev[head] <= lev[head + 1]);
        }
    }
}

/// Following parents from position `i` back to the source gives a walk of
/// `lev[i]` edges.
proof fn lemma_parent_walk(g: &AdjacencyList, s: usize, ord: Seq<usize>, par: Seq<int>, lev: Seq<nat>, i: int)
    requires
        ord.len() >= 1,
        ord[0] == s,
        s < g.names().len(),
        par.len() == ord.len(),
        lev.len() == ord.len(),
        lev[0] == 0,
        forall|k: int| 0 < k < ord.len() ==> 0 <= #[trigger] par[k] < k && has_edge(g, ord[par[k]], ord[k]),
        forall|k: int| 0 < k < ord.len() ==> #[trigger] lev[k] == lev[par[k]] + 1,
        forall|k: int| 0 <= k < ord.len() ==> #[trigger] ord[k] < g.names().len(),
        0 <= i < ord.len(),
    ensures
        walk_within(g, s, ord[i], lev[i]),
    decreases i,
{
    if i == 0 {
        let w = seq![s];
        assert(is_walk(g, w));
    } else {
        let pi = par[i];
        lemma_parent_walk(g, s, ord, par, lev, pi);
        let w = choose|w: Seq<usize>| #[trigger] is_walk(g, w) && w[0] == s && w[w.len() - 1] == ord[pi] && w.len() <= lev[pi] + 1;
        let w2 = w.push(ord[i]);
        assert forall|k: int| 0 <= k < w2.len() - 1 implies has_edge(g, #[trigger] w2[k], w2[k + 1]) by {
            if k < w.len() - 1 {
                assert(w2[k] == w[k] && w2[k + 1] == w[k + 1]);
            }
        }
        assert forall|k: int| 0 <= k < w2.len() implies #[trigger] w2[k] < g.names().len() by {
            if k < w.len() {
                assert(w2[k] == w[k]);
            }
        }
        assert(is_walk(g, w2));
    }
}

/// Along a walk from the source, the `k`-th node is listed at a level of at
/// most `k`.
proof fn lemma_walk_levels(g: &AdjacencyList, s: usize, ord: Seq<usize>, lev: Seq<nat>, w: Seq<usize>, k: int)
    requires
        ord.len() >= 1,
        ord[0] == s,
        lev.len() == ord.len(),
        lev[0] == 0,
        forall|i: int, y: usize| 0 <= i < ord.len() && y < g.names().len() && #[trigger] has_edge(g, ord[i], y)
            ==> exists|j: int| 0 <= j < ord.len() && ord[j] == y && #[trigger] lev[j] <= lev[i] + 1,
        is_walk(g, w),
        w[0] == s,
        0 <= k < w.len(),
    ensures
        exists|j: int| 0 <= j < ord.len() && ord[j] == w[k] && #[trigger] lev[j] <= k,
    decreases k,
{
    if k == 0 {
        assert(ord[0] == w[0] && lev[0] <= 0);
    } else {
        lemma_walk_levels(g, s, ord, lev, w, k - 1);
        let j = choose|j: int| 0 <= j < ord.len() && ord[j] == w[k - 1] && #[trigger] lev[j] <= k - 1;
        assert(has_edge(g, w[k - 1], w[k]));
        assert(has_edge(g, ord[j], w[k]));
        let j2 = choose|j2: int| 0 <= j2 < ord.len() && ord[j2] == w[k] && #[trigger] lev[j2] <= lev[j] + 1;
        assert(lev[j2] <= k);
    }
}

/// The levels of a finished search are the distances from the source.
proof fn lemma_bfs_distances(g: &AdjacencyList, s: usize, ord: Seq<usize>, par: Seq<int>, lev: Seq<nat>)
    requires
        bfs_levels(g, ord, par, lev, ord.len() as int, g.names().len()),
        ord.len() >= 1,
        ord[0] == s,
        s < g.names().len(),
        ord.no_duplicates(),
        forall|k: int| 0 < k < ord.len() ==> 0 <= #[trigger] par[k] < k && has_edge(g, ord[par[k]], ord[k]),
        forall|k: int| 0 <= k < ord.len() ==> #[trigger] ord[k] < g.names().len(),
    ensures
        in_distance_order(g, s, ord),
{
    reveal(bfs_levels);
    assert forall|i: int| 0 <= i < ord.len() implies is_distance(g, s, ord[i], #[trigger] lev[i]) by {
        lemma_parent_walk(g, s, ord, par, lev, i);
        assert forall|e: nat| #[trigger] walk_within(g, s, ord[i], e) implies lev[i] <= e by {
            let w = choose|w: Seq<usize>| #[trigger] is_walk(g, w) && w[0] == s && w[w.len() - 1] == ord[i] && w.len() <= e + 1;
            lemma_walk_levels(g, s, ord, lev, w, w.len() - 1);
            let j = choose|j: int| 0 <= j < ord.len() && ord[j] == w[w.len() - 1] && #[trigger] lev[j] <= w.len() - 1;
            assert(ord[j] == ord[i]);
            assert(j == i);
        }
    }
}

proof fn lemma_reaches_refl(g: &AdjacencyList, a: usize)
    requires
        a < g.names().len(),
    ensures
        reaches(g, a, a),
{
    let w = seq![a];
    assert(is_walk(g, w));
}

proof fn lemma_reaches_step(g: &AdjacencyList, a: usize, b: usize, c: usize)
    requires
        reaches(g, a, b),
        has_edge(g, b, c),
        c < g.names().len(),
    ensures
        reaches(g, a, c),
{
    let w = choose|w: Seq<usize>| #[trigger] is_walk(g, w) && w[0] == a && w[w.len() - 1] == b;
    let w2 = w.push(c);
    assert forall|i: int| 0 <= i < w2.len() - 1 implies has_edge(g, #[trigger] w2[i], w2[i + 1]) by {
        if i < w.len() - 1 {
            assert(w2[i] == w[i] && w2[i + 1] == w[i + 1]);
        }
    }
    assert forall|i: int| 0 <= i < w2.len() implies #[trigger] w2[i] < g.names().len() by {
        if i < w.len() {
            assert(w2[i] == w[i]);
        }
    }
    assert(is_walk(g, w2));
}

/// A walk from a listed node stays in a listing closed under edges.
proof fn lemma_walk_in_closed(g: &AdjacencyList, ord: Seq<usize>, w: Seq<usize>, k: int)
    requires
        is_walk(g, w),
        ord.contains(w[0]),
        forall|x: usize, y: usize| #[trigger] ord.contains(x) && #[trigger] has_edge(g, x, y) && y < g.names().len()
            ==> ord.contains(y),
        0 <= k < w.len(),
    ensures
        ord.contains(w[k]),
    decreases k,
{
    if k > 0 {
        lemma_walk_in_closed(g, ord, w, k - 1);
        assert(has_edge(g, w[k - 1], w[k]));
    }
}

/// Breadth-first search from `source`: the nodes reachable from it, in
/// BFS order, successors taken in name order.
pub fn bfs(graph: &AdjacencyList, source: &str) -> (r: FoundationResult<Vec<String>>)
    ensures
        r is Ok <==> graph.names().contains(source@),
        r matches Ok(v) ==> string_views(v@) == names_of(graph, bfs_order(graph, name_index(graph.names(), source@) as usize)),
        r is Ok ==> lists_reachable(graph, name_index(graph.names(), source@) as usize,
            bfs_order(graph, name_index(graph.names(), source@) as usize)),
        r is Ok ==> in_distance_order(graph, name_index(graph.names(), source@) as usize,
            bfs_order(graph, name_index(graph.names(), source@) as usize)),
        r is Err ==> is_validation_failed(r, missing_source_msg(source@)),
{
    graph.model_facts();
    let s = match graph.node_index(source) {
        Some(i) => i,
        None => {
            return Err(missing_source(source));
        },
    };
    assert(name_index(graph.names(), source@) == s);
    let n = graph.node_count();
    let mut visited: Vec<bool> = Vec::new();
    let mut k: usize = 0;
    while k < n
        invariant
            k <= n,
            visited@.len() == k,
            forall|j: int| 0 <= j < k ==> !visited@[j],
        decreases n - k,
    {
        visited.push(false);
        k = k + 1;
    }
    visited.set(s, true);
    let mut order: Vec<usize> = Vec::new();
    order.push(s);
    let mut head: usize = 0;
    let ghost mut par: Seq<int> = seq![0];
    let ghost mut lev: Seq<nat> = seq![0nat];
    assert(order@ =~= bfs_state(graph, s, 0));
    assert(bfs_levels(graph, seq![s], par, lev, 0, n as nat)) by {
        reveal(bfs_levels);
    }
    proof {
        lemma_reaches_refl(graph, s);
        lemma_push_contains(Seq::<usize>::empty(), s);
        assert(order@ =~= Seq::<usize>::empty().push(s));
        assert forall|j: usize| j < n implies (#[trigger] visited@[j as int] <==> order@.contains(j)) by {
            if j == s {
                assert(order@[0] == s);
            }
        }
    }
    while head < order.len()
        invariant
            n == graph.names().len(),
            s < n,
            graph_model_ok(graph.names(), graph.adj()),
            visited@.len() == n,
            head <= order@.len(),
            order@ == bfs_state(graph, s, head as nat),
            order@.no_duplicates(),
            forall|i: int| 0 <= i < order@.len() ==> #[trigger] order@[i] < n,
            forall|j: usize| j < n ==> (#[trigger] visited@[j as int] <==> order@.contains(j)),
            order@.len() >= 1,
            order@[0] == s,
            forall|x: usize| #[trigger] order@.contains(x) ==> reaches(graph, s, x),
            par.len() == order@.len(),
            forall|i: int| 0 < i < order@.len() ==> 0 <= #[trigger] par[i] < i && has_edge(graph, order@[par[i]], order@[i]),
            forall|i: int, y: usize| 0 <= i < head && y < n && #[trigger] has_edge(graph, order@[i], y) ==> order@.contains(y),
            bfs_levels(graph, order@, par, lev, head as int, n as nat),
        decreases n - head,
    {
        proof {
            lemma_distinct_bounded(order@, n as nat);
        }
        let u = order[head];
        assert(order@.contains(u));
        let nb = graph.sorted_successors(u);
        let ghost start = order@;
        let mut t: usize = 0;
        assert(bfs_expanded(order@, lev, head as int, nb@, 0)) by {
            reveal(bfs_expanded);
        }
        assert(nb@.subrange(0, nb@.len() as int) =~= nb@);
        while t < nb.len()
            invariant
                n == graph.names().len(),
                visited@.len() == n,
                nb@ == graph.succ(u as int),
                forall|i: int| 0 <= i < nb@.len() ==> #[trigger] nb@[i] < n,
                t <= nb@.len(),
                start.is_prefix_of(order@),
                append_new(start, nb@) == append_new(order@, nb@.subrange(t as int, nb@.len() as int)),
                order@.no_duplicates(),
                forall|i: int| 0 <= i < order@.len() ==> #[trigger] order@[i] < n,
                forall|j: usize| j < n ==> (#[trigger] visited@[j as int] <==> order@.contains(j)),
                u == start[head as int],
                head < start.len(),
                reaches(graph, s, u),
                order@.len() >= 1,
                order@[0] == s,
                forall|x: usize| #[trigger] order@.contains(x) ==> reaches(graph, s, x),
                par.len() == order@.len(),
                forall|i: int| 0 < i < order@.len() ==> 0 <= #[trigger] par[i] < i && has_edge(graph, order@[par[i]], order@[i]),
                forall|i: int, y: usize| 0 <= i < head && y < n && #[trigger] has_edge(graph, order@[i], y) ==> order@.contains(y),
                forall|j: int| 0 <= j < t ==> order@.contains(#[trigger] nb@[j]),
                bfs_levels(graph, order@, par, lev, head as int, n as nat),
                bfs_expanded(order@, lev, head as int, nb@, t as int),
            decreases nb.len() - t,
        {
            let x = nb[t];
            let ghost rest = nb@.subrange(t as int, nb@.len() as int);
            assert(rest[0] == x);
            assert(rest.drop_first() =~= nb@.subrange(t + 1, nb@.len() as int));
            if !visited[x] {
                visited.set(x, true);
                let ghost before = order@;
                order.push(x);
                proof {
                    assert(!before.contains(x));
                    assert forall|j: usize| #[trigger] order@.contains(j) <==> (before.contains(j) || j == x) by {
                        if order@.contains(j) {
                            let w = choose|w: int| 0 <= w < order@.len() && order@[w] == j;
                            if w < before.len() {
                                assert(before[w] == j);
                            }
                        }
                        if before.contains(j) {
                            let w = choose|w: int| 0 <= w < before.len() && before[w] == j;
                            assert(order@[w] == j);
                        }
                        if j == x {
                            assert(order@[before.len() as int] == x);
                        }
                    }
                    assert forall|j: usize| j < n implies (#[trigger] visited@[j as int] <==> order@.contains(j)) by {
                        assert(order@.contains(j) <==> (before.contains(j) || j == x));
                    }
                    assert(start.is_prefix_of(order@)) by {
                        assert forall|w: int| 0 <= w < start.len() implies order@[w] == start[w] by {
                            assert(before[w] == start[w]);
                        }
                    }
                    assert(nb@.contains(x));
                    assert(has_edge(graph, u, x));
                    lemma_reaches_step(graph, s, u, x);
                    let pb = par;
                    par = pb.push(head as int);
                    assert(order@[head as int] == u);
                    assert forall|i: int| 0 < i < order@.len() implies 0 <= #[trigger] par[i] < i
                        && has_edge(graph, order@[par[i]], order@[i]) by {
                        if i < before.len() {
                            assert(par[i] == pb[i]);
                            assert(order@[i] == before[i]);
                            assert(order@[pb[i]] == before[pb[i]]);
                        }
                    }
                    assert forall|i: int, y: usize| 0 <= i < head && y < n && #[trigger] has_edge(graph, order@[i], y)
                        implies order@.contains(y) by {
                        assert(order@[i] == before[i]);
                    }
                    assert(order@[0] == before[0]);
                    let lb = lev;
                    lev = lb.push((lb[head as int] + 1) as nat);
                    lemma_bfs_levels_push(graph, before, x, pb, lb, head as int, nb@, t as int, n as nat);
                }
            } else {
                assert(order@.contains(x));
                proof {
                    lemma_bfs_levels_seen(graph, order@, par, lev, head as int, nb@, t as int, n as nat);
                }
            }
            t = t + 1;
        }
        assert(nb@.subrange(t as int, nb@.len() as int) =~= Seq::<usize>::empty());
        proof {
            assert(start[head as int] == u);
            assert forall|y: usize| #[trigger] has_edge(graph, order@[head as int], y) implies nb@.contains(y) by {
                assert(order@[head as int] == start[head as int]);
            }
            lemma_bfs_levels_advance(graph, order@, par, lev, head as int, nb@, n as nat);
            assert forall|i: int, y: usize| 0 <= i < head + 1 && y < n && #[trigger] has_edge(graph, order@[i], y)
                implies order@.contains(y) by {
                if i == head {
                    assert(order@[i] == start[i]);
                    assert(graph.succ(u as int).contains(y));
                    let j = choose|j: int| 0 <= j < nb@.len() && nb@[j] == y;
                    assert(order@.contains(nb@[j]));
                }
            }
        }
        head = head + 1;
    }
    proof {
        lemma_distinct_bounded(order@, n as nat);
        lemma_bfs_stable(graph, s, head as nat, n as nat);
        let ord = order@;
        assert forall|x: usize, y: usize| #[trigger] ord.contains(x) && #[trigger] has_edge(graph, x, y) && y < n
            implies ord.contains(y) by {
            let i = choose|i: int| 0 <= i < ord.len() && ord[i] == x;
            assert(has_edge(graph, ord[i], y));
        }
        assert forall|x: usize| x < n implies (#[trigger] ord.contains(x) <==> reaches(graph, s, x)) by {
            if reaches(graph, s, x) {
                let w = choose|w: Seq<usize>| #[trigger] is_walk(graph, w) && w[0] == s && w[w.len() - 1] == x;
                assert(ord.contains(ord[0]));
                lemma_walk_in_closed(graph, ord, w, w.len() - 1);
            }
        }
        assert forall|i: int| 0 < i < ord.len() implies exists|j: int| 0 <= j < i && has_edge(graph, ord[j], #[trigger] ord[i]) by {
            assert(0 <= par[i] < i && has_edge(graph, ord[par[i]], ord[i]));
        }
        assert(lists_reachable(graph, s, ord));
        lemma_bfs_distances(graph, s, ord, par, lev);
    }
    Ok(node_names(graph, &order))
}


// ---------------------------------------------------------------------------
// Depth-first search
// ---------------------------------------------------------------------------

/// Recursive DFS from `u`: visit `u`, then each successor (by name) not yet
/// visited.  `budget` bounds the recursion depth; with `budget` at least the
/// number of unvisited nodes it never cuts the search short.
pub open spec fn dfs_visit(g: &AdjacencyList, u: usize, order: Seq<usize>, budget: nat) -> Seq<usize>
    decreases budget, 0nat,
{
    if budget == 0 {
        order
    } else {
        dfs_each(g, g.succ(u as int), order.push(u), (budget - 1) as nat)
    }
}

/// DFS over a list of successors, skipping those already visited.
pub open spec fn dfs_each(g: &AdjacencyList, xs: Seq<usize>, order: Seq<usize>, budget: nat) -> Seq<usize>
    decreases budget, xs.len() + 1,
{
    if xs.len() == 0 {
        order
    } else {
        let next = if order.contains(xs[0]) { order } else { dfs_visit(g, xs[0], order, budget) };
        dfs_each(g, xs.drop_first(), next, budget)
    }
}

/// The complete DFS pre-order from `src`.
pub open spec fn dfs_order(g: &AdjacencyList, src: usize) -> Seq<usize> {
    dfs_visit(g, src, Seq::empty(), g.names().len())
}

proof fn lemma_push_contains(before: Seq<usize>, x: usize)
    ensures
        forall|j: usize| #[trigger] before.push(x).contains(j) <==> (before.contains(j) || j == x),
{
    let after = before.push(x);
    assert forall|j: usize| #[trigger] after.contains(j) <==> (before.contains(j) || j == x) by {
        if after.contains(j) {
            let w = choose|w: int| 0 <= w < after.len() && after[w] == j;
            if w < before.len() {
                assert(before[w] == j);
            }
        }
        if before.contains(j) {
            let w = choose|w: int| 0 <= w < before.len() && before[w] == j;
            assert(after[w] == j);
        }
        if j == x {
            assert(after[before.len() as int] == x);
        }
    }
}

fn dfs_rec(g: &AdjacencyList, u: usize, visited: &mut Vec<bool>, order: &mut Vec<usize>, Ghost(budget): Ghost<nat>)
    requires
        graph_model_ok(g.names(), g.adj()),
        u < g.names().len(),
        old(visited)@.len() == g.names().len(),
        !old(order)@.contains(u),
        old(order)@.no_duplicates(),
        forall|i: int| 0 <= i < old(order)@.len() ==> #[trigger] old(order)@[i] < g.names().len(),
        forall|j: usize| j < g.names().len() ==> (#[trigger] old(visited)@[j as int] <==> old(order)@.contains(j)),
        budget + old(order)@.len() >= g.names().len(),
    ensures
        final(order)@ == dfs_visit(g, u, old(order)@, budget),
        old(order)@.is_prefix_of(final(order)@),
        final(visited)@.len() == g.names().len(),
        final(order)@.no_duplicates(),
        forall|i: int| 0 <= i < final(order)@.len() ==> #[trigger] final(order)@[i] < g.names().len(),
        forall|j: usize| j < g.names().len() ==> (#[trigger] final(visited)@[j as int] <==> final(order)@.contains(j)),
    decreases budget, 0nat,
{
    let ghost n = g.names().len();
    let ghost start0 = order@;
    let ghost vis0 = visited@;
    proof {
        lemma_push_contains(order@, u);
        assert(order@.push(u).no_duplicates()) by {
            assert forall|a: int, b: int| 0 <= a < b < order@.len() + 1 implies order@.push(u)[a] != order@.push(u)[b] by {
                if b == order@.len() {
                    assert(order@.push(u)[a] == order@[a]);
                }
            }
        }
        lemma_distinct_bounded(order@.push(u), n);
        assert(budget >= 1);
    }
    visited.set(u, true);
    order.push(u);
    assert forall|j: usize| j < n implies (#[trigger] visited@[j as int] <==> order@.contains(j)) by {
        assert(vis0[j as int] <==> start0.contains(j));
        assert(order@ == start0.push(u));
    }
    let nb = g.sorted_successors(u);
    let ghost start = order@;
    let ghost b1: nat = (budget - 1) as nat;
    let mut t: usize = 0;
    assert(nb@.subrange(0, nb@.len() as int) =~= nb@);
    while t < nb.len()
        invariant
            graph_model_ok(g.names(), g.adj()),
            n == g.names().len(),
            visited@.len() == n,
            nb@ == g.succ(u as int),
            forall|i: int| 0 <= i < nb@.len() ==> #[trigger] nb@[i] < n,
            t <= nb@.len(),
            start0.is_prefix_of(order@),
            dfs_each(g, nb@, start, b1) == dfs_each(g, nb@.subrange(t as int, nb@.len() as int), order@, b1),
            b1 + order@.len() >= n,
            b1 + 1 == budget,
            order@.no_duplicates(),
            forall|i: int| 0 <= i < order@.len() ==> #[trigger] order@[i] < n,
            forall|j: usize| j < n ==> (#[trigger] visited@[j as int] <==> order@.contains(j)),
        decreases nb.len() - t,
    {
        let x = nb[t];
        let ghost rest = nb@.subrange(t as int, nb@.len() as int);
        assert(rest[0] == x);
        assert(rest.drop_first() =~= nb@.subrange(t + 1, nb@.len() as int));
        if !visited[x] {
            let ghost before = order@;
            dfs_rec(g, x, visited, order, Ghost(b1));
            proof {
                assert(start0.is_prefix_of(order@)) by {
                    assert forall|w: int| 0 <= w < start0.len() implies order@[w] == start0[w] by {
                        assert(before[w] == start0[w]);
                    }
                }
            }
        } else {
            assert(order@.contains(x));
        }
        t = t + 1;
    }
    assert(nb@.subrange(t as int, nb@.len() as int) =~= Seq::<usize>::empty());
}

/// Depth-first search from `source`: the nodes reachable from it in DFS
/// pre-order, successors taken in name order.
pub fn dfs(graph: &AdjacencyList, source: &str) -> (r: FoundationResult<Vec<String>>)
    ensures
        r is Ok <==> graph.names().contains(source@),
        r matches Ok(v) ==> string_views(v@) == names_of(graph, dfs_order(graph, name_index(graph.names(), source@) as usize)),
        r is Err ==> is_validation_failed(r, missing_source_msg(source@)),
{
    graph.model_facts();
    let s = match graph.node_index(source) {
        Some(i) => i,
        None => {
            return Err(missing_source(source));
        },
    };
    assert(name_index(graph.names(), source@) == s);
    let n = graph.node_count();
    let mut visited: Vec<bool> = Vec::new();
    let mut k: usize = 0;
    while k < n
        invariant
            k <= n,
            visited@.len() == k,
            forall|j: int| 0 <= j < k ==> !visited@[j],
        decreases n - k,
    {
        visited.push(false);
        k = k + 1;
    }
    let mut order: Vec<usize> = Vec::new();
    assert(order@ =~= Seq::<usize>::empty());
    dfs_rec(graph, s, &mut visited, &mut order, Ghost(n as nat));
    Ok(node_names(graph, &order))
}


// ---------------------------------------------------------------------------
// In-degrees and Kahn's algorithm
// ---------------------------------------------------------------------------

/// Number of occurrences of `x` in `s`.
pub open spec fn occ(s: Seq<usize>, x: usize) -> nat
    decreases s.len(),
{
    if s.len() == 0 {
        0
    } else {
        occ(s.drop_last(), x) + if s.last() == x { 1nat } else { 0nat }
    }
}

/// Number of edges into `x` from nodes below `m` that are not yet done.
pub open spec fn pending_in(g: &AdjacencyList, done: Seq<bool>, m: nat, x: usize) -> nat
    decreases m,
{
    if m == 0 {
        0
    } else {
        pending_in(g, done, (m - 1) as nat, x) + if done[m - 1] { 0nat } else { occ(g.succ(m - 1), x) }
    }
}

/// No node done.
pub open spec fn none_done(n: nat) -> Seq<bool> {
    Seq::new(n, |i: int| false)
}

/// The number of edges into `x`.
pub open spec fn in_degree(g: &AdjacencyList, x: usize) -> nat {
    pending_in(g, none_done(g.names().len()), g.names().len(), x)
}

/// Whether there is an edge `w -> v`.
pub open spec fn has_edge(g: &AdjacencyList, w: usize, v: usize) -> bool {
    w < g.names().len() && g.succ(w as int).contains(v)
}

/// The nodes below `m` with no incoming edge, in index order.
pub open spec fn zero_prefix(g: &AdjacencyList, m: nat) -> Seq<usize>
    decreases m,
{
    if m == 0 {
        Seq::empty()
    } else {
        zero_prefix(g, (m - 1) as nat) + if in_degree(g, (m - 1) as usize) == 0 {
            seq![(m - 1) as usize]
        } else {
            Seq::<usize>::empty()
        }
    }
}

/// The nodes with no incoming edge, ordered by name: Kahn's initial queue.
pub open spec fn zero_in_nodes(g: &AdjacencyList) -> Seq<usize> {
    zero_prefix(g, g.names().len()).sort_by(name_order(g.names()))
}

/// Processes the successors `xs` of a dequeued node: each occurrence
/// decrements the target's in-degree, and a target reaching zero is enqueued.
pub open spec fn kahn_each(xs: Seq<usize>, order: Seq<usize>, indeg: Seq<int>) -> (Seq<usize>, Seq<int>)
    decreases xs.len(),
{
    if xs.len() == 0 {
        (order, indeg)
    } else {
        let x = xs[0];
        let d = indeg[x as int] - 1;
        kahn_each(xs.drop_first(), if d == 0 { order.push(x) } else { order }, indeg.update(x as int, d))
    }
}

/// Kahn's queue and remaining in-degrees after `k` nodes have been dequeued.
pub open spec fn kahn_state(g: &AdjacencyList, k: nat) -> (Seq<usize>, Seq<int>)
    decreases k,
{
    if k == 0 {
        (zero_in_nodes(g), Seq::new(g.names().len(), |x: int| in_degree(g, x as usize) as int))
    } else {
        let prev = kahn_state(g, (k - 1) as nat);
        if k - 1 < prev.0.len() {
            kahn_each(g.succ(prev.0[k - 1] as int), prev.0, prev.1)
        } else {
            prev
        }
    }
}

/// The order in which Kahn's algorithm removes nodes (all of them exactly
/// when the graph is acyclic).
pub open spec fn kahn_order(g: &AdjacencyList) -> Seq<usize> {
    kahn_state(g, g.names().len()).0
}

/// A walk: consecutive nodes joined by edges.
pub open spec fn is_walk(g: &AdjacencyList, w: Seq<usize>) -> bool {
    &&& w.len() >= 1
    &&& forall|i: int| 0 <= i < w.len() ==> #[trigger] w[i] < g.names().len()
    &&& forall|i: int| 0 <= i < w.len() - 1 ==> has_edge(g, #[trigger] w[i], w[i + 1])
}

/// Whether the graph has a directed cycle: a walk of at least one edge
/// returning to its start.
pub open spec fn has_directed_cycle(g: &AdjacencyList) -> bool {
    exists|w: Seq<usize>| #[trigger] is_walk(g, w) && w.len() >= 2 && w[0] == w[w.len() - 1]
}

/// Every edge goes from an earlier to a later position of `order`.
pub open spec fn respects_edges(g: &AdjacencyList, order: Seq<usize>) -> bool {
    forall|p: int, w: usize| 0 <= p < order.len() && #[trigger] has_edge(g, w, order[p])
        ==> exists|q: int| 0 <= q < p && order[q] == w
}

/// `order` lists every node exactly once.
pub open spec fn is_node_permutation(g: &AdjacencyList, order: Seq<usize>) -> bool {
    &&& order.len() == g.names().len()
    &&& order.no_duplicates()
    &&& forall|i: int| 0 <= i < order.len() ==> #[trigger] order[i] < g.names().len()
}

proof fn lemma_occ_prefix(s: Seq<usize>, t: int, x: usize)
    requires
        0 <= t < s.len(),
    ensures
        occ(s.subrange(0, t + 1), x) == occ(s.subrange(0, t), x) + if s[t] == x { 1nat } else { 0nat },
{
    assert(s.subrange(0, t + 1).drop_last() =~= s.subrange(0, t));
}

proof fn lemma_occ_le(s: Seq<usize>, t: int, x: usize)
    requires
        0 <= t <= s.len(),
    ensures
        occ(s.subrange(0, t), x) <= occ(s, x),
        occ(s, x) <= s.len(),
    decreases s.len() - t,
{
    if t < s.len() {
        lemma_occ_le(s, t + 1, x);
        lemma_occ_prefix(s, t, x);
    } else {
        assert(s.subrange(0, t) =~= s);
        lemma_occ_len(s, x);
    }
}

proof fn lemma_occ_len(s: Seq<usize>, x: usize)
    ensures
        occ(s, x) <= s.len(),
    decreases s.len(),
{
    if s.len() > 0 {
        lemma_occ_len(s.drop_last(), x);
    }
}

proof fn lemma_occ_contains(s: Seq<usize>, x: usize)
    ensures
        occ(s, x) > 0 <==> s.contains(x),
    decreases s.len(),
{
    if s.len() > 0 {
        lemma_occ_contains(s.drop_last(), x);
        if s.drop_last().contains(x) {
            let i = choose|i: int| 0 <= i < s.drop_last().len() && s.drop_last()[i] == x;
            assert(s[i] == x);
        }
        if s.contains(x) && s.last() != x {
            let i = choose|i: int| 0 <= i < s.len() && s[i] == x;
            assert(s.drop_last()[i] == x);
        }
    }
}

proof fn lemma_pending_mark(g: &AdjacencyList, done: Seq<bool>, m: nat, x: usize, u: int)
    requires
        0 <= u < done.len(),
        m <= done.len(),
    ensures
        pending_in(g, done.update(u, true), m, x) + (if u < m && !done[u] { occ(g.succ(u), x) } else { 0 })
            == pending_in(g, done, m, x),
    decreases m,
{
    if m > 0 {
        lemma_pending_mark(g, done, (m - 1) as nat, x, u);
    }
}

proof fn lemma_pending_ge(g: &AdjacencyList, done: Seq<bool>, m: nat, x: usize, u: int)
    requires
        0 <= u < m,
        m <= done.len(),
        !done[u],
    ensures
        occ(g.succ(u), x) <= pending_in(g, done, m, x),
    decreases m,
{
    if u < m - 1 {
        lemma_pending_ge(g, done, (m - 1) as nat, x, u);
    }
}

proof fn lemma_pending_ge2(g: &AdjacencyList, done: Seq<bool>, m: nat, x: usize, u: int, w: int)
    requires
        0 <= u < m,
        0 <= w < m,
        u != w,
        m <= done.len(),
        !done[u],
        !done[w],
    ensures
        occ(g.succ(u), x) + occ(g.succ(w), x) <= pending_in(g, done, m, x),
    decreases m,
{
    if u == m - 1 {
        lemma_pending_ge(g, done, (m - 1) as nat, x, w);
    } else if w == m - 1 {
        lemma_pending_ge(g, done, (m - 1) as nat, x, u);
    } else {
        lemma_pending_ge2(g, done, (m - 1) as nat, x, u, w);
    }
}

proof fn lemma_pending_source(g: &AdjacencyList, done: Seq<bool>, m: nat, x: usize)
    requires
        m <= done.len(),
        pending_in(g, done, m, x) > 0,
    ensures
        exists|w: int| 0 <= w < m && !done[w] && occ(g.succ(w), x) > 0,
    decreases m,
{
    if m > 0 {
        if !done[m - 1] && occ(g.succ(m - 1), x) > 0 {
        } else {
            lemma_pending_source(g, done, (m - 1) as nat, x);
        }
    }
}

proof fn lemma_pending_total(g: &AdjacencyList, done: Seq<bool>, m: nat, x: usize)
    requires
        m <= done.len(),
        m <= g.names().len(),
        graph_model_ok(g.names(), g.adj()),
    ensures
        pending_in(g, done, m, x) <= crate::graph_types::total_edges(g.adj().subrange(0, m as int)),
    decreases m,
{
    if m > 0 {
        lemma_pending_total(g, done, (m - 1) as nat, x);
        assert(g.adj().subrange(0, m as int).drop_last() =~= g.adj().subrange(0, m - 1));
        lemma_succ_len(g, m - 1);
        lemma_occ_len(g.succ(m - 1), x);
    }
}

/// The successor list has one entry per edge.
pub proof fn lemma_succ_len(g: &AdjacencyList, i: int)
    requires
        0 <= i < g.names().len(),
        graph_model_ok(g.names(), g.adj()),
    ensures
        g.succ(i).len() == g.adj()[i].len(),
        forall|k: int| 0 <= k < g.succ(i).len() ==> #[trigger] g.succ(i)[k] < g.names().len(),
{
    let t = edge_targets(g.adj()[i]);
    lemma_name_order_total(g.names());
    t.lemma_sort_by_ensures(name_order(g.names()));
    vstd::seq_lib::to_multiset_len(t);
    vstd::seq_lib::to_multiset_len(g.succ(i));
    assert forall|k: int| 0 <= k < g.succ(i).len() implies #[trigger] g.succ(i)[k] < g.names().len() by {
        let v = g.succ(i)[k];
        assert(g.succ(i).contains(v));
        if !t.contains(v) {
            assert(false);
        }
        let j = choose|j: int| 0 <= j < t.len() && t[j] == v;
        assert(t[j] == g.adj()[i][j].0);
    }
}

proof fn lemma_total_edges_bound(g: &AdjacencyList, m: int)
    requires
        0 <= m <= g.adj().len(),
    ensures
        crate::graph_types::total_edges(g.adj().subrange(0, m)) <= crate::graph_types::total_edges(g.adj()),
    decreases g.adj().len() - m,
{
    if m < g.adj().len() {
        lemma_total_edges_bound(g, m + 1);
        assert(g.adj().subrange(0, m + 1).drop_last() =~= g.adj().subrange(0, m));
    } else {
        assert(g.adj().subrange(0, m) =~= g.adj());
    }
}

/// The in-degree of every node as counted from the successor lists.
fn compute_in_degrees(g: &AdjacencyList) -> (indeg: Vec<usize>)
    requires
        graph_model_ok(g.names(), g.adj()),
        crate::graph_types::total_edges(g.adj()) <= usize::MAX,
    ensures
        indeg@.len() == g.names().len(),
        forall|x: int| 0 <= x < g.names().len() ==> #[trigger] indeg@[x] == in_degree(g, x as usize),
{
    let n = g.node_count();
    let ghost nd = none_done(n as nat);
    let mut indeg: Vec<usize> = Vec::new();
    let mut k: usize = 0;
    while k < n
        invariant
            k <= n,
            indeg@.len() == k,
            forall|j: int| 0 <= j < k ==> indeg@[j] == 0,
        decreases n - k,
    {
        indeg.push(0);
        k = k + 1;
    }
    let mut v: usize = 0;
    while v < n
        invariant
            graph_model_ok(g.names(), g.adj()),
            crate::graph_types::total_edges(g.adj()) <= usize::MAX,
            n == g.names().len(),
            nd == none_done(n as nat),
            v <= n,
            indeg@.len() == n,
            forall|x: int| 0 <= x < n ==> #[trigger] indeg@[x] == pending_in(g, nd, v as nat, x as usize),
        decreases n - v,
    {
        let xs = g.sorted_successors(v);
        let mut t: usize = 0;
        while t < xs.len()
            invariant
                graph_model_ok(g.names(), g.adj()),
                crate::graph_types::total_edges(g.adj()) <= usize::MAX,
                n == g.names().len(),
                nd == none_done(n as nat),
                v < n,
                xs@ == g.succ(v as int),
                forall|i: int| 0 <= i < xs@.len() ==> #[trigger] xs@[i] < n,
                t <= xs@.len(),
                indeg@.len() == n,
                forall|x: int| 0 <= x < n ==> #[trigger] indeg@[x]
                    == pending_in(g, nd, v as nat, x as usize) + occ(xs@.subrange(0, t as int), x as usize),
            decreases xs.len() - t,
        {
            let x = xs[t];
            proof {
                lemma_occ_prefix(xs@, t as int, x);
                lemma_occ_le(xs@, t + 1, x);
                assert(pending_in(g, nd, (v + 1) as nat, x) == pending_in(g, nd, v as nat, x) + occ(xs@, x));
                lemma_pending_total(g, nd, (v + 1) as nat, x);
                lemma_total_edges_bound(g, v + 1);
            }
            let ghost before = indeg@;
            let cur = indeg[x];
            indeg.set(x, cur + 1);
            proof {
                assert forall|y: int| 0 <= y < n implies #[trigger] indeg@[y]
                    == pending_in(g, nd, v as nat, y as usize) + occ(xs@.subrange(0, t + 1), y as usize) by {
                    lemma_occ_prefix(xs@, t as int, y as usize);
                    assert(before[y] == pending_in(g, nd, v as nat, y as usize) + occ(xs@.subrange(0, t as int), y as usize));
                }
            }
            t = t + 1;
        }
        proof {
            assert(xs@.subrange(0, t as int) =~= xs@);
        }
        v = v + 1;
    }
    indeg
}

proof fn lemma_zero_prefix(g: &AdjacencyList, m: nat)
    requires
        m <= g.names().len(),
        g.names().len() <= usize::MAX,
    ensures
        zero_prefix(g, m).no_duplicates(),
        forall|i: int| 0 <= i < zero_prefix(g, m).len() ==> #[trigger] zero_prefix(g, m)[i] < m,
        forall|x: usize| #[trigger] zero_prefix(g, m).contains(x) <==> (x < m && in_degree(g, x) == 0),
    decreases m,
{
    if m > 0 {
        lemma_zero_prefix(g, (m - 1) as nat);
        let prev = zero_prefix(g, (m - 1) as nat);
        let cur = zero_prefix(g, m);
        if in_degree(g, (m - 1) as usize) == 0 {
            assert(cur =~= prev.push((m - 1) as usize));
            lemma_push_contains(prev, (m - 1) as usize);
            assert(cur.no_duplicates()) by {
                assert forall|a: int, b: int| 0 <= a < b < cur.len() implies cur[a] != cur[b] by {
                    assert(cur[a] == prev[a]);
                    if b == cur.len() - 1 {
                        assert(prev[a] < m - 1);
                    } else {
                        assert(cur[b] == prev[b]);
                    }
                }
            }
        } else {
            assert(cur =~= prev);
        }
    }
}

/// Kahn's algorithm: the removal order, the final in-degrees, and how many
/// nodes were removed.
fn kahn(g: &AdjacencyList) -> (order: Vec<usize>)
    requires
        crate::graph_types::total_edges(g.adj()) <= usize::MAX,
    ensures
        order@ == kahn_order(g),
        order@.no_duplicates(),
        forall|i: int| 0 <= i < order@.len() ==> #[trigger] order@[i] < g.names().len(),
        respects_edges(g, order@),
        order@.len() < g.names().len() ==> has_directed_cycle(g),
{
    g.model_facts();
    let n = g.node_count();
    let mut indeg = compute_in_degrees(g);
    // Initial queue: nodes with no incoming edge, by name.
    let mut order: Vec<usize> = Vec::new();
    let mut v: usize = 0;
    while v < n
        invariant
            n == g.names().len(),
            indeg@.len() == n,
            forall|x: int| 0 <= x < n ==> #[trigger] indeg@[x] == in_degree(g, x as usize),
            v <= n,
            order@ == zero_prefix(g, v as nat),
        decreases n - v,
    {
        if indeg[v] == 0 {
            order.push(v);
        }
        v = v + 1;
        assert(order@ =~= zero_prefix(g, v as nat));
    }
    proof {
        lemma_zero_prefix(g, n as nat);
    }
    let ghost unsorted = order@;
    g.sort_node_indices(&mut order);
    proof {
        let nv = g.names();
        lemma_name_order_total(nv);
        unsorted.lemma_sort_by_ensures(name_order(nv));
        vstd::seq_lib::lemma_sorted_unique(order@, unsorted.sort_by(name_order(nv)), name_order(nv));
        unsorted.lemma_multiset_has_no_duplicates();
        order@.lemma_multiset_has_no_duplicates_conv();
        assert forall|x: usize| #[trigger] order@.contains(x) <==> unsorted.contains(x) by {
            vstd::seq_lib::to_multiset_contains(order@, x);
            vstd::seq_lib::to_multiset_contains(unsorted, x);
        }
        assert forall|i: int| 0 <= i < order@.len() implies #[trigger] order@[i] < n by {
            assert(order@.contains(order@[i]));
        }
    }
    let mut head: usize = 0;
    let ghost mut done: Seq<bool> = none_done(n as nat);
    proof {
        assert forall|p: int, w: usize| 0 <= p < order@.len() && #[trigger] has_edge(g, w, order@[p])
            implies exists|q: int| 0 <= q < p && order@[q] == w by {
            let x = order@[p];
            assert(order@.contains(x));
            lemma_occ_contains(g.succ(w as int), x);
            lemma_pending_ge(g, none_done(n as nat), n as nat, x, w as int);
            assert(false);
        }
    }
    assert(kahn_state(g, 0).1 =~= indeg@.map_values(|a: usize| a as int));
    while head < order.len()
        invariant
            graph_model_ok(g.names(), g.adj()),
            n == g.names().len(),
            indeg@.len() == n,
            done.len() == n,
            head <= order@.len(),
            order@ == kahn_state(g, head as nat).0,
            indeg@.map_values(|a: usize| a as int) == kahn_state(g, head as nat).1,
            order@.no_duplicates(),
            forall|i: int| 0 <= i < order@.len() ==> #[trigger] order@[i] < n,
            forall|x: usize| x < n ==> (#[trigger] done[x as int] <==> order@.subrange(0, head as int).contains(x)),
            forall|x: int| 0 <= x < n ==> #[trigger] indeg@[x] == pending_in(g, done, n as nat, x as usize),
            forall|x: usize| x < n ==> (#[trigger] order@.contains(x) <==> indeg@[x as int] == 0),
            respects_edges(g, order@),
        decreases n - head,
    {
        proof {
            lemma_distinct_bounded(order@, n as nat);
        }
        let u = order[head];
        proof {
            assert(!done[u as int]) by {
                if done[u as int] {
                    let q = choose|q: int| 0 <= q < head && order@.subrange(0, head as int)[q] == u;
                    assert(order@[q] == order@[head as int]);
                }
            }
        }
        let xs = g.sorted_successors(u);
        let ghost start_order = order@;
        let ghost start_indeg = indeg@.map_values(|a: usize| a as int);
        let mut t: usize = 0;
        assert(xs@.subrange(0, xs@.len() as int) =~= xs@);
        while t < xs.len()
            invariant
                graph_model_ok(g.names(), g.adj()),
                n == g.names().len(),
                indeg@.len() == n,
                done.len() == n,
                u < n,
                !done[u as int],
                head < order@.len(),
                order@[head as int] == u,
                xs@ == g.succ(u as int),
                forall|i: int| 0 <= i < xs@.len() ==> #[trigger] xs@[i] < n,
                t <= xs@.len(),
                kahn_each(xs@, start_order, start_indeg)
                    == kahn_each(xs@.subrange(t as int, xs@.len() as int), order@, indeg@.map_values(|a: usize| a as int)),
                start_order.is_prefix_of(order@),
                order@.no_duplicates(),
                forall|i: int| 0 <= i < order@.len() ==> #[trigger] order@[i] < n,
                forall|x: usize| x < n ==> (#[trigger] done[x as int] <==> order@.subrange(0, head as int).contains(x)),
                forall|x: int| 0 <= x < n ==> #[trigger] indeg@[x]
                    == pending_in(g, done, n as nat, x as usize) - occ(xs@.subrange(0, t as int), x as usize),
                forall|x: usize| x < n ==> (#[trigger] order@.contains(x) <==> indeg@[x as int] == 0),
                respects_edges(g, order@),
            decreases xs.len() - t,
        {
            let x = xs[t];
            let ghost rest = xs@.subrange(t as int, xs@.len() as int);
            assert(rest[0] == x);
            assert(rest.drop_first() =~= xs@.subrange(t + 1, xs@.len() as int));
            proof {
                lemma_occ_prefix(xs@, t as int, x);
                lemma_occ_le(xs@, t + 1, x);
                lemma_pending_ge(g, done, n as nat, x, u as int);
            }
            let ghost before_order = order@;
            let ghost before_indeg = indeg@;
            let d = indeg[x] - 1;
            indeg.set(x, d);
            if d == 0 {
                order.push(x);
                proof {
                    lemma_push_contains(before_order, x);
                    assert(!before_order.contains(x));
                    assert(order@.no_duplicates()) by {
                        assert forall|a: int, b: int| 0 <= a < b < order@.len() implies order@[a] != order@[b] by {
                            if b == order@.len() - 1 {
                                assert(order@[a] == before_order[a]);
                            }
                        }
                    }
                    // every predecessor of x is done or is u
                    assert forall|p: int, w: usize| 0 <= p < order@.len() && #[trigger] has_edge(g, w, order@[p])
                        implies exists|q: int| 0 <= q < p && order@[q] == w by {
                        if p < before_order.len() {
                            assert(order@[p] == before_order[p]);
                            let q = choose|q: int| 0 <= q < p && before_order[q] == w;
                            assert(order@[q] == w);
                        } else {
                            assert(order@[p] == x);
                            lemma_occ_contains(g.succ(w as int), x);
                            if !done[w as int] && w != u {
                                lemma_pending_ge2(g, done, n as nat, x, u as int, w as int);
                                lemma_occ_le(xs@, t + 1, x);
                                assert(false);
                            }
                            if w == u {
                                assert(order@[head as int] == u);
                            } else {
                                let sub = before_order.subrange(0, head as int);
                                assert(done[w as int]);
                                assert(sub.contains(w));
                                let q = choose|q: int| 0 <= q < sub.len() && sub[q] == w;
                                assert(before_order[q] == w);
                                assert(order@[q] == w);
                            }
                        }
                    }
                }
            }
            proof {
                assert(start_order.is_prefix_of(order@)) by {
                    assert forall|w: int| 0 <= w < start_order.len() implies order@[w] == start_order[w] by {
                        assert(before_order[w] == start_order[w]);
                    }
                }
                assert(indeg@.map_values(|a: usize| a as int)
                    =~= before_indeg.map_values(|a: usize| a as int).update(x as int, before_indeg[x as int] - 1));
                assert forall|y: int| 0 <= y < n implies #[trigger] indeg@[y]
                    == pending_in(g, done, n as nat, y as usize) - occ(xs@.subrange(0, t + 1), y as usize) by {
                    lemma_occ_prefix(xs@, t as int, y as usize);
                }
                assert forall|y: usize| y < n implies (#[trigger] order@.contains(y) <==> indeg@[y as int] == 0) by {
                    if y != x {
                        if d == 0 {
                            assert(order@.contains(y) <==> before_order.contains(y));
                        } else {
                            assert(order@ == before_order);
                        }
                    }
                }
                assert forall|y: usize| y < n implies (#[trigger] done[y as int] <==> order@.subrange(0, head as int).contains(y)) by {
                    assert(order@.subrange(0, head as int) =~= before_order.subrange(0, head as int));
                }
            }
            t = t + 1;
        }
        proof {
            assert(xs@.subrange(t as int, xs@.len() as int) =~= Seq::<usize>::empty());
            assert(xs@.subrange(0, t as int) =~= xs@);
            let new_done = done.update(u as int, true);
            assert forall|x: int| 0 <= x < n implies #[trigger] indeg@[x] == pending_in(g, new_done, n as nat, x as usize) by {
                lemma_pending_mark(g, done, n as nat, x as usize, u as int);
            }
            assert forall|x: usize| x < n implies (#[trigger] new_done[x as int] <==> order@.subrange(0, head + 1).contains(x)) by {
                let sub = order@.subrange(0, head + 1);
                assert(sub =~= order@.subrange(0, head as int).push(u));
                lemma_push_contains(order@.subrange(0, head as int), u);
            }
            done = new_done;
            assert(start_order[head as int] == u);
        }
        head = head + 1;
    }
    proof {
        lemma_distinct_bounded(order@, n as nat);
        lemma_kahn_stable(g, head as nat, n as nat);
        if order@.len() < n {
            assert(order@.subrange(0, head as int) =~= order@);
            lemma_stuck_cycle(g, order@, done);
        }
    }
    order
}

proof fn lemma_kahn_stable(g: &AdjacencyList, k: nat, m: nat)
    requires
        k <= m,
        k >= kahn_state(g, k).0.len(),
    ensures
        kahn_state(g, m) == kahn_state(g, k),
    decreases m - k,
{
    if k < m {
        lemma_kahn_stable(g, k, (m - 1) as nat);
    }
}

/// When Kahn's algorithm stops before removing every node, each remaining
/// node has a remaining predecessor, so the graph has a cycle.
proof fn lemma_stuck_cycle(g: &AdjacencyList, order: Seq<usize>, done: Seq<bool>)
    requires
        graph_model_ok(g.names(), g.adj()),
        order.len() < g.names().len(),
        order.no_duplicates(),
        forall|i: int| 0 <= i < order.len() ==> #[trigger] order[i] < g.names().len(),
        done.len() == g.names().len(),
        forall|x: usize| x < g.names().len() ==> (#[trigger] done[x as int] <==> order.contains(x)),
        forall|x: usize| x < g.names().len() ==> (#[trigger] order.contains(x) <==> pending_in(g, done, g.names().len(), x) == 0),
    ensures
        has_directed_cycle(g),
{
    let n = g.names().len();
    lemma_some_node_missing(g, order);
    let v0 = choose|v: usize| v < n && !order.contains(v);
    lemma_remaining_have_preds(g, order, done);
    lemma_backward_walk_cycle(g, order, v0);
}

proof fn lemma_some_node_missing(g: &AdjacencyList, order: Seq<usize>)
    requires
        graph_model_ok(g.names(), g.adj()),
        order.len() < g.names().len(),
        order.no_duplicates(),
    ensures
        exists|v: usize| v < g.names().len() && !order.contains(v),
{
    let n = g.names().len();
    if forall|v: usize| v < n ==> order.contains(v) {
        let all = Seq::new(n, |i: int| i as usize);
        assert(all.no_duplicates());
        assert forall|i: int| 0 <= i < all.len() implies order.contains(#[trigger] all[i]) by {
            assert(all[i] < n);
        }
        lemma_subset_bounded(all, order);
        assert(false);
    }
}

proof fn lemma_remaining_have_preds(g: &AdjacencyList, order: Seq<usize>, done: Seq<bool>)
    requires
        graph_model_ok(g.names(), g.adj()),
        done.len() == g.names().len(),
        forall|x: usize| x < g.names().len() ==> (#[trigger] done[x as int] <==> order.contains(x)),
        forall|x: usize| x < g.names().len() ==> (#[trigger] order.contains(x) <==> pending_in(g, done, g.names().len(), x) == 0),
    ensures
        forall|x: usize| x < g.names().len() && !order.contains(x)
            ==> exists|w: usize| w < g.names().len() && !order.contains(w) && has_edge(g, w, x),
{
    let n = g.names().len();
    assert forall|v: usize| v < n && !order.contains(v) implies exists|w: usize| w < n && !order.contains(w) && has_edge(g, w, v) by {
        let w = lemma_one_pred(g, order, done, v);
    }
}

proof fn lemma_one_pred(g: &AdjacencyList, order: Seq<usize>, done: Seq<bool>, v: usize) -> (w: usize)
    requires
        graph_model_ok(g.names(), g.adj()),
        done.len() == g.names().len(),
        v < g.names().len(),
        !order.contains(v),
        forall|x: usize| x < g.names().len() ==> (#[trigger] done[x as int] <==> order.contains(x)),
        forall|x: usize| x < g.names().len() ==> (#[trigger] order.contains(x) <==> pending_in(g, done, g.names().len(), x) == 0),
    ensures
        w < g.names().len(),
        !order.contains(w),
        has_edge(g, w, v),
{
    let n = g.names().len();
    assert(pending_in(g, done, n, v) > 0);
    lemma_pending_source(g, done, n, v);
    let wi = choose|w: int| 0 <= w < n && !done[w] && occ(g.succ(w), v) > 0;
    lemma_occ_contains(g.succ(wi), v);
    let wu = wi as usize;
    assert(wu as int == wi);
    assert(!done[wu as int]);
    wu
}

proof fn lemma_subset_bounded(a: Seq<usize>, b: Seq<usize>)
    requires
        a.no_duplicates(),
        b.no_duplicates(),
        forall|i: int| 0 <= i < a.len() ==> b.contains(#[trigger] a[i]),
    ensures
        a.len() <= b.len(),
{
    a.unique_seq_to_set();
    b.unique_seq_to_set();
    assert(a.to_set().subset_of(b.to_set()));
    vstd::set_lib::lemma_len_subset(a.to_set(), b.to_set());
}

/// Steps backward from `v` `k` times along predecessors outside `order`.
spec fn back_walk(g: &AdjacencyList, order: Seq<usize>, v: usize, k: nat) -> usize
    decreases k,
{
    if k == 0 {
        v
    } else {
        let next = back_walk(g, order, v, (k - 1) as nat);
        choose|w: usize| w < g.names().len() && !order.contains(w) && has_edge(g, w, next)
    }
}

proof fn lemma_back_walk(g: &AdjacencyList, order: Seq<usize>, v: usize, k: nat)
    requires
        v < g.names().len(),
        !order.contains(v),
        forall|x: usize| x < g.names().len() && !order.contains(x)
            ==> exists|w: usize| w < g.names().len() && !order.contains(w) && has_edge(g, w, x),
    ensures
        back_walk(g, order, v, k) < g.names().len(),
        !order.contains(back_walk(g, order, v, k)),
        k > 0 ==> has_edge(g, back_walk(g, order, v, k), back_walk(g, order, v, (k - 1) as nat)),
    decreases k,
{
    if k > 0 {
        lemma_back_walk(g, order, v, (k - 1) as nat);
    }
}

proof fn lemma_backward_walk_cycle(g: &AdjacencyList, order: Seq<usize>, v: usize)
    requires
        v < g.names().len(),
        !order.contains(v),
        forall|x: usize| x < g.names().len() && !order.contains(x)
            ==> exists|w: usize| w < g.names().len() && !order.contains(w) && has_edge(g, w, x),
    ensures
        has_directed_cycle(g),
{
    let n = g.names().len();
    // forward walk: s[i] = back_walk(n - i)
    let s = Seq::new(n + 1, |i: int| back_walk(g, order, v, (n - i) as nat));
    assert forall|i: int| 0 <= i < s.len() implies #[trigger] s[i] < n by {
        lemma_back_walk(g, order, v, (n - i) as nat);
    }
    if s.no_duplicates() {
        lemma_distinct_bounded(s, n);
        assert(false);
    }
    let (a, b) = choose|a: int, b: int| 0 <= a < s.len() && 0 <= b < s.len() && a != b && s[a] == s[b];
    let lo = if a < b { a } else { b };
    let hi = if a < b { b } else { a };
    let c = s.subrange(lo, hi + 1);
    assert forall|i: int| 0 <= i < c.len() - 1 implies has_edge(g, #[trigger] c[i], c[i + 1]) by {
        lemma_back_walk(g, order, v, (n - (lo + i)) as nat);
        assert(c[i] == s[lo + i]);
        assert(c[i + 1] == s[lo + i + 1]);
        assert((n - (lo + i) - 1) as nat == (n - (lo + i + 1)) as nat);
    }
    assert forall|i: int| 0 <= i < c.len() implies #[trigger] c[i] < n by {
        assert(c[i] == s[lo + i]);
    }
    assert(is_walk(g, c));
    assert(c[0] == c[c.len() - 1]);
}

/// In an order that respects every edge, positions strictly increase along
/// a walk.
proof fn lemma_walk_positions(g: &AdjacencyList, order: Seq<usize>, w: Seq<usize>, k: int)
    requires
        is_node_permutation(g, order),
        respects_edges(g, order),
        is_walk(g, w),
        0 < k < w.len(),
    ensures
        order.index_of(w[0]) < order.index_of(w[k]),
    decreases k,
{
    lemma_permutation_contains(g, order, w[k]);
    lemma_permutation_contains(g, order, w[k - 1]);
    let pk = order.index_of(w[k]);
    let pj = order.index_of(w[k - 1]);
    assert(has_edge(g, w[k - 1], w[k]));
    assert(has_edge(g, w[k - 1], order[pk]));
    let q = choose|q: int| 0 <= q < pk && order[q] == w[k - 1];
    assert(q == pj) by {
        if q != pj {
            assert(order[q] == order[pj]);
        }
    }
    if k > 1 {
        lemma_walk_positions(g, order, w, k - 1);
    }
}

proof fn lemma_permutation_contains(g: &AdjacencyList, order: Seq<usize>, x: usize)
    requires
        is_node_permutation(g, order),
        x < g.names().len(),
    ensures
        order.contains(x),
        0 <= order.index_of(x) < order.len(),
        order[order.index_of(x)] == x,
{
    if !order.contains(x) {
        let all = Seq::new(g.names().len(), |i: int| i as usize);
        let ext = order.push(x);
        lemma_push_contains(order, x);
        assert(ext.no_duplicates()) by {
            assert forall|a: int, b: int| 0 <= a < b < ext.len() implies ext[a] != ext[b] by {
                if b == ext.len() - 1 {
                    assert(ext[a] == order[a]);
                }
            }
        }
        assert forall|i: int| 0 <= i < ext.len() implies #[trigger] ext[i] < g.names().len() by {
            if i < order.len() {
                assert(ext[i] == order[i]);
            }
        }
        lemma_distinct_bounded(ext, g.names().len());
    }
    order.index_of_first_ensures(x);
}

/// A node order that respects every edge rules out cycles.
pub proof fn lemma_topological_order_acyclic(g: &AdjacencyList, order: Seq<usize>)
    requires
        is_node_permutation(g, order),
        respects_edges(g, order),
    ensures
        !has_directed_cycle(g),
{
    if has_directed_cycle(g) {
        let w = choose|w: Seq<usize>| #[trigger] is_walk(g, w) && w.len() >= 2 && w[0] == w[w.len() - 1];
        lemma_walk_positions(g, order, w, w.len() - 1);
    }
}

/// Topological sort (Kahn's algorithm: zero in-degree nodes queued by name,
/// successors released in name order).  Fails exactly when the graph has a
/// directed cycle.
pub fn topological_sort(graph: &AdjacencyList) -> (r: FoundationResult<Vec<String>>)
    ensures
        r is Ok <==> !has_directed_cycle(graph),
        r is Ok <==> kahn_order(graph).len() == graph.names().len(),
        r matches Ok(v) ==> string_views(v@) == names_of(graph, kahn_order(graph)),
        r matches Ok(v) ==> is_node_permutation(graph, kahn_order(graph)) && respects_edges(graph, kahn_order(graph)),
        r is Err ==> is_validation_failed(r, "graph contains a cycle; topological sort not possible"@),
{
    graph.model_facts();
    let order = kahn(graph);
    if order.len() != graph.node_count() {
        proof {
            lemma_distinct_bounded(order@, graph.names().len());
        }
        return Err(FoundationError::ValidationFailed(to_owned_string(
            "graph contains a cycle; topological sort not possible",
        )));
    }
    proof {
        lemma_topological_order_acyclic(graph, order@);
    }
    Ok(node_names(graph, &order))
}

/// Whether the directed graph has a cycle.
pub fn has_cycle(graph: &AdjacencyList) -> (b: bool)
    ensures
        b == has_directed_cycle(graph),
{
    graph.model_facts();
    let order = kahn(graph);
    if order.len() == graph.node_count() {
        proof {
            lemma_topological_order_acyclic(graph, order@);
        }
        false
    } else {
        proof {
            lemma_distinct_bounded(order@, graph.names().len());
        }
        true
    }
}


// ---------------------------------------------------------------------------
// Degrees and path reconstruction
// ---------------------------------------------------------------------------

/// The out-degree of every node, keyed by node name.
pub fn node_degrees(graph: &AdjacencyList) -> (r: OrderedMap<usize>)
    ensures
        forall|k: Seq<char>| #[trigger] r@.contains_key(k) <==> graph.names().contains(k),
        forall|i: int| 0 <= i < graph.names().len() ==> #[trigger] r@[graph.names()[i]] == graph.adj()[i].len(),
{
    graph.model_facts();
    let n = graph.node_count();
    let mut m: OrderedMap<usize> = OrderedMap::new();
    let mut i: usize = 0;
    while i < n
        invariant
            n == graph.names().len(),
            graph_model_ok(graph.names(), graph.adj()),
            i <= n,
            forall|k: Seq<char>| #[trigger] m@.contains_key(k) <==> graph.names().subrange(0, i as int).contains(k),
            forall|j: int| 0 <= j < i ==> #[trigger] m@[graph.names()[j]] == graph.adj()[j].len(),
        decreases n - i,
    {
        let name = to_owned_string(graph.node_name(i));
        let d = graph.neighbors_idx(i).len();
        let ghost before = m@;
        m.insert(name, d);
        proof {
            let sub = graph.names().subrange(0, i + 1);
            assert(sub =~= graph.names().subrange(0, i as int).push(graph.names()[i as int]));
            assert forall|k: Seq<char>| #[trigger] m@.contains_key(k) <==> sub.contains(k) by {
                if sub.contains(k) {
                    let w = choose|w: int| 0 <= w < sub.len() && sub[w] == k;
                    if w < i {
                        assert(graph.names().subrange(0, i as int)[w] == k);
                    }
                }
                if graph.names().subrange(0, i as int).contains(k) {
                    let w = choose|w: int| 0 <= w < i && graph.names().subrange(0, i as int)[w] == k;
                    assert(sub[w] == k);
                }
                if k == graph.names()[i as int] {
                    assert(sub[i as int] == k);
                }
            }
            assert forall|j: int| 0 <= j < i + 1 implies #[trigger] m@[graph.names()[j]] == graph.adj()[j].len() by {
                if j < i {
                    assert(graph.names()[j] != graph.names()[i as int]);
                }
            }
        }
        i = i + 1;
    }
    assert(graph.names().subrange(0, n as int) =~= graph.names());
    m
}

/// Whether following predecessors from `cur` reaches `source` or a node
/// without predecessor within `fuel` steps.
pub open spec fn pred_chain_ends(pred: Map<Seq<char>, String>, source: Seq<char>, cur: Seq<char>, fuel: nat) -> bool
    decreases fuel,
{
    cur == source || !pred.contains_key(cur) || (fuel > 0 && pred_chain_ends(pred, source, pred[cur]@, (fuel - 1) as nat))
}

/// The path from `source` to `cur` read off the predecessor map, if the
/// chain of predecessors from `cur` reaches `source` within `fuel` steps.
pub open spec fn pred_path(pred: Map<Seq<char>, String>, source: Seq<char>, cur: Seq<char>, fuel: nat) -> Option<Seq<Seq<char>>>
    decreases fuel,
{
    if cur == source {
        Some(seq![source])
    } else if !pred.contains_key(cur) || fuel == 0 {
        None
    } else {
        match pred_path(pred, source, pred[cur]@, (fuel - 1) as nat) {
            Some(p) => Some(p.push(cur)),
            None => None,
        }
    }
}

/// A path read off the predecessor map starts at `source`, ends at `cur`,
/// and each node after the first has the node before it as predecessor.
pub proof fn lemma_pred_path_chain(pred: Map<Seq<char>, String>, source: Seq<char>, cur: Seq<char>, fuel: nat)
    ensures
        pred_path(pred, source, cur, fuel) matches Some(p) ==> {
            &&& p.len() >= 1
            &&& p[0] == source
            &&& p[p.len() - 1] == cur
            &&& forall|i: int| 0 <= i < p.len() - 1 ==> pred.contains_key(#[trigger] p[i + 1]) && pred[p[i + 1]]@ == p[i]
        },
    decreases fuel,
{
    if cur != source && pred.contains_key(cur) && fuel > 0 {
        let prev = pred[cur]@;
        lemma_pred_path_chain(pred, source, prev, (fuel - 1) as nat);
        if let Some(q) = pred_path(pred, source, prev, (fuel - 1) as nat) {
            let p = q.push(cur);
            assert forall|i: int| 0 <= i < p.len() - 1 implies pred.contains_key(#[trigger] p[i + 1]) && pred[p[i + 1]]@ == p[i] by {
                if i < q.len() - 1 {
                    assert(p[i + 1] == q[i + 1] && p[i] == q[i]);
                } else {
                    assert(p[i + 1] == cur && p[i] == q[q.len() - 1]);
                }
            }
        }
    }
}

proof fn lemma_pred_fuel(pred: Map<Seq<char>, String>, source: Seq<char>, cur: Seq<char>, f: nat, f2: nat)
    requires
        pred_chain_ends(pred, source, cur, f),
        f <= f2,
    ensures
        pred_chain_ends(pred, source, cur, f2),
        pred_path(pred, source, cur, f) == pred_path(pred, source, cur, f2),
    decreases f,
{
    if cur != source && pred.contains_key(cur) {
        lemma_pred_fuel(pred, source, pred[cur]@, (f - 1) as nat, (f2 - 1) as nat);
    }
}

/// The path `[source, ..., target]` recorded in a predecessor map (as
/// produced by Dijkstra), or `None` when the chain from `target` ends
/// without reaching `source`.  The chain must end (it loops forever when
/// the predecessors form a cycle avoiding `source`).
pub fn reconstruct_path(predecessors: &OrderedMap<String>, source: &str, target: &str) -> (r: Option<Vec<String>>)
    requires
        exists|f: nat| pred_chain_ends(predecessors@, source@, target@, f),
    ensures
        forall|f: nat| pred_chain_ends(predecessors@, source@, target@, f) ==> (
            match pred_path(predecessors@, source@, target@, f) {
                Some(p) => r matches Some(v) && string_seq_view(v@) == p,
                None => r is None,
            }
        ),
{
    let ghost pm = predecessors@;
    let ghost fuel0: nat = choose|f: nat| pred_chain_ends(pm, source@, target@, f);
    proof {
        assert forall|f: nat| pred_chain_ends(pm, source@, target@, f) implies
            pred_path(pm, source@, target@, f) == pred_path(pm, source@, target@, fuel0) by {
            if f <= fuel0 {
                lemma_pred_fuel(pm, source@, target@, f, fuel0);
            } else {
                lemma_pred_fuel(pm, source@, target@, fuel0, f);
            }
        }
    }
    let mut back: Vec<String> = Vec::new();
    let mut current = to_owned_string(target);
    let ghost mut fl: nat = fuel0;
    while !str_equal(current.as_str(), source)
        invariant
            pm == predecessors@,
            forall|f: nat| pred_chain_ends(pm, source@, target@, f)
                ==> pred_path(pm, source@, target@, f) == pred_path(pm, source@, target@, fuel0),
            pred_chain_ends(pm, source@, current@, fl),
            pred_path(pm, source@, target@, fuel0) == match pred_path(pm, source@, current@, fl) {
                Some(p) => Some(p + string_seq_view(back@).reverse()),
                None => None::<Seq<Seq<char>>>,
            },
        decreases fl,
    {
        let ghost cur = current@;
        let ghost bk = back@;
        match predecessors.get(current.as_str()) {
            Some(prev) => {
                let next = prev.clone();
                back.push(current);
                proof {
                    let nb = string_seq_view(back@);
                    assert(nb =~= string_seq_view(bk).push(cur));
                    assert(nb.reverse() =~= seq![cur] + string_seq_view(bk).reverse());
                    match pred_path(pm, source@, next@, (fl - 1) as nat) {
                        Some(p) => {
                            assert(p.push(cur) + string_seq_view(bk).reverse() =~= p + nb.reverse());
                        },
                        None => {},
                    }
                }
                current = next;
                proof {
                    fl = (fl - 1) as nat;
                }
            },
            None => {
                proof {
                    assert(!pm.contains_key(cur));
                    assert(pred_path(pm, source@, cur, fl) is None);
                    assert(pred_path(pm, source@, target@, fuel0) is None);
                }
                return None;
            },
        }
    }
    back.push(current);
    let mut out: Vec<String> = Vec::new();
    let mut k: usize = back.len();
    while k > 0
        invariant
            k <= back@.len(),
            string_seq_view(out@) == string_seq_view(back@).reverse().subrange(0, (back@.len() - k) as int),
        decreases k,
    {
        k = k - 1;
        let s = back[k].clone();
        let ghost before = out@;
        out.push(s);
        proof {
            let full = string_seq_view(back@).reverse();
            assert(string_seq_view(out@) =~= full.subrange(0, (back@.len() - k) as int)) by {
                assert(string_seq_view(out@) =~= string_seq_view(before).push(s@));
                assert(full[(back@.len() - k - 1) as int] == string_seq_view(back@)[k as int]);
            }
        }
    }
    proof {
        let full = string_seq_view(back@).reverse();
        assert(full.subrange(0, back@.len() as int) =~= full);
        assert(string_seq_view(back@).reverse() =~= seq![source@] + string_seq_view(back@.drop_last()).reverse()) by {
            assert(string_seq_view(back@) =~= string_seq_view(back@.drop_last()).push(source@));
        }
    }
    Some(out)
}


// ---------------------------------------------------------------------------
// Connected components
// ---------------------------------------------------------------------------

/// A walk along edges from `a` to `b` through nodes none of which is flagged.
pub open spec fn reaches_avoiding(g: &AdjacencyList, flags: Seq<bool>, a: usize, b: usize) -> bool {
    exists|w: Seq<usize>| #[trigger] is_walk(g, w) && w[0] == a && w[w.len() - 1] == b
        && forall|i: int| 0 <= i < w.len() ==> !flags[#[trigger] w[i] as int]
}

/// The flags of the nodes `0..n` that lie in one of the first `k` lists.
pub open spec fn covered_flags(comps: Seq<Seq<usize>>, k: int, n: nat) -> Seq<bool> {
    Seq::new(n, |x: int| exists|kk: int| 0 <= kk < k && #[trigger] comps[kk].contains(x as usize))
}

/// A component as collected: distinct nodes sorted by name, holding exactly
/// the nodes its first node reaches along edges without passing a flagged
/// node.
pub open spec fn component_ok(g: &AdjacencyList, c: Seq<usize>, flags: Seq<bool>) -> bool {
    &&& c.len() >= 1
    &&& c.no_duplicates()
    &&& forall|i: int| 0 <= i < c.len() ==> #[trigger] c[i] < g.names().len()
    &&& sorted_by(c, name_order(g.names()))
    &&& forall|x: usize| #[trigger] c.contains(x) <==> (x < g.names().len() && reaches_avoiding(g, flags, c[0], x))
}

/// Whether one of the lists holds `x`.
pub open spec fn in_some(comps: Seq<Seq<usize>>, x: usize) -> bool {
    exists|kk: int| 0 <= kk < comps.len() && (#[trigger] comps[kk]).contains(x)
}

/// How the components are laid out: the nodes are taken in name order, and
/// each node not yet in a component starts the next one, which holds the
/// nodes it reaches along edges through nodes of no earlier component.
/// Each component is sorted by name; together they cover every node; their
/// first nodes ascend by name.
pub open spec fn components_layout(g: &AdjacencyList, comps: Seq<Seq<usize>>) -> bool {
    &&& forall|kk: int| 0 <= kk < comps.len()
        ==> component_ok(g, #[trigger] comps[kk], covered_flags(comps, kk, g.names().len()))
    &&& forall|kk: int, x: usize| 0 <= kk < comps.len() && x < g.names().len()
        && !#[trigger] covered_flags(comps, kk, g.names().len())[x as int]
        ==> name_leq(g.names(), (#[trigger] comps[kk])[0], x)
    &&& forall|x: usize| x < g.names().len() ==> #[trigger] in_some(comps, x)
    &&& forall|k1: int, k2: int| 0 <= k1 < k2 < comps.len()
        ==> name_leq(g.names(), (#[trigger] comps[k1])[0], (#[trigger] comps[k2])[0]) && comps[k1][0] != comps[k2][0]
}

/// Whether every edge of the graph has a reverse edge (an undirected graph
/// stored as pairs of directed edges).
pub open spec fn is_symmetric(g: &AdjacencyList) -> bool {
    forall|a: usize, b: usize| #[trigger] has_edge(g, a, b) ==> has_edge(g, b, a)
}

/// Whether a walk along edges leads from `a` to `b`.
pub open spec fn reaches(g: &AdjacencyList, a: usize, b: usize) -> bool {
    exists|w: Seq<usize>| #[trigger] is_walk(g, w) && w[0] == a && w[w.len() - 1] == b
}

/// In an undirected graph the reverse of a walk is a walk.
proof fn lemma_reverse_walk(g: &AdjacencyList, w: Seq<usize>)
    requires
        is_symmetric(g),
        is_walk(g, w),
    ensures
        is_walk(g, w.reverse()),
{
    let r = w.reverse();
    assert forall|i: int| 0 <= i < r.len() - 1 implies has_edge(g, #[trigger] r[i], r[i + 1]) by {
        let j = w.len() - 2 - i;
        assert(has_edge(g, w[j], w[j + 1]));
        assert(r[i] == w[j + 1] && r[i + 1] == w[j]);
    }
    assert forall|i: int| 0 <= i < r.len() implies #[trigger] r[i] < g.names().len() by {
        assert(r[i] == w[w.len() - 1 - i]);
    }
}

/// Two walks avoiding the flags, the second starting where the first ends,
/// join into one.
proof fn lemma_join_avoiding(g: &AdjacencyList, f: Seq<bool>, w1: Seq<usize>, w2: Seq<usize>)
    requires
        is_walk(g, w1),
        is_walk(g, w2),
        w1[w1.len() - 1] == w2[0],
        forall|i: int| 0 <= i < w1.len() ==> !f[#[trigger] w1[i] as int],
        forall|i: int| 0 <= i < w2.len() ==> !f[#[trigger] w2[i] as int],
    ensures
        reaches_avoiding(g, f, w1[0], w2[w2.len() - 1]),
{
    let w = w1 + w2.drop_first();
    assert forall|i: int| 0 <= i < w.len() implies #[trigger] w[i] < g.names().len() && !f[w[i] as int] by {
        if i < w1.len() {
            assert(w[i] == w1[i]);
        } else {
            assert(w[i] == w2[i - w1.len() + 1]);
        }
    }
    assert forall|i: int| 0 <= i < w.len() - 1 implies has_edge(g, #[trigger] w[i], w[i + 1]) by {
        if i < w1.len() - 1 {
            assert(w[i] == w1[i] && w[i + 1] == w1[i + 1]);
        } else if i == w1.len() - 1 {
            assert(w[i] == w2[0]);
            assert(w[i + 1] == w2[1]);
        } else {
            assert(w[i] == w2[i - w1.len() + 1] && w[i + 1] == w2[i - w1.len() + 2]);
        }
    }
    if w2.len() == 1 {
        assert(w =~= w1);
    } else {
        assert(w[w.len() - 1] == w2[w2.len() - 1]);
    }
    assert(is_walk(g, w));
}

/// In an undirected graph, if a walk from `h` through nodes of no component
/// before `kk` reaches a node of an earlier component `j`, then `h` lies in
/// component `j` too.
proof fn lemma_back_to_earlier(g: &AdjacencyList, comps: Seq<Seq<usize>>, kk: int, j: int, w: Seq<usize>, k: int)
    requires
        is_symmetric(g),
        0 <= j < kk <= comps.len(),
        component_ok(g, comps[j], covered_flags(comps, j, g.names().len())),
        is_walk(g, w),
        0 <= k < w.len(),
        forall|i: int| 0 <= i < k ==> !covered_flags(comps, kk, g.names().len())[#[trigger] w[i] as int],
        comps[j].contains(w[k]),
    ensures
        comps[j].contains(w[0]),
{
    let n = g.names().len();
    let f = covered_flags(comps, kk, n);
    let fj = covered_flags(comps, j, n);
    let y = w[k];
    let wj = choose|v: Seq<usize>| #[trigger] is_walk(g, v) && v[0] == comps[j][0] && v[v.len() - 1] == y
        && forall|i: int| 0 <= i < v.len() ==> !fj[#[trigger] v[i] as int];
    let pre = w.subrange(0, k + 1);
    assert(is_walk(g, pre)) by {
        assert forall|i: int| 0 <= i < k implies has_edge(g, #[trigger] pre[i], pre[i + 1]) by {
            assert(has_edge(g, w[i], w[i + 1]));
        }
        assert forall|i: int| 0 <= i < pre.len() implies #[trigger] pre[i] < n by {
            assert(pre[i] == w[i]);
        }
    }
    lemma_reverse_walk(g, pre);
    let back = pre.reverse();
    assert(back[0] == y);
    assert(back[back.len() - 1] == w[0]);
    assert forall|i: int| 0 <= i < back.len() implies !fj[#[trigger] back[i] as int] by {
        let bi = back[i];
        assert(bi == w[k - i]);
        assert(bi < n);
        if i == 0 {
            assert(bi == y);
        } else if fj[bi as int] {
            let j2 = choose|j2: int| 0 <= j2 < j && #[trigger] comps[j2].contains((bi as int) as usize);
            assert(!f[w[k - i] as int]);
            assert(f[bi as int]);
        }
    }
    lemma_join_avoiding(g, fj, wj, back);
}

/// Along a walk from the first node of component `kk` of an undirected
/// graph, no node lies in an earlier component.
proof fn lemma_walk_uncovered(g: &AdjacencyList, comps: Seq<Seq<usize>>, kk: int, w: Seq<usize>, k: int)
    requires
        is_symmetric(g),
        0 <= kk < comps.len(),
        forall|j: int| 0 <= j < kk ==> component_ok(g, #[trigger] comps[j], covered_flags(comps, j, g.names().len())),
        is_walk(g, w),
        !covered_flags(comps, kk, g.names().len())[w[0] as int],
        0 <= k < w.len(),
    ensures
        forall|i: int| 0 <= i <= k ==> !covered_flags(comps, kk, g.names().len())[#[trigger] w[i] as int],
    decreases k,
{
    let n = g.names().len();
    let f = covered_flags(comps, kk, n);
    if k > 0 {
        lemma_walk_uncovered(g, comps, kk, w, k - 1);
        let y = w[k];
        assert(y < n);
        if f[y as int] {
            let j = choose|j: int| 0 <= j < kk && #[trigger] comps[j].contains((y as int) as usize);
            lemma_back_to_earlier(g, comps, kk, j, w, k);
            assert(w[0] < n);
            assert(comps[j].contains((w[0] as int) as usize));
            assert(f[w[0] as int]);
        }
    }
}

/// In an undirected graph (every edge paired with its reverse) a node lies
/// in a component exactly when the component's first node reaches it: the
/// components are the classes of mutual reachability.
pub proof fn lemma_undirected_components(g: &AdjacencyList, comps: Seq<Seq<usize>>, kk: int, x: usize)
    requires
        is_symmetric(g),
        components_layout(g, comps),
        0 <= kk < comps.len(),
        x < g.names().len(),
    ensures
        comps[kk].contains(x) <==> reaches(g, comps[kk][0], x),
{
    let n = g.names().len();
    let f = covered_flags(comps, kk, n);
    assert(component_ok(g, comps[kk], f));
    if comps[kk].contains(x) {
        let w = choose|v: Seq<usize>| #[trigger] is_walk(g, v) && v[0] == comps[kk][0] && v[v.len() - 1] == x
            && forall|i: int| 0 <= i < v.len() ==> !f[#[trigger] v[i] as int];
        assert(reaches(g, comps[kk][0], x));
    }
    if reaches(g, comps[kk][0], x) {
        let w = choose|v: Seq<usize>| #[trigger] is_walk(g, v) && v[0] == comps[kk][0] && v[v.len() - 1] == x;
        let h = comps[kk][0];
        assert(comps[kk].contains(h));
        let hw = choose|v: Seq<usize>| #[trigger] is_walk(g, v) && v[0] == h && v[v.len() - 1] == h
            && forall|i: int| 0 <= i < v.len() ==> !f[#[trigger] v[i] as int];
        assert(!f[hw[0] as int]);
        assert forall|j: int| 0 <= j < kk implies component_ok(g, #[trigger] comps[j], covered_flags(comps, j, n)) by {}
        lemma_walk_uncovered(g, comps, kk, w, w.len() - 1);
        assert forall|i: int| 0 <= i < w.len() implies !f[#[trigger] w[i] as int] by {}
        assert(reaches_avoiding(g, f, comps[kk][0], x));
    }
}

proof fn lemma_ra_refl(g: &AdjacencyList, f: Seq<bool>, a: usize)
    requires
        a < g.names().len(),
        !f[a as int],
    ensures
        reaches_avoiding(g, f, a, a),
{
    let w = seq![a];
    assert(is_walk(g, w));
    assert forall|i: int| 0 <= i < w.len() implies !f[#[trigger] w[i] as int] by {}
}

proof fn lemma_ra_step(g: &AdjacencyList, f: Seq<bool>, a: usize, b: usize, c: usize)
    requires
        reaches_avoiding(g, f, a, b),
        has_edge(g, b, c),
        c < g.names().len(),
        !f[c as int],
    ensures
        reaches_avoiding(g, f, a, c),
{
    let w = choose|w: Seq<usize>| #[trigger] is_walk(g, w) && w[0] == a && w[w.len() - 1] == b
        && forall|i: int| 0 <= i < w.len() ==> !f[#[trigger] w[i] as int];
    let w2 = w.push(c);
    assert forall|i: int| 0 <= i < w2.len() - 1 implies has_edge(g, #[trigger] w2[i], w2[i + 1]) by {
        if i < w.len() - 1 {
            assert(w2[i] == w[i] && w2[i + 1] == w[i + 1]);
        }
    }
    assert forall|i: int| 0 <= i < w2.len() implies #[trigger] w2[i] < g.names().len() && !f[w2[i] as int] by {
        if i < w.len() {
            assert(w2[i] == w[i]);
        }
    }
    assert(is_walk(g, w2));
}

/// A walk from a collected node that avoids the flags stays in the
/// collection, when the collection is closed under edges to unflagged nodes.
proof fn lemma_walk_in_comp(g: &AdjacencyList, v0: Seq<bool>, comp: Seq<usize>, w: Seq<usize>, k: int)
    requires
        is_walk(g, w),
        comp.contains(w[0]),
        forall|i: int| 0 <= i < w.len() ==> !v0[#[trigger] w[i] as int],
        forall|x: usize, y: usize| #[trigger] comp.contains(x) && #[trigger] has_edge(g, x, y) && !v0[y as int]
            ==> comp.contains(y),
        0 <= k < w.len(),
    ensures
        comp.contains(w[k]),
    decreases k,
{
    if k > 0 {
        lemma_walk_in_comp(g, v0, comp, w, k - 1);
        assert(has_edge(g, w[k - 1], w[k]));
        assert(!v0[w[k] as int]);
    }
}

/// Collects the nodes `u` reaches along edges through unvisited nodes,
/// marking them visited.  `u` must be unvisited.
fn collect_component(g: &AdjacencyList, u: usize, visited: &mut Vec<bool>) -> (comp: Vec<usize>)
    requires
        graph_model_ok(g.names(), g.adj()),
        u < g.names().len(),
        old(visited)@.len() == g.names().len(),
        !old(visited)@[u as int],
    ensures
        final(visited)@.len() == g.names().len(),
        comp@.len() >= 1,
        comp@[0] == u,
        comp@.no_duplicates(),
        forall|i: int| 0 <= i < comp@.len() ==> #[trigger] comp@[i] < g.names().len(),
        forall|x: usize| #[trigger] comp@.contains(x) <==> (x < g.names().len()
            && reaches_avoiding(g, old(visited)@, u, x)),
        forall|x: usize| x < g.names().len() ==> (#[trigger] final(visited)@[x as int] <==> (old(visited)@[x as int] || comp@.contains(x))),
        forall|x: usize| comp@.contains(x) ==> !(#[trigger] old(visited)@[x as int]),
{
    let ghost n = g.names().len();
    let ghost v0 = visited@;
    visited.set(u, true);
    let mut comp: Vec<usize> = Vec::new();
    comp.push(u);
    proof {
        lemma_ra_refl(g, v0, u);
        lemma_push_contains(Seq::<usize>::empty(), u);
        assert(comp@ =~= Seq::<usize>::empty().push(u));
    }
    let mut head: usize = 0;
    while head < comp.len()
        invariant
            graph_model_ok(g.names(), g.adj()),
            n == g.names().len(),
            u < n,
            v0.len() == n,
            visited@.len() == n,
            comp@.len() >= 1,
            comp@[0] == u,
            head <= comp@.len(),
            comp@.no_duplicates(),
            forall|i: int| 0 <= i < comp@.len() ==> #[trigger] comp@[i] < n,
            forall|x: usize| #[trigger] comp@.contains(x) ==> reaches_avoiding(g, v0, u, x) && !v0[x as int],
            forall|x: usize| x < n ==> (#[trigger] visited@[x as int] <==> (v0[x as int] || comp@.contains(x))),
            forall|i: int, y: usize| 0 <= i < head && y < n && #[trigger] has_edge(g, comp@[i], y) ==> visited@[y as int],
        decreases n - head,
    {
        proof {
            lemma_distinct_bounded(comp@, n);
        }
        let c = comp[head];
        assert(comp@.contains(c));
        let xs = g.sorted_successors(c);
        let mut t: usize = 0;
        while t < xs.len()
            invariant
                graph_model_ok(g.names(), g.adj()),
                n == g.names().len(),
                v0.len() == n,
                visited@.len() == n,
                head < comp@.len(),
                comp@[head as int] == c,
                comp@.len() >= 1,
                comp@[0] == u,
                reaches_avoiding(g, v0, u, c),
                c < n,
                xs@ == g.succ(c as int),
                forall|k: int| 0 <= k < xs@.len() ==> #[trigger] xs@[k] < n,
                t <= xs@.len(),
                comp@.no_duplicates(),
                forall|i: int| 0 <= i < comp@.len() ==> #[trigger] comp@[i] < n,
                forall|x: usize| #[trigger] comp@.contains(x) ==> reaches_avoiding(g, v0, u, x) && !v0[x as int],
                forall|x: usize| x < n ==> (#[trigger] visited@[x as int] <==> (v0[x as int] || comp@.contains(x))),
                forall|i: int, y: usize| 0 <= i < head && y < n && #[trigger] has_edge(g, comp@[i], y) ==> visited@[y as int],
                forall|j: int| 0 <= j < t ==> #[trigger] visited@[xs@[j] as int],
            decreases xs.len() - t,
        {
            let y = xs[t];
            if !visited[y] {
                let ghost before = comp@;
                visited.set(y, true);
                comp.push(y);
                proof {
                    lemma_push_contains(before, y);
                    assert(!before.contains(y));
                    assert(comp@.no_duplicates()) by {
                        assert forall|a: int, b: int| 0 <= a < b < comp@.len() implies comp@[a] != comp@[b] by {
                            if b == comp@.len() - 1 {
                                assert(comp@[a] == before[a]);
                            } else {
                                assert(comp@[a] == before[a] && comp@[b] == before[b]);
                            }
                        }
                    }
                    assert(xs@.contains(y));
                    assert(has_edge(g, c, y));
                    lemma_ra_step(g, v0, u, c, y);
                    assert forall|i: int, z: usize| 0 <= i < head && z < n && #[trigger] has_edge(g, comp@[i], z)
                        implies visited@[z as int] by {
                        assert(comp@[i] == before[i]);
                    }
                    assert forall|i: int| 0 <= i < comp@.len() implies #[trigger] comp@[i] < n by {
                        if i < before.len() {
                            assert(comp@[i] == before[i]);
                        }
                    }
                }
            }
            t = t + 1;
        }
        proof {
            assert forall|i: int, y: usize| 0 <= i < head + 1 && y < n && #[trigger] has_edge(g, comp@[i], y)
                implies visited@[y as int] by {
                if i == head {
                    assert(g.succ(c as int).contains(y));
                    let j = choose|j: int| 0 <= j < xs@.len() && xs@[j] == y;
                    assert(visited@[xs@[j] as int]);
                }
            }
        }
        head = head + 1;
    }
    proof {
        assert forall|x: usize, y: usize| #[trigger] comp@.contains(x) && #[trigger] has_edge(g, x, y) && !v0[y as int]
            implies comp@.contains(y) by {
            let i = choose|i: int| 0 <= i < comp@.len() && comp@[i] == x;
            assert(has_edge(g, comp@[i], y));
            assert(y < n) by {
                assert(g.succ(x as int).contains(y));
                lemma_succ_len(g, x as int);
            }
        }
        assert forall|x: usize| #[trigger] comp@.contains(x) <==> (x < n && reaches_avoiding(g, v0, u, x)) by {
            if x < n && reaches_avoiding(g, v0, u, x) {
                let w = choose|w: Seq<usize>| #[trigger] is_walk(g, w) && w[0] == u && w[w.len() - 1] == x
                    && forall|i: int| 0 <= i < w.len() ==> !v0[#[trigger] w[i] as int];
                assert(comp@.contains(w[0]));
                lemma_walk_in_comp(g, v0, comp@, w, w.len() - 1);
            }
            if comp@.contains(x) {
                let i = choose|i: int| 0 <= i < comp@.len() && comp@[i] == x;
                assert(comp@[i] < n);
            }
        }
    }
    comp
}

/// The connected components as the traversal finds them: nodes are taken
/// in name order, and each node not yet in a component starts a new one,
/// holding the nodes it reaches along (outgoing) edges through nodes not yet
/// in a component.  Each component lists its node names in ascending order,
/// and the components come in ascending order of their first names.  On an
/// undirected graph (every edge paired with its reverse) these are the
/// usual connected components.
pub fn connected_components(graph: &AdjacencyList) -> (r: Vec<Vec<String>>)
    ensures
        exists|comps: Seq<Seq<usize>>| #[trigger] components_layout(graph, comps)
            && r@.len() == comps.len()
            && forall|k: int| 0 <= k < comps.len() ==> string_views((#[trigger] r@[k])@) == names_of(graph, comps[k]),
{
    graph.model_facts();
    let n = graph.node_count();
    let ghost nv = graph.names();
    let mut by_name: Vec<usize> = Vec::new();
    let mut i: usize = 0;
    while i < n
        invariant
            i <= n,
            by_name@.len() == i,
            forall|j: int| 0 <= j < i ==> #[trigger] by_name@[j] == j,
        decreases n - i,
    {
        by_name.push(i);
        i = i + 1;
    }
    let ghost all = by_name@;
    graph.sort_node_indices(&mut by_name);
    proof {
        assert(all.no_duplicates());
        all.lemma_multiset_has_no_duplicates();
        by_name@.lemma_multiset_has_no_duplicates_conv();
        assert forall|x: usize| #[trigger] by_name@.contains(x) <==> x < n by {
            vstd::seq_lib::to_multiset_contains(by_name@, x);
            vstd::seq_lib::to_multiset_contains(all, x);
            if x < n {
                assert(all[x as int] == x);
            }
        }
        vstd::seq_lib::to_multiset_len(by_name@);
        vstd::seq_lib::to_multiset_len(all);
        lemma_name_order_total(nv);
    }
    let mut visited: Vec<bool> = Vec::new();
    let mut k: usize = 0;
    while k < n
        invariant
            k <= n,
            visited@.len() == k,
            forall|j: int| 0 <= j < k ==> !visited@[j],
        decreases n - k,
    {
        visited.push(false);
        k = k + 1;
    }
    let mut comps: Vec<Vec<usize>> = Vec::new();
    let ghost mut cs: Seq<Seq<usize>> = Seq::empty();
    assert(visited@ =~= covered_flags(cs, 0, n as nat));
    let mut p: usize = 0;
    while p < n
        invariant
            graph_model_ok(graph.names(), graph.adj()),
            nv == graph.names(),
            n == nv.len(),
            p <= n,
            by_name@.len() == n,
            by_name@.no_duplicates(),
            forall|x: usize| #[trigger] by_name@.contains(x) <==> x < n,
            sorted_by(by_name@, name_order(nv)),
            vstd::relations::total_ordering(name_order(nv)),
            cs.len() == comps@.len(),
            forall|kk: int| 0 <= kk < cs.len() ==> #[trigger] comps@[kk]@ == cs[kk],
            visited@ == covered_flags(cs, cs.len() as int, n as nat),
            forall|q: int| 0 <= q < p ==> #[trigger] visited@[by_name@[q] as int],
            forall|kk: int| 0 <= kk < cs.len()
                ==> component_ok(graph, #[trigger] cs[kk], covered_flags(cs, kk, n as nat)),
            forall|kk: int, x: usize| 0 <= kk < cs.len() && x < n
                && !#[trigger] covered_flags(cs, kk, n as nat)[x as int]
                ==> name_leq(nv, (#[trigger] cs[kk])[0], x),
        decreases n - p,
    {
        let u = by_name[p];
        proof {
            assert(by_name@.contains(u));
        }
        let ghost v_start = visited@;
        if !visited[u] {
            let ghost vb = visited@;
            let comp = collect_component(graph, u, &mut visited);
            let mut sorted = comp;
            let ghost unsorted = sorted@;
            graph.sort_node_indices(&mut sorted);
            proof {
                lemma_sorted_component(graph, unsorted, sorted@, u, vb, by_name@, p as int);
            }
            let ghost before = cs;
            comps.push(sorted);
            proof {
                cs = before.push(sorted@);
                lemma_components_step(graph, before, cs, vb, visited@, u, by_name@, p as int);
                assert forall|kk: int| 0 <= kk < cs.len() implies #[trigger] comps@[kk]@ == cs[kk] by {
                    if kk < before.len() {
                        assert(comps@[kk]@ == before[kk]);
                    }
                }
            }
        }
        proof {
            assert forall|q: int| 0 <= q < p + 1 implies #[trigger] visited@[by_name@[q] as int] by {
                assert(by_name@.contains(by_name@[q]));
                if q < p {
                    assert(v_start[by_name@[q] as int]);
                }
            }
        }
        p = p + 1;
    }
    let mut out: Vec<Vec<String>> = Vec::new();
    let mut c: usize = 0;
    while c < comps.len()
        invariant
            c <= comps@.len(),
            out@.len() == c,
            cs.len() == comps@.len(),
            forall|kk: int| 0 <= kk < cs.len() ==> #[trigger] comps@[kk]@ == cs[kk],
            forall|kk: int| 0 <= kk < cs.len()
                ==> component_ok(graph, #[trigger] cs[kk], covered_flags(cs, kk, n as nat)),
            forall|kk: int| 0 <= kk < c ==> string_views((#[trigger] out@[kk])@) == names_of(graph, cs[kk]),
        decreases comps.len() - c,
    {
        assert(comps@[c as int]@ == cs[c as int]);
        let names = node_names(graph, &comps[c]);
        out.push(names);
        c = c + 1;
    }
    proof {
        assert forall|x: usize| x < n implies #[trigger] in_some(cs, x) by {
            assert(by_name@.contains(x));
            let q = choose|q: int| 0 <= q < by_name@.len() && by_name@[q] == x;
            assert(visited@[by_name@[q] as int]);
            assert(covered_flags(cs, cs.len() as int, n as nat)[x as int]);
        }
        lemma_heads_ascend(graph, cs);
        assert(components_layout(graph, cs));
    }
    out
}

/// The first nodes of the components ascend by name and differ.
proof fn lemma_heads_ascend(g: &AdjacencyList, cs: Seq<Seq<usize>>)
    requires
        forall|kk: int| 0 <= kk < cs.len()
            ==> component_ok(g, #[trigger] cs[kk], covered_flags(cs, kk, g.names().len())),
        forall|kk: int, x: usize| 0 <= kk < cs.len() && x < g.names().len()
            && !#[trigger] covered_flags(cs, kk, g.names().len())[x as int]
            ==> name_leq(g.names(), (#[trigger] cs[kk])[0], x),
    ensures
        forall|k1: int, k2: int| 0 <= k1 < k2 < cs.len()
            ==> name_leq(g.names(), (#[trigger] cs[k1])[0], (#[trigger] cs[k2])[0]) && cs[k1][0] != cs[k2][0],
{
    let n = g.names().len();
    assert forall|k1: int, k2: int| 0 <= k1 < k2 < cs.len()
        implies name_leq(g.names(), (#[trigger] cs[k1])[0], (#[trigger] cs[k2])[0]) && cs[k1][0] != cs[k2][0] by {
        let h1 = cs[k1][0];
        let h2 = cs[k2][0];
        assert(component_ok(g, cs[k2], covered_flags(cs, k2, n)));
        assert(component_ok(g, cs[k1], covered_flags(cs, k1, n)));
        assert(cs[k2].contains(h2));
        assert(cs[k1].contains(h1));
        // h2 is reached avoiding the nodes of components before k2
        let f2 = covered_flags(cs, k2, n);
        assert(reaches_avoiding(g, f2, h2, h2));
        let w = choose|w: Seq<usize>| #[trigger] is_walk(g, w) && w[0] == h2 && w[w.len() - 1] == h2
            && forall|i: int| 0 <= i < w.len() ==> !f2[#[trigger] w[i] as int];
        assert(!f2[w[0] as int]);
        assert(h2 < n);
        assert(h1 < n);
        if covered_flags(cs, k1, n)[h2 as int] {
            let kk = choose|kk: int| 0 <= kk < k1 && #[trigger] cs[kk].contains(h2);
            assert(f2[h2 as int]);
        }
        assert(name_leq(g.names(), cs[k1][0], h2));
        assert(cs[k1].contains((h1 as int) as usize));
        assert(f2[h1 as int]);
    }
}

proof fn lemma_sorted_component(g: &AdjacencyList, unsorted: Seq<usize>, sorted: Seq<usize>, u: usize,
    vb: Seq<bool>, by_name: Seq<usize>, p: int)
    requires
        graph_model_ok(g.names(), g.adj()),
        u < g.names().len(),
        unsorted.len() >= 1,
        unsorted[0] == u,
        unsorted.no_duplicates(),
        forall|i: int| 0 <= i < unsorted.len() ==> #[trigger] unsorted[i] < g.names().len(),
        forall|x: usize| #[trigger] unsorted.contains(x) <==> (x < g.names().len() && reaches_avoiding(g, vb, u, x)),
        forall|x: usize| unsorted.contains(x) ==> !(#[trigger] vb[x as int]),
        sorted.to_multiset() == unsorted.to_multiset(),
        sorted_by(sorted, name_order(g.names())),
        vstd::relations::total_ordering(name_order(g.names())),
        0 <= p < by_name.len(),
        by_name[p] == u,
        by_name.len() == g.names().len(),
        by_name.no_duplicates(),
        sorted_by(by_name, name_order(g.names())),
        forall|x: usize| #[trigger] by_name.contains(x) <==> x < g.names().len(),
        vb.len() == g.names().len(),
        forall|q: int| 0 <= q < p ==> #[trigger] vb[by_name[q] as int],
    ensures
        component_ok(g, sorted, vb),
        sorted[0] == u,
{
    let n = g.names().len();
    unsorted.lemma_multiset_has_no_duplicates();
    sorted.lemma_multiset_has_no_duplicates_conv();
    assert forall|x: usize| #[trigger] sorted.contains(x) <==> unsorted.contains(x) by {
        vstd::seq_lib::to_multiset_contains(sorted, x);
        vstd::seq_lib::to_multiset_contains(unsorted, x);
    }
    vstd::seq_lib::to_multiset_len(sorted);
    vstd::seq_lib::to_multiset_len(unsorted);
    assert forall|i: int| 0 <= i < sorted.len() implies #[trigger] sorted[i] < n by {
        assert(sorted.contains(sorted[i]));
        assert(unsorted.contains(sorted[i]));
    }
    // u is the least member: every other member comes later in name order
    assert(unsorted.contains(u));
    assert(sorted.contains(u));
    let iu = choose|i: int| 0 <= i < sorted.len() && sorted[i] == u;
    if iu != 0 {
        let x = sorted[0];
        assert(name_order(g.names())(sorted[0], sorted[iu]));
        assert(name_leq(g.names(), x, u));
        assert(sorted.contains(x));
        assert(!vb[x as int]);
        assert(by_name.contains(x));
        let qx = choose|q: int| 0 <= q < by_name.len() && by_name[q] == x;
        if qx < p {
            assert(vb[by_name[qx] as int]);
        } else {
            assert(qx != p);
            assert(name_order(g.names())(by_name[p], by_name[qx]));
            assert(name_leq(g.names(), u, x));
            assert(x == u);
        }
    }
    assert(sorted[0] == u);
}

proof fn lemma_components_step(g: &AdjacencyList, before: Seq<Seq<usize>>, after: Seq<Seq<usize>>, vb: Seq<bool>,
    va: Seq<bool>, u: usize, by_name: Seq<usize>, p: int)
    requires
        graph_model_ok(g.names(), g.adj()),
        u < g.names().len(),
        0 <= p < by_name.len(),
        by_name[p] == u,
        by_name.len() == g.names().len(),
        by_name.no_duplicates(),
        sorted_by(by_name, name_order(g.names())),
        forall|x: usize| #[trigger] by_name.contains(x) <==> x < g.names().len(),
        vstd::relations::total_ordering(name_order(g.names())),
        after == before.push(after[before.len() as int]),
        component_ok(g, after[before.len() as int], vb),
        after[before.len() as int][0] == u,
        vb.len() == g.names().len(),
        va.len() == g.names().len(),
        vb == covered_flags(before, before.len() as int, g.names().len()),
        forall|q: int| 0 <= q < p ==> #[trigger] vb[by_name[q] as int],
        forall|x: usize| x < g.names().len() ==> (#[trigger] va[x as int] <==> (vb[x as int] || after[before.len() as int].contains(x))),
        forall|kk: int| 0 <= kk < before.len()
            ==> component_ok(g, #[trigger] before[kk], covered_flags(before, kk, g.names().len())),
        forall|kk: int, x: usize| 0 <= kk < before.len() && x < g.names().len()
            && !#[trigger] covered_flags(before, kk, g.names().len())[x as int]
            ==> name_leq(g.names(), (#[trigger] before[kk])[0], x),
    ensures
        va == covered_flags(after, after.len() as int, g.names().len()),
        forall|kk: int| 0 <= kk < after.len()
            ==> component_ok(g, #[trigger] after[kk], covered_flags(after, kk, g.names().len())),
        forall|kk: int, x: usize| 0 <= kk < after.len() && x < g.names().len()
            && !#[trigger] covered_flags(after, kk, g.names().len())[x as int]
            ==> name_leq(g.names(), (#[trigger] after[kk])[0], x),
{
    let n = g.names().len();
    let m = before.len() as int;
    assert forall|kk: int| 0 <= kk <= m implies #[trigger] covered_flags(after, kk, n) == covered_flags(before, kk, n) by {
        assert forall|x: int| 0 <= x < n implies covered_flags(after, kk, n)[x] == covered_flags(before, kk, n)[x] by {
            if covered_flags(after, kk, n)[x] {
                let j = choose|j: int| 0 <= j < kk && #[trigger] after[j].contains(x as usize);
                assert(after[j] == before[j]);
            }
            if covered_flags(before, kk, n)[x] {
                let j = choose|j: int| 0 <= j < kk && #[trigger] before[j].contains(x as usize);
                assert(after[j] == before[j]);
            }
        }
        assert(covered_flags(after, kk, n) =~= covered_flags(before, kk, n));
    }
    assert(covered_flags(after, m, n) == vb);
    assert(va =~= covered_flags(after, m + 1, n)) by {
        assert forall|x: int| 0 <= x < n implies va[x] == covered_flags(after, m + 1, n)[x] by {
            let xu = x as usize;
            if va[x] {
                if vb[x] {
                    let j = choose|j: int| 0 <= j < m && #[trigger] before[j].contains(xu);
                    assert(after[j] == before[j]);
                } else {
                    assert(after[m].contains(xu));
                }
            }
            if covered_flags(after, m + 1, n)[x] {
                let j = choose|j: int| 0 <= j < m + 1 && #[trigger] after[j].contains(xu);
                if j < m {
                    assert(after[j] == before[j]);
                    assert(covered_flags(before, m, n)[x]);
                }
            }
        }
    }
    assert forall|kk: int| 0 <= kk < after.len()
        implies component_ok(g, #[trigger] after[kk], covered_flags(after, kk, n)) by {
        if kk < m {
            assert(after[kk] == before[kk]);
        }
    }
    assert forall|kk: int, x: usize| 0 <= kk < after.len() && x < n
        && !#[trigger] covered_flags(after, kk, n)[x as int]
        implies name_leq(g.names(), (#[trigger] after[kk])[0], x) by {
        if kk < m {
            assert(after[kk] == before[kk]);
        } else {
            // x is not yet visited, so it comes at or after u in name order
            assert(!vb[x as int]);
            assert(by_name.contains(x));
            let qx = choose|q: int| 0 <= q < by_name.len() && by_name[q] == x;
            if qx < p {
                assert(vb[by_name[qx] as int]);
            } else if qx > p {
                assert(name_order(g.names())(by_name[p], by_name[qx]));
            } else {
                assert(name_order(g.names())(u, u));
            }
        }
    }
}

} // verus!
