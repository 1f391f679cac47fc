use foundation::determinism::{deterministic_entries, deterministic_select, deterministic_shuffle,
    deterministic_sort, deterministic_sort_by_key, hash_tiebreak, verify_deterministic_execution, DeterminismGuard};
use foundation::errors::FoundationError;
use foundation::graph::{bfs, connected_components, dfs, has_cycle, node_degrees, reconstruct_path, topological_sort};
use foundation::graph_types::{AdjacencyList, GraphPath, GraphQuery, SubgraphView};
use foundation::hash::sha256_hex;
use foundation::id::{DeterministicId, EdgeDomain, GraphDomain, NodeDomain};
use foundation::math::{clamp_integer, gcd, lcm, sum_integers};
use foundation::ordered_map::OrderedMap;
use foundation::primitives::{FloatBits, SafeInteger};
use foundation::validation::{alphanumeric_with, integer_in_range, max_collection_size, max_length, min_length,
    non_empty_collection, non_empty_string, positive_integer, unique_by, ValidationCollector};

const ONE: FloatBits = FloatBits(0x3FF0_0000_0000_0000);
const TWO: FloatBits = FloatBits(0x4000_0000_0000_0000);

// ---------------------------------------------------------------------------
// determinism
// ---------------------------------------------------------------------------

#[test]
fn deterministic_sort_basic() {
    let mut v = vec![3, 1, 4, 1, 5, 9];
    deterministic_sort(&mut v);
    assert_eq!(v, vec![1, 1, 3, 4, 5, 9]);
}

/// Ordered by `key` alone, so that elements with equal keys are told apart
/// only by `tag`.
#[derive(Debug, Clone, PartialEq, Eq)]
struct Keyed {
    key: u32,
    tag: char,
}

impl PartialOrd for Keyed {
    fn partial_cmp(&self, other: &Self) -> Option<std::cmp::Ordering> {
        Some(self.cmp(other))
    }
}

impl Ord for Keyed {
    fn cmp(&self, other: &Self) -> std::cmp::Ordering {
        self.key.cmp(&other.key)
    }
}

#[test]
fn deterministic_sort_is_stable() {
    let mut v = vec![
        Keyed { key: 2, tag: 'a' },
        Keyed { key: 1, tag: 'b' },
        Keyed { key: 2, tag: 'c' },
        Keyed { key: 1, tag: 'd' },
        Keyed { key: 2, tag: 'e' },
    ];
    deterministic_sort(&mut v);
    let tags: String = v.iter().map(|k| k.tag).collect();
    assert_eq!(tags, "bdace");
}

#[test]
fn verify_deterministic_execution_pass() {
    let result = verify_deterministic_execution(42, |ctx| {
        let _ = ctx.tick("op", "test")?;
        Ok(42i32)
    });
    assert_eq!(result.unwrap(), 42);
}

#[test]
fn verify_deterministic_execution_compares_runs() {
    let same = verify_deterministic_execution(7, |ctx| ctx.deterministic_random());
    let mut ctx = foundation::context::DeterministicContext::new(7);
    assert_eq!(same.unwrap(), ctx.deterministic_random().unwrap());
    let runs = std::cell::Cell::new(0u32);
    let differ = verify_deterministic_execution(7, |_ctx| {
        runs.set(runs.get() + 1);
        Ok(runs.get())
    });
    match differ {
        Err(FoundationError::ValidationFailed(m)) => assert_eq!(m, "non-deterministic execution detected"),
        other => panic!("unexpected {:?}", other),
    }
    let failing = verify_deterministic_execution(7, |_ctx| -> Result<u32, FoundationError> {
        Err(FoundationError::ContextError("boom".to_string()))
    });
    assert!(matches!(failing, Err(FoundationError::ContextError(m)) if m == "boom"));
}

#[test]
fn deterministic_shuffle_is_deterministic() {
    let mut a = vec![1, 2, 3, 4, 5];
    let mut b = vec![1, 2, 3, 4, 5];
    deterministic_shuffle(&mut a, 42);
    deterministic_shuffle(&mut b, 42);
    assert_eq!(a, b);
}

#[test]
fn deterministic_shuffle_different_seeds() {
    let mut a = vec![1, 2, 3, 4, 5, 6, 7, 8, 9, 10];
    let mut b = vec![1, 2, 3, 4, 5, 6, 7, 8, 9, 10];
    deterministic_shuffle(&mut a, 42);
    deterministic_shuffle(&mut b, 99);
    assert_ne!(a, b);
}

#[test]
fn deterministic_select_basic() {
    let items = vec![1, 2, 3, 4, 5];
    let s1 = deterministic_select(&items, 3, 42);
    let s2 = deterministic_select(&items, 3, 42);
    assert_eq!(s1, s2);
    assert_eq!(s1.len(), 3);
}

#[test]
fn hash_tiebreak_deterministic() {
    let o1 = hash_tiebreak(b"alpha", b"beta");
    let o2 = hash_tiebreak(b"alpha", b"beta");
    assert_eq!(o1, o2);
}

#[test]
fn hash_tiebreak_matches_hex_order() {
    let expected = sha256_hex(b"alpha").cmp(&sha256_hex(b"beta"));
    assert_eq!(hash_tiebreak(b"alpha", b"beta"), expected);
    assert_eq!(hash_tiebreak(b"same", b"same"), std::cmp::Ordering::Equal);
}

#[test]
fn deterministic_sort_by_key_is_stable() {
    let mut v = vec![(2, 'a'), (1, 'b'), (2, 'c'), (1, 'd')];
    deterministic_sort_by_key(&mut v, |p: &(i32, char)| p.0);
    assert_eq!(v, vec![(1, 'b'), (1, 'd'), (2, 'a'), (2, 'c')]);
}

#[test]
fn deterministic_shuffle_permutes_and_matches_lcg() {
    let mut v = vec![10, 20, 30];
    deterministic_shuffle(&mut v, 7);
    let mut expected = vec![10, 20, 30];
    let mut state: u64 = 7;
    for i in (1..3usize).rev() {
        state = state.wrapping_mul(6364136223846793005).wrapping_add(1442695040888963407);
        let j = (state >> 33) as usize % (i + 1);
        expected.swap(i, j);
    }
    assert_eq!(v, expected);
    let mut sorted = v.clone();
    sorted.sort();
    assert_eq!(sorted, vec![10, 20, 30]);
}

#[test]
fn deterministic_select_takes_distinct_positions() {
    let items: Vec<u32> = (0..20).collect();
    for seed in [0u64, 1, 42, 99, u64::MAX] {
        for k in [0usize, 1, 7, 19] {
            let mut picked = deterministic_select(&items, k, seed);
            assert_eq!(picked.len(), k);
            let mut shuffled = items.clone();
            deterministic_shuffle(&mut shuffled, seed);
            assert_eq!(picked, shuffled[..k].to_vec());
            picked.sort();
            picked.dedup();
            assert_eq!(picked.len(), k);
        }
    }
}

#[test]
fn deterministic_select_all_when_k_large() {
    let items = vec!['x', 'y'];
    assert_eq!(deterministic_select(&items, 5, 1), vec!['x', 'y']);
}

#[test]
fn deterministic_entries_with_string_keys() {
    let mut m = std::collections::HashMap::new();
    for k in ["pear", "apple", "fig"] {
        m.insert(k.to_string(), k.len());
    }
    let entries = deterministic_entries(&m);
    assert_eq!(entries, vec![("apple".to_string(), 5), ("fig".to_string(), 3), ("pear".to_string(), 4)]);
}

#[test]
fn deterministic_entries_sorted() {
    let mut m = std::collections::HashMap::new();
    m.insert(3u32, "c");
    m.insert(1u32, "a");
    m.insert(2u32, "b");
    assert_eq!(deterministic_entries(&m), vec![(1, "a"), (2, "b"), (3, "c")]);
}

#[test]
fn determinism_guard_compares_hashes() {
    let g = DeterminismGuard::from_hash(sha256_hex(b"{\"x\":1}"));
    assert!(g.same_hash(&sha256_hex(b"{\"x\":1}")));
    assert!(g.different_hash(&sha256_hex(b"{\"x\":2}")));
}

// ---------------------------------------------------------------------------
// math
// ---------------------------------------------------------------------------

#[test]
fn gcd_basic() {
    let a = SafeInteger::new(12);
    let b = SafeInteger::new(8);
    assert_eq!(gcd(a, b).unwrap().value(), 4);
}

#[test]
fn lcm_basic() {
    let a = SafeInteger::new(4);
    let b = SafeInteger::new(6);
    assert_eq!(lcm(a, b).unwrap().value(), 12);
}

#[test]
fn lcm_divides_every_common_multiple() {
    let l = lcm(SafeInteger::new(-6), SafeInteger::new(10)).unwrap().value();
    assert_eq!(l, 30);
    for m in 1..=120i64 {
        if m % 6 == 0 && m % 10 == 0 {
            assert_eq!(m % l, 0);
        }
    }
}

#[test]
fn clamp_integer_works() {
    let val = SafeInteger::new(15);
    let min = SafeInteger::new(0);
    let max = SafeInteger::new(10);
    assert_eq!(clamp_integer(val, min, max).unwrap().value(), 10);
}

#[test]
fn sum_integers_basic() {
    let vals = vec![SafeInteger::new(1), SafeInteger::new(2), SafeInteger::new(3)];
    assert_eq!(sum_integers(&vals).unwrap().value(), 6);
}

#[test]
fn gcd_lcm_edge_cases() {
    assert_eq!(gcd(SafeInteger::new(-12), SafeInteger::new(18)).unwrap().value(), 6);
    assert_eq!(gcd(SafeInteger::new(0), SafeInteger::new(0)).unwrap().value(), 0);
    assert_eq!(gcd(SafeInteger::new(0), SafeInteger::new(-5)).unwrap().value(), 5);
    assert!(gcd(SafeInteger::min_value(), SafeInteger::new(2)).is_err());
    assert_eq!(lcm(SafeInteger::new(0), SafeInteger::new(9)).unwrap().value(), 0);
    assert_eq!(lcm(SafeInteger::new(-4), SafeInteger::new(6)).unwrap().value(), 12);
    assert!(lcm(SafeInteger::new(i64::MAX), SafeInteger::new(2)).is_err());
}

#[test]
fn clamp_and_sum_errors() {
    let e = clamp_integer(SafeInteger::new(1), SafeInteger::new(5), SafeInteger::new(0)).unwrap_err();
    assert_eq!(e, FoundationError::ValidationFailed("min must be <= max".to_string()));
    assert_eq!(clamp_integer(SafeInteger::new(-3), SafeInteger::new(0), SafeInteger::new(9)).unwrap().value(), 0);
    let e = sum_integers(&[SafeInteger::max_value(), SafeInteger::one()]).unwrap_err();
    assert_eq!(e, FoundationError::Overflow("9223372036854775807 + 1 overflows".to_string()));
    assert_eq!(sum_integers(&[]).unwrap().value(), 0);
}

// ---------------------------------------------------------------------------
// validation
// ---------------------------------------------------------------------------

#[test]
fn non_empty_string_valid() {
    assert!(non_empty_string("hello", "name").is_ok());
}

#[test]
fn non_empty_string_invalid() {
    assert!(non_empty_string("", "name").is_err());
}

#[test]
fn min_length_valid() {
    assert!(min_length("hello", 3, "name").is_ok());
}

#[test]
fn min_length_invalid() {
    assert!(min_length("hi", 3, "name").is_err());
}

#[test]
fn alphanumeric_with_valid() {
    assert!(alphanumeric_with("hello-world_1", &['-', '_'], "id").is_ok());
}

#[test]
fn alphanumeric_with_invalid() {
    assert!(alphanumeric_with("hello world", &['-', '_'], "id").is_err());
}

#[test]
fn integer_in_range_valid() {
    assert!(integer_in_range(SafeInteger::new(5), 0, 10, "val").is_ok());
}

#[test]
fn integer_in_range_invalid() {
    assert!(integer_in_range(SafeInteger::new(15), 0, 10, "val").is_err());
}

#[test]
fn validation_collector() {
    let mut vc = ValidationCollector::new();
    vc.check(non_empty_string("ok", "f1"));
    vc.check(non_empty_string("", "f2"));
    vc.check(non_empty_string("", "f3"));
    assert!(vc.has_errors());
    assert_eq!(vc.errors().len(), 2);
    assert!(vc.result().is_err());
}

#[test]
fn validation_collector_no_errors() {
    let mut vc = ValidationCollector::new();
    vc.check(non_empty_string("ok", "f1"));
    assert!(!vc.has_errors());
    assert!(vc.result().is_ok());
}

#[test]
fn unique_by_valid() {
    let items = vec!["a", "b", "c"];
    assert!(unique_by(&items, |s: &&str| *s, "items").is_ok());
}

#[test]
fn unique_by_invalid() {
    let items = vec!["a", "b", "a"];
    assert!(unique_by(&items, |s: &&str| *s, "items").is_err());
}

#[test]
fn validation_messages() {
    assert_eq!(min_length("hi", 3, "name").unwrap_err(),
        FoundationError::ValidationFailed("name must be at least 3 characters, got 2".to_string()));
    assert_eq!(max_length("héllo", 5, "name").unwrap_err(),
        FoundationError::ValidationFailed("name must be at most 5 characters, got 6".to_string()));
    assert_eq!(alphanumeric_with("ab cd", &[], "id").unwrap_err(),
        FoundationError::ValidationFailed("id contains invalid character: ' '".to_string()));
    assert_eq!(integer_in_range(SafeInteger::new(-15), -10, 10, "v").unwrap_err(),
        FoundationError::OutOfRange("v must be in [-10, 10], got -15".to_string()));
    assert_eq!(positive_integer(SafeInteger::new(0), "n").unwrap_err(),
        FoundationError::OutOfRange("n must be positive, got 0".to_string()));
    let empty: [u8; 0] = [];
    assert_eq!(non_empty_collection(&empty, "xs").unwrap_err(),
        FoundationError::ValidationFailed("xs must not be empty".to_string()));
    assert_eq!(max_collection_size(&[1, 2, 3], 2, "xs").unwrap_err(),
        FoundationError::ValidationFailed("xs must have at most 2 elements, got 3".to_string()));
    assert!(alphanumeric_with("日本語", &[], "id").is_ok());
}

#[test]
fn validation_collector_joins_messages() {
    let mut vc = ValidationCollector::new();
    vc.check(non_empty_string("", "a"));
    vc.add_error("custom");
    assert_eq!(vc.result().unwrap_err(),
        FoundationError::ValidationFailed("ValidationFailed: a must not be empty; custom".to_string()));
}

// ---------------------------------------------------------------------------
// graph types
// ---------------------------------------------------------------------------

#[test]
fn graph_path_empty() {
    let path = GraphPath::empty();
    assert!(path.is_empty());
    assert_eq!(path.length(), 0);
}

#[test]
fn graph_path_validation() {
    let n1: DeterministicId<NodeDomain> = DeterministicId::from_content("a");
    let n2: DeterministicId<NodeDomain> = DeterministicId::from_content("b");
    let e1: DeterministicId<EdgeDomain> = DeterministicId::from_content("e1");
    let path = GraphPath::new(vec![n1, n2], vec![e1], ONE).unwrap();
    assert_eq!(path.length(), 1);
}

#[test]
fn graph_path_rejects_edge_count() {
    let n1: DeterministicId<NodeDomain> = DeterministicId::from_content("a");
    let e1: DeterministicId<EdgeDomain> = DeterministicId::from_content("e1");
    let e2: DeterministicId<EdgeDomain> = DeterministicId::from_content("e2");
    assert!(GraphPath::new(vec![n1], vec![e1, e2], ONE).is_err());
}

#[test]
fn adjacency_list_basic() {
    let mut adj = AdjacencyList::new();
    adj.add_node("a");
    adj.add_node("b");
    adj.add_edge("a", "b", ONE);
    assert_eq!(adj.node_count(), 2);
    assert_eq!(adj.edge_count(), 1);
    assert_eq!(adj.neighbors("a").unwrap().len(), 1);
    assert!(!adj.is_compacted());
    adj.compact();
    assert!(adj.is_compacted());
    assert_eq!(adj.node_count(), 2);
    assert_eq!(adj.edge_count(), 1);
    assert_eq!(adj.neighbors("a").unwrap().len(), 1);
    adj.compact();
    assert!(adj.is_compacted());
}

#[test]
fn graph_query_builder() {
    let q = GraphQuery::new().with_label("person").with_max_depth(3).with_limit(10);
    assert_eq!(q.label_filter, Some("person".into()));
    assert_eq!(q.max_depth, Some(3));
    assert_eq!(q.limit, Some(10));
}

#[test]
fn subgraph_view() {
    let gid: DeterministicId<GraphDomain> = DeterministicId::from_content("g1");
    let mut sg = SubgraphView::new(gid, "subset");
    sg.add_node(DeterministicId::from_content("n1"));
    sg.add_node(DeterministicId::from_content("n1"));
    assert_eq!(sg.node_ids.len(), 1);
}

#[test]
fn subgraph_view_edges_deduplicated() {
    let gid: DeterministicId<GraphDomain> = DeterministicId::from_content("g1");
    let mut sg = SubgraphView::new(gid, "subset");
    sg.add_edge(DeterministicId::from_content("e1"));
    sg.add_edge(DeterministicId::from_content("e2"));
    sg.add_edge(DeterministicId::from_content("e1"));
    assert_eq!(sg.edge_ids.len(), 2);
}

// ---------------------------------------------------------------------------
// graph algorithms
// ---------------------------------------------------------------------------

fn sample_graph() -> AdjacencyList {
    let mut g = AdjacencyList::new();
    g.add_node("a");
    g.add_node("b");
    g.add_node("c");
    g.add_node("d");
    g.add_edge("a", "b", ONE);
    g.add_edge("a", "c", TWO);
    g.add_edge("b", "d", ONE);
    g.add_edge("c", "d", ONE);
    g
}

#[test]
fn bfs_basic() {
    let g = sample_graph();
    let result = bfs(&g, "a").unwrap();
    assert_eq!(result[0], "a");
    assert!(result.contains(&"b".to_string()));
    assert!(result.contains(&"c".to_string()));
    assert!(result.contains(&"d".to_string()));
}

#[test]
fn dfs_basic() {
    let g = sample_graph();
    let result = dfs(&g, "a").unwrap();
    assert_eq!(result[0], "a");
    assert_eq!(result.len(), 4);
}

#[test]
fn topological_sort_basic() {
    let g = sample_graph();
    let result = topological_sort(&g).unwrap();
    let pos_a = result.iter().position(|x| x == "a").unwrap();
    let pos_b = result.iter().position(|x| x == "b").unwrap();
    let pos_d = result.iter().position(|x| x == "d").unwrap();
    assert!(pos_a < pos_b);
    assert!(pos_b < pos_d);
}

#[test]
fn topological_sort_cycle() {
    let mut g = AdjacencyList::new();
    g.add_node("a");
    g.add_node("b");
    g.add_edge("a", "b", ONE);
    g.add_edge("b", "a", ONE);
    assert!(topological_sort(&g).is_err());
}

#[test]
fn reconstruct_path_basic() {
    let mut pred = OrderedMap::new();
    pred.insert("b".to_string(), "a".to_string());
    pred.insert("c".to_string(), "a".to_string());
    pred.insert("d".to_string(), "b".to_string());
    let path = reconstruct_path(&pred, "a", "d").unwrap();
    assert_eq!(path.first().unwrap(), "a");
    assert_eq!(path.last().unwrap(), "d");
    assert_eq!(path, vec!["a".to_string(), "b".to_string(), "d".to_string()]);
}

#[test]
fn has_cycle_false() {
    let g = sample_graph();
    assert!(!has_cycle(&g));
}

#[test]
fn has_cycle_true() {
    let mut g = AdjacencyList::new();
    g.add_node("a");
    g.add_node("b");
    g.add_edge("a", "b", ONE);
    g.add_edge("b", "a", ONE);
    assert!(has_cycle(&g));
}

#[test]
fn connected_components_basic() {
    let mut g = AdjacencyList::new();
    g.add_node("a");
    g.add_node("b");
    g.add_node("c");
    g.add_edge("a", "b", ONE);
    let components = connected_components(&g);
    assert_eq!(components.len(), 2);
}

#[test]
fn connected_components_layout() {
    let mut g = AdjacencyList::new();
    g.add_node("d");
    g.add_node("b");
    g.add_node("c");
    g.add_node("a");
    g.add_edge("d", "a", ONE);
    g.add_edge("c", "b", ONE);
    g.add_edge("a", "c", ONE);
    let components = connected_components(&g);
    // from "a" the edges reach "c" and then "b"; "d" only reaches nodes already taken
    assert_eq!(components, vec![
        vec!["a".to_string(), "b".to_string(), "c".to_string()],
        vec!["d".to_string()],
    ]);
}

#[test]
fn connected_components_follow_outgoing_edges() {
    let mut g = AdjacencyList::new();
    g.add_edge("b", "a", ONE);
    assert_eq!(connected_components(&g), vec![vec!["a".to_string()], vec!["b".to_string()]]);
    let mut h = AdjacencyList::new();
    h.add_edge("a", "b", ONE);
    assert_eq!(connected_components(&h), vec![vec!["a".to_string(), "b".to_string()]]);
}

#[test]
fn undirected_components_are_reachability_classes() {
    let mut g = AdjacencyList::new();
    for (x, y) in [("e", "c"), ("c", "a"), ("b", "d")] {
        g.add_edge(x, y, ONE);
        g.add_edge(y, x, ONE);
    }
    g.add_node("f");
    let components = connected_components(&g);
    assert_eq!(components, vec![
        vec!["a".to_string(), "c".to_string(), "e".to_string()],
        vec!["b".to_string(), "d".to_string()],
        vec!["f".to_string()],
    ]);
    for comp in &components {
        let mut reached = bfs(&g, &comp[0]).unwrap();
        reached.sort();
        assert_eq!(&reached, comp);
    }
}

#[test]
fn bfs_lists_exactly_the_reachable_nodes() {
    let mut g = AdjacencyList::new();
    g.add_edge("a", "c", ONE);
    g.add_edge("a", "b", ONE);
    g.add_edge("c", "d", ONE);
    g.add_edge("e", "a", ONE);
    g.add_edge("d", "a", ONE);
    assert_eq!(bfs(&g, "a").unwrap(), vec!["a", "b", "c", "d"]);
    assert_eq!(bfs(&g, "e").unwrap(), vec!["e", "a", "b", "c", "d"]);
    assert_eq!(bfs(&g, "b").unwrap(), vec!["b"]);
}

#[test]
fn bfs_lists_nodes_by_distance() {
    let mut g = AdjacencyList::new();
    // a shortcut a -> e makes e nearer than the long way a -> b -> d -> e
    for (x, y) in [("a", "b"), ("b", "d"), ("d", "e"), ("a", "e"), ("e", "f"), ("a", "c")] {
        g.add_edge(x, y, ONE);
    }
    let order = bfs(&g, "a").unwrap();
    assert_eq!(order, vec!["a", "b", "c", "e", "d", "f"]);
    let dist = |n: &str| match n { "a" => 0, "b" | "c" | "e" => 1, "d" | "f" => 2, _ => unreachable!() };
    for w in order.windows(2) {
        assert!(dist(&w[0]) <= dist(&w[1]));
    }
}

#[test]
fn node_degrees_basic() {
    let g = sample_graph();
    let degrees = node_degrees(&g);
    assert_eq!(*degrees.get("a").unwrap(), 2);
}

#[test]
fn bfs_invalid_source() {
    let g = sample_graph();
    assert!(bfs(&g, "nonexistent").is_err());
}

#[test]
fn traversal_orders_exact() {
    let g = sample_graph();
    assert_eq!(bfs(&g, "a").unwrap(), vec!["a", "b", "c", "d"]);
    assert_eq!(dfs(&g, "a").unwrap(), vec!["a", "b", "d", "c"]);
    assert_eq!(topological_sort(&g).unwrap(), vec!["a", "b", "c", "d"]);
    let degrees = node_degrees(&g);
    assert_eq!(*degrees.get("d").unwrap(), 0);
    assert!(reconstruct_path(&OrderedMap::new(), "a", "z").is_none());
}
