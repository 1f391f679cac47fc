use foundation::audit::{AuditEvent, AuditLevel, AuditLog};
use foundation::context::DeterministicContext;
use foundation::errors::FoundationError;
use foundation::hash::{sha256_hex, sha256_parts, sha256_str};
use foundation::id::{DeterministicId, EdgeDomain, NodeDomain};
use foundation::ordered_map::OrderedMap;
use foundation::primitives::SafeInteger;
use foundation::time::{LogicalClock, LogicalTimestamp, WallTimestamp};
use foundation::traits::{Hashable, Identifiable, Validatable};

type NodeId = DeterministicId<NodeDomain>;
type EdgeId = DeterministicId<EdgeDomain>;

// ---------------------------------------------------------------------------
// audit
// ---------------------------------------------------------------------------

#[test]
fn audit_event_creation() {
    let ts = LogicalTimestamp::new(1);
    let event = AuditEvent::new(ts, AuditLevel::Info, "test", "op", "hello");
    assert_eq!(event.level, AuditLevel::Info);
    assert_eq!(event.source, "test");
}

#[test]
fn audit_log_record_and_filter() {
    let mut log = AuditLog::new();
    log.record(AuditEvent::new(LogicalTimestamp::new(1), AuditLevel::Info, "src", "op", "info msg"));
    log.record(AuditEvent::new(LogicalTimestamp::new(2), AuditLevel::Error, "src", "op", "error msg"));
    assert_eq!(log.len(), 2);
    assert_eq!(log.events_at_level(AuditLevel::Error).len(), 1);
    assert_eq!(log.events_at_min_level(AuditLevel::Info).len(), 2);
}

#[test]
fn audit_log_context_filter() {
    let mut log = AuditLog::new();
    log.record(
        AuditEvent::new(LogicalTimestamp::new(1), AuditLevel::Info, "s", "o", "m").with_context_id("ctx-1"),
    );
    log.record(AuditEvent::new(LogicalTimestamp::new(2), AuditLevel::Info, "s", "o", "m"));
    assert_eq!(log.events_for_context("ctx-1").len(), 1);
}

#[test]
fn audit_level_ordering() {
    assert!(AuditLevel::Trace < AuditLevel::Debug);
    assert!(AuditLevel::Debug < AuditLevel::Info);
    assert!(AuditLevel::Info < AuditLevel::Warn);
    assert!(AuditLevel::Warn < AuditLevel::Error);
}

#[test]
fn audit_min_level_keeps_log_order() {
    let mut log = AuditLog::new();
    log.record(AuditEvent::new(LogicalTimestamp::new(1), AuditLevel::Warn, "s", "a", "m"));
    log.record(AuditEvent::new(LogicalTimestamp::new(2), AuditLevel::Debug, "s", "b", "m"));
    log.record(AuditEvent::new(LogicalTimestamp::new(3), AuditLevel::Error, "s", "c", "m"));
    let picked = log.events_at_min_level(AuditLevel::Warn);
    assert_eq!(picked.len(), 2);
    assert_eq!(picked[0].operation, "a");
    assert_eq!(picked[1].operation, "c");
    log.clear();
    assert!(log.is_empty());
}

#[test]
fn audit_event_display() {
    let e = AuditEvent::new(LogicalTimestamp::new(7), AuditLevel::Warn, "graph", "insert", "done");
    assert_eq!(e.display_string(), "[WARN] T7 graph (insert) – done");
}

// ---------------------------------------------------------------------------
// context
// ---------------------------------------------------------------------------

#[test]
fn context_creation() {
    let ctx = DeterministicContext::new(42);
    assert_eq!(ctx.seed(), 42);
    assert_eq!(ctx.current_timestamp().value(), 0);
}

#[test]
fn context_tick_and_trace() {
    let mut ctx = DeterministicContext::new(42);
    let ts = ctx.tick("test_op", "some detail").unwrap();
    assert_eq!(ts.value(), 1);
    assert_eq!(ctx.trace().len(), 1);
    assert_eq!(ctx.trace()[0].operation, "test_op");
}

#[test]
fn context_config() {
    let mut config = OrderedMap::new();
    config.insert("key1".to_string(), "value1".to_string());
    let ctx = DeterministicContext::with_config(0, config);
    assert_eq!(ctx.get_config("key1"), Some(&"value1".to_string()));
    assert_eq!(ctx.get_config("key2"), None);
    assert_eq!(ctx.get_config_or("key2", "default"), "default");
}

#[test]
fn derive_child_context() {
    let mut ctx = DeterministicContext::new(100);
    ctx.tick("parent_op", "").unwrap();
    let child = ctx.derive_child(1).unwrap();
    assert_eq!(child.seed(), 101);
    assert_eq!(child.current_timestamp().value(), 1);
}

#[test]
fn deterministic_random_is_deterministic() {
    let mut ctx1 = DeterministicContext::new(42);
    let mut ctx2 = DeterministicContext::new(42);
    let r1 = ctx1.deterministic_random().unwrap();
    let r2 = ctx2.deterministic_random().unwrap();
    assert_eq!(r1, r2);
}

#[test]
fn clear_trace() {
    let mut ctx = DeterministicContext::new(0);
    ctx.tick("op1", "").unwrap();
    ctx.tick("op2", "").unwrap();
    assert_eq!(ctx.trace().len(), 2);
    ctx.clear_trace();
    assert_eq!(ctx.trace().len(), 0);
}

#[test]
fn context_id_is_hex_of_seed() {
    let ctx = DeterministicContext::new(255);
    assert_eq!(ctx.context_id(), "ctx-00000000000000ff");
    assert_eq!(ctx.display_string(), "Context(id=ctx-00000000000000ff, seed=255, clock=T0)");
}

#[test]
fn deterministic_random_value() {
    let mut ctx = DeterministicContext::new(2);
    let r = ctx.deterministic_random().unwrap();
    assert_eq!(r, 2u64.wrapping_mul(6364136223846793005).wrapping_add(1));
    assert_eq!(ctx.current_timestamp().value(), 1);
}

#[test]
fn derive_child_seed_overflow() {
    let ctx = DeterministicContext::new(u64::MAX);
    let r = ctx.derive_child(1);
    assert!(matches!(r, Err(FoundationError::Overflow(ref m)) if m == "child seed overflow"));
}

#[test]
fn merge_timestamp_takes_max_plus_one() {
    let mut ctx = DeterministicContext::new(1);
    ctx.tick("a", "").unwrap();
    let t = ctx.merge_timestamp(&LogicalTimestamp::new(9)).unwrap();
    assert_eq!(t.value(), 10);
    assert_eq!(ctx.current_timestamp().value(), 10);
    assert_eq!(ctx.trace().len(), 1);
}

// ---------------------------------------------------------------------------
// hash and identifiers
// ---------------------------------------------------------------------------

#[test]
fn sha256_is_deterministic() {
    let h1 = sha256_str("hello");
    let h2 = sha256_str("hello");
    assert_eq!(h1, h2);
    assert_eq!(h1.len(), 64);
}

#[test]
fn sha256_different_input() {
    let h1 = sha256_str("hello");
    let h2 = sha256_str("world");
    assert_ne!(h1, h2);
}

#[test]
fn sha256_parts_works() {
    let combined = sha256_hex(b"helloworld");
    let parts = sha256_parts(&[b"hello", b"world"]);
    assert_eq!(combined, parts);
}

#[test]
fn sha256_known_value() {
    assert_eq!(sha256_str("abc"), "ba7816bf8f01cfea414140de5dae2223b00361a396177a9cb410ff61f20015ad");
}

#[test]
fn deterministic_id_is_deterministic() {
    let id1 = NodeId::from_content("hello");
    let id2 = NodeId::from_content("hello");
    assert_eq!(id1, id2);
}

#[test]
fn different_content_different_id() {
    let id1 = NodeId::from_content("hello");
    let id2 = NodeId::from_content("world");
    assert_ne!(id1, id2);
}

#[test]
fn different_domain_different_id() {
    let node_id = NodeId::from_content("hello");
    let edge_id = EdgeId::from_content("hello");
    assert_ne!(node_id.as_hex(), edge_id.as_hex());
}

#[test]
fn hex_roundtrip() {
    let id = NodeId::from_content("test");
    let hex = id.as_hex();
    let id2 = NodeId::from_hex(hex).unwrap();
    assert_eq!(id, id2);
}

#[test]
fn invalid_hex_rejected() {
    assert!(NodeId::from_hex("not_valid_hex").is_err());
    assert!(NodeId::from_hex("abcd").is_err());
}

#[test]
fn from_parts_is_deterministic() {
    let id1 = NodeId::from_parts(&[b"hello", b"world"]);
    let id2 = NodeId::from_parts(&[b"hello", b"world"]);
    assert_eq!(id1, id2);
}

#[test]
fn short_returns_prefix() {
    let id = NodeId::from_content("test");
    assert_eq!(id.short().len(), 8);
}

#[test]
fn id_is_hash_of_tag_and_content() {
    let id = NodeId::from_content("abc");
    assert_eq!(id.as_hex(), sha256_str("nodeabc"));
    assert_eq!(NodeId::from_parts(&[b"a", b"bc"]), id);
}

#[test]
fn from_hex_lowercases_and_reports_error() {
    let upper = "BA7816BF8F01CFEA414140DE5DAE2223B00361A396177A9CB410FF61F20015AD";
    let id = NodeId::from_hex(upper).unwrap();
    assert_eq!(id.as_hex(), "ba7816bf8f01cfea414140de5dae2223b00361a396177a9cb410ff61f20015ad");
    match NodeId::from_hex("xyz") {
        Err(FoundationError::IdError(m)) => assert_eq!(m, "ID must be a 64-character hex string"),
        _ => panic!("expected an id error"),
    }
}

// ---------------------------------------------------------------------------
// safe integers
// ---------------------------------------------------------------------------

#[test]
fn safe_integer_checked_add_ok() {
    let a = SafeInteger::new(10);
    let b = SafeInteger::new(20);
    assert_eq!(a.checked_add(b).unwrap().value(), 30);
}

#[test]
fn safe_integer_checked_add_overflow() {
    let a = SafeInteger::max_value();
    let b = SafeInteger::new(1);
    assert!(a.checked_add(b).is_err());
}

#[test]
fn safe_integer_division_overflows_only_min_by_minus_one() {
    let min = SafeInteger::min_value();
    assert!(min.checked_div(SafeInteger::new(-1)).is_err());
    assert_eq!(min.checked_div(SafeInteger::new(1)).unwrap().value(), i64::MIN);
    assert_eq!(min.checked_div(SafeInteger::new(-2)).unwrap().value(), 1i64 << 62);
    assert_eq!(SafeInteger::new(i64::MAX).checked_div(SafeInteger::new(-1)).unwrap().value(), -i64::MAX);
    for a in [-9i64, -1, 0, 1, 9] {
        for b in [-3i64, -1, 1, 3] {
            assert_eq!(SafeInteger::new(a).checked_div(SafeInteger::new(b)).unwrap().value(), a / b);
        }
    }
}

#[test]
fn safe_integer_checked_div_by_zero() {
    let a = SafeInteger::new(10);
    let b = SafeInteger::zero();
    assert!(a.checked_div(b).is_err());
}

#[test]
fn safe_integer_error_messages() {
    let e = SafeInteger::max_value().checked_add(SafeInteger::one()).unwrap_err();
    assert_eq!(e.display_string(), "Overflow: 9223372036854775807 + 1 overflows");
    let e = SafeInteger::new(5).checked_div(SafeInteger::zero()).unwrap_err();
    assert_eq!(e, FoundationError::Overflow("division by zero".to_string()));
    let e = SafeInteger::min_value().checked_abs().unwrap_err();
    assert_eq!(e, FoundationError::Overflow("abs(-9223372036854775808) overflows".to_string()));
}

#[test]
fn safe_integer_truncating_division() {
    assert_eq!(SafeInteger::new(-7).checked_div(SafeInteger::new(2)).unwrap().value(), -3);
    assert_eq!(SafeInteger::new(-7).checked_rem(SafeInteger::new(2)).unwrap().value(), -1);
    assert_eq!(SafeInteger::new(3).checked_pow(4).unwrap().value(), 81);
    assert!(SafeInteger::new(2).checked_pow(63).is_err());
    assert!(SafeInteger::min_value().checked_neg().is_err());
}

// ---------------------------------------------------------------------------
// time
// ---------------------------------------------------------------------------

#[test]
fn logical_timestamp_increment() {
    let t = LogicalTimestamp::zero();
    let t1 = t.increment().unwrap();
    assert_eq!(t1.value(), 1);
}

#[test]
fn logical_timestamp_merge() {
    let a = LogicalTimestamp::new(5);
    let b = LogicalTimestamp::new(10);
    let merged = a.merge(&b).unwrap();
    assert_eq!(merged.value(), 11);
}

#[test]
fn logical_clock_tick() {
    let mut clock = LogicalClock::new();
    assert_eq!(clock.current().value(), 0);
    let t1 = clock.tick().unwrap();
    assert_eq!(t1.value(), 1);
    let t2 = clock.tick().unwrap();
    assert_eq!(t2.value(), 2);
}

#[test]
fn logical_clock_merge() {
    let mut clock = LogicalClock::new();
    clock.tick().unwrap();
    let external = LogicalTimestamp::new(10);
    let merged = clock.merge(&external).unwrap();
    assert_eq!(merged.value(), 11);
}

#[test]
fn logical_clock_overflow_leaves_clock() {
    let mut clock = LogicalClock::with_initial(u64::MAX);
    assert!(clock.tick().is_err());
    assert_eq!(clock.current().value(), u64::MAX);
    assert!(LogicalTimestamp::new(u64::MAX).increment().is_err());
    assert_eq!(LogicalTimestamp::new(3).display_string(), "T3");
}

#[test]
fn wall_timestamp_now() {
    let ts = WallTimestamp::now().unwrap();
    assert!(!ts.as_iso().is_empty());
}

#[test]
fn wall_timestamp_now_is_rfc3339() {
    let ts = WallTimestamp::now().unwrap();
    assert!(WallTimestamp::from_iso(ts.as_iso()).is_ok());
}

#[test]
fn wall_timestamp_from_clock_reading() {
    let t = WallTimestamp::from_clock_reading(Some((1705314600, 500_000_000))).unwrap();
    assert_eq!(t.as_iso(), "2024-01-15T10:30:00.500+00:00");
    let epoch = WallTimestamp::from_clock_reading(Some((0, 0))).unwrap();
    assert_eq!(epoch.as_iso(), "1970-01-01T00:00:00+00:00");
    let last = WallTimestamp::from_clock_reading(Some((253402300799, 0))).unwrap();
    assert_eq!(last.as_iso(), "9999-12-31T23:59:59+00:00");
    assert!(matches!(WallTimestamp::from_clock_reading(None), Err(FoundationError::ContextError(_))));
    let later = WallTimestamp::from_clock_reading(Some((253402300800, 0))).unwrap();
    assert_eq!(later.as_iso(), "+10000-01-01T00:00:00+00:00");
    let latest = WallTimestamp::from_clock_reading(Some((8210266876799, 0))).unwrap();
    assert_eq!(latest.as_iso(), "+262142-12-31T23:59:59+00:00");
    assert!(matches!(WallTimestamp::from_clock_reading(Some((8210266876800, 0))),
        Err(FoundationError::ContextError(_))));
}

#[test]
fn wall_timestamp_from_iso() {
    let ts = WallTimestamp::from_iso("2024-01-15T10:30:00+00:00").unwrap();
    assert!(ts.as_iso().contains("2024"));
}

#[test]
fn wall_timestamp_invalid() {
    assert!(WallTimestamp::from_iso("not-a-timestamp").is_err());
}

// ---------------------------------------------------------------------------
// traits
// ---------------------------------------------------------------------------

#[derive(Clone)]
struct TestNode {
    name: String,
}

impl Hashable for TestNode {
    fn canonical_bytes(&self) -> Vec<u8> {
        self.name.as_bytes().to_vec()
    }
}

impl Validatable for TestNode {
    fn validate(&self) -> foundation::errors::FoundationResult<()> {
        if self.name.is_empty() {
            Err(FoundationError::ValidationFailed("name is empty".into()))
        } else {
            Ok(())
        }
    }
}

impl Identifiable for TestNode {
    type Domain = NodeDomain;
    fn id(&self) -> DeterministicId<NodeDomain> {
        DeterministicId::from_content(&self.name)
    }
}

#[test]
fn hashable_impl() {
    let node = TestNode { name: "test".into() };
    let hash = node.content_hash();
    assert_eq!(hash.len(), 64);
}

#[test]
fn validatable_impl() {
    let good = TestNode { name: "ok".into() };
    assert!(good.validate().is_ok());
    let bad = TestNode { name: "".into() };
    assert!(bad.validate().is_err());
}

#[test]
fn identifiable_impl() {
    let node = TestNode { name: "test".into() };
    let id = node.id();
    assert_eq!(id.as_hex().len(), 64);
}

#[test]
fn content_hash_is_sha256_of_bytes() {
    let node = TestNode { name: "abc".into() };
    assert_eq!(node.content_hash(), sha256_str("abc"));
}

// ---------------------------------------------------------------------------
// ordered map
// ---------------------------------------------------------------------------

#[test]
fn ordered_map_read_after_write() {
    let mut m: OrderedMap<u32> = OrderedMap::new();
    assert_eq!(m.insert("b".to_string(), 2), None);
    assert_eq!(m.insert("a".to_string(), 1), None);
    assert_eq!(m.insert("b".to_string(), 3), Some(2));
    assert_eq!(m.get("b"), Some(&3));
    assert_eq!(m.get("a"), Some(&1));
    assert_eq!(m.keys(), vec!["a".to_string(), "b".to_string()]);
    assert_eq!(m.remove("a"), Some(1));
    assert_eq!(m.len(), 1);
    assert!(!m.contains_key("a"));
}

#[test]
fn checked_sub_undoes_checked_add() {
    let a = SafeInteger::new(-40);
    let b = SafeInteger::new(123);
    let s = a.checked_add(b).unwrap();
    assert_eq!(s.checked_sub(b).unwrap().value(), -40);
    assert_eq!(s.checked_neg().unwrap().checked_neg().unwrap().value(), s.value());
    assert_eq!(SafeInteger::new(-5).display_string(), "-5");
}
