//! Structured audit logging for deterministic operations.

use vstd::prelude::*;
use crate::ordered_map::OrderedMap;
use crate::text::{to_owned_string, str_equal};
use crate::time::{LogicalTimestamp, WallTimestamp};

verus! {

/// Severity of an audit event, from least to most severe.
#[derive(Debug, Clone, Copy, PartialEq, Eq, Structural, PartialOrd, Ord, Hash)]
pub enum AuditLevel {
    Trace,
    Debug,
    Info,
    Warn,
    Error,
}

impl AuditLevel {
    /// The position of the level in the severity order.
    pub open spec fn rank_spec(self) -> nat {
        match self {
            AuditLevel::Trace => 0,
            AuditLevel::Debug => 1,
            AuditLevel::Info => 2,
            AuditLevel::Warn => 3,
            AuditLevel::Error => 4,
        }
    }

    /// The position of the level in the severity order.
    pub fn rank(&self) -> (r: u8)
        ensures
            r == self.rank_spec(),
    {
        match self {
            AuditLevel::Trace => 0,
            AuditLevel::Debug => 1,
            AuditLevel::Info => 2,
            AuditLevel::Warn => 3,
            AuditLevel::Error => 4,
        }
    }

    /// The displayed name of the level.
    pub open spec fn label(self) -> Seq<char> {
        match self {
            AuditLevel::Trace => "TRACE"@,
            AuditLevel::Debug => "DEBUG"@,
            AuditLevel::Info => "INFO"@,
            AuditLevel::Warn => "WARN"@,
            AuditLevel::Error => "ERROR"@,
        }
    }

    /// The displayed name of the level (`"TRACE"` .. `"ERROR"`).
    pub fn display_string(&self) -> (s: String)
        ensures
            s@ == self.label(),
    {
        match self {
            AuditLevel::Trace => to_owned_string("TRACE"),
            AuditLevel::Debug => to_owned_string("DEBUG"),
            AuditLevel::Info => to_owned_string("INFO"),
            AuditLevel::Warn => to_owned_string("WARN"),
            AuditLevel::Error => to_owned_string("ERROR"),
        }
    }

    /// The severity order is Trace < Debug < Info < Warn < Error: a level
    /// counts as at least as severe as `min` (as `events_at_min_level`
    /// filters) exactly when it is `min` or comes after it in that order.
    pub proof fn lemma_severity_order(level: AuditLevel, min: AuditLevel)
        ensures
            AuditLevel::Trace.rank_spec() < AuditLevel::Debug.rank_spec(),
            AuditLevel::Debug.rank_spec() < AuditLevel::Info.rank_spec(),
            AuditLevel::Info.rank_spec() < AuditLevel::Warn.rank_spec(),
            AuditLevel::Warn.rank_spec() < AuditLevel::Error.rank_spec(),
            (level.rank_spec() >= min.rank_spec()) <==> match min {
                AuditLevel::Trace => true,
                AuditLevel::Debug => level != AuditLevel::Trace,
                AuditLevel::Info => level == AuditLevel::Info || level == AuditLevel::Warn || level == AuditLevel::Error,
                AuditLevel::Warn => level == AuditLevel::Warn || level == AuditLevel::Error,
                AuditLevel::Error => level == AuditLevel::Error,
            },
    {
    }
}

/// One audit event.
#[derive(Debug)]
pub struct AuditEvent {
    /// Logical time of the event.
    pub logical_ts: LogicalTimestamp,
    /// Wall-clock time, for human readers only; `None` when the system
    /// clock reads before the Unix epoch or past the last date chrono holds.
    pub wall_ts: Option<WallTimestamp>,
    /// Severity.
    pub level: AuditLevel,
    /// The module that produced the event.
    pub source: String,
    /// Short operation name.
    pub operation: String,
    /// Human-readable detail.
    pub message: String,
    /// Context identifier for correlation.
    pub context_id: Option<String>,
    /// Key-value metadata.
    pub metadata: Option<OrderedMap<String>>,
}

/// Whether the event carries the given context identifier.
pub open spec fn has_context(e: AuditEvent, id: Seq<char>) -> bool {
    e.context_id matches Some(c) && c@ == id
}

impl AuditEvent {
    /// An event stamped with the current wall-clock time, without context
    /// identifier or metadata.
    pub fn new(logical_ts: LogicalTimestamp, level: AuditLevel, source: &str, operation: &str, message: &str)
        -> (e: Self)
        ensures
            e.logical_ts == logical_ts,
            e.level == level,
            e.source@ == source@,
            e.operation@ == operation@,
            e.message@ == message@,
            e.context_id is None,
            e.metadata is None,
            e.wall_ts matches Some(t) ==> exists|secs: i64, nanos: u32| 0 <= secs <= crate::time::last_chrono_second()
                && nanos < 1_000_000_000 && t.as_iso_spec() == #[trigger] crate::time::rfc3339_text(secs, nanos)
                && (secs <= crate::time::last_four_digit_year_second() ==> crate::time::rfc3339_accepts(t.as_iso_spec())),
    {
        AuditEvent {
            logical_ts,
            wall_ts: match WallTimestamp::now() {
                Ok(t) => Some(t),
                Err(_) => None,
            },
            level,
            source: to_owned_string(source),
            operation: to_owned_string(operation),
            message: to_owned_string(message),
            context_id: None,
            metadata: None,
        }
    }

    /// The event with the given context identifier attached.
    pub fn with_context_id(self, context_id: &str) -> (e: Self)
        ensures
            e.context_id matches Some(c) && c@ == context_id@,
            e.logical_ts == self.logical_ts,
            e.wall_ts == self.wall_ts,
            e.level == self.level,
            e.source == self.source,
            e.operation == self.operation,
            e.message == self.message,
            e.metadata == self.metadata,
    {
        let mut e = self;
        e.context_id = Some(to_owned_string(context_id));
        e
    }

    /// The event with the given metadata attached.
    pub fn with_metadata(self, metadata: OrderedMap<String>) -> (e: Self)
        ensures
            e.metadata == Some(metadata),
            e.logical_ts == self.logical_ts,
            e.wall_ts == self.wall_ts,
            e.level == self.level,
            e.source == self.source,
            e.operation == self.operation,
            e.message == self.message,
            e.context_id == self.context_id,
    {
        let mut e = self;
        e.metadata = Some(metadata);
        e
    }

    /// The display form `"[LEVEL] T<n> source (operation) – message"`.
    pub fn display_string(&self) -> (s: String)
        ensures
            s@ == "["@ + self.level.label() + "] T"@ + crate::text::dec_nat(self.logical_ts@ as nat)
                + " "@ + self.source@ + " ("@ + self.operation@ + ") – "@ + self.message@,
    {
        let mut s = to_owned_string("[");
        let lv = self.level.display_string();
        s.append(lv.as_str());
        s.append("] T");
        crate::text::append_u64_dec(&mut s, self.logical_ts.0);
        s.append(" ");
        s.append(self.source.as_str());
        s.append(" (");
        s.append(self.operation.as_str());
        s.append(") – ");
        s.append(self.message.as_str());
        s
    }
}

/// The events, seen through references, as values.
pub open spec fn deref_events(r: Seq<&AuditEvent>) -> Seq<AuditEvent> {
    r.map_values(|e: &AuditEvent| *e)
}

/// An append-only log of audit events.
#[derive(Debug)]
pub struct AuditLog {
    events: Vec<AuditEvent>,
}

impl View for AuditLog {
    type V = Seq<AuditEvent>;

    closed spec fn view(&self) -> Seq<AuditEvent> {
        self.events@
    }
}

impl AuditLog {
    /// An empty log.
    pub fn new() -> (l: Self)
        ensures
            l@ == Seq::<AuditEvent>::empty(),
    {
        AuditLog { events: Vec::new() }
    }

    /// Appends an event.
    pub fn record(&mut self, event: AuditEvent)
        ensures
            final(self)@ == old(self)@.push(event),
    {
        self.events.push(event);
    }

    /// All events, oldest first.
    pub fn events(&self) -> (r: &[AuditEvent])
        ensures
            r@ == self@,
    {
        self.events.as_slice()
    }

    /// The events of exactly the given level, in log order.
    pub fn events_at_level(&self, level: AuditLevel) -> (r: Vec<&AuditEvent>)
        ensures
            deref_events(r@) == self@.filter(|e: AuditEvent| e.level == level),
    {
        let ghost pred = |e: AuditEvent| e.level == level;
        let mut r: Vec<&AuditEvent> = Vec::new();
        let mut i: usize = 0;
        while i < self.events.len()
            invariant
                i <= self.events@.len(),
                pred == (|e: AuditEvent| e.level == level),
                deref_events(r@) == self.events@.take(i as int).filter(pred),
            decreases self.events.len() - i,
        {
            let e = &self.events[i];
            let ghost before = r@;
            if e.level == level {
                r.push(e);
                assert(deref_events(r@) =~= deref_events(before).push(*e));
            }
            proof {
                let s1 = self.events@.take(i + 1);
                assert(s1.drop_last() =~= self.events@.take(i as int));
                assert(s1.last() == *e);
                reveal(Seq::filter);
                assert(s1.filter(pred) == (if pred(s1.last()) { s1.drop_last().filter(pred).push(s1.last()) }
                    else { s1.drop_last().filter(pred) }));
            }
            i = i + 1;
        }
        assert(self.events@.take(i as int) =~= self.events@);
        r
    }

    /// The events at least as severe as `min_level`, in log order.
    pub fn events_at_min_level(&self, min_level: AuditLevel) -> (r: Vec<&AuditEvent>)
        ensures
            deref_events(r@) == self@.filter(|e: AuditEvent| e.level.rank_spec() >= min_level.rank_spec()),
    {
        let ghost pred = |e: AuditEvent| e.level.rank_spec() >= min_level.rank_spec();
        let mut r: Vec<&AuditEvent> = Vec::new();
        let mut i: usize = 0;
        while i < self.events.len()
            invariant
                i <= self.events@.len(),
                pred == (|e: AuditEvent| e.level.rank_spec() >= min_level.rank_spec()),
                deref_events(r@) == self.events@.take(i as int).filter(pred),
            decreases self.events.len() - i,
        {
            let e = &self.events[i];
            let ghost before = r@;
            if e.level.rank() >= min_level.rank() {
                r.push(e);
                assert(deref_events(r@) =~= deref_events(before).push(*e));
            }
            proof {
                let s1 = self.events@.take(i + 1);
                assert(s1.drop_last() =~= self.events@.take(i as int));
                assert(s1.last() == *e);
                reveal(Seq::filter);
                assert(s1.filter(pred) == (if pred(s1.last()) { s1.drop_last().filter(pred).push(s1.last()) }
                    else { s1.drop_last().filter(pred) }));
            }
            i = i + 1;
        }
        assert(self.events@.take(i as int) =~= self.events@);
        r
    }

    /// The events carrying the given context identifier, in log order.
    pub fn events_for_context(&self, context_id: &str) -> (r: Vec<&AuditEvent>)
        ensures
            deref_events(r@) == self@.filter(|e: AuditEvent| has_context(e, context_id@)),
    {
        let ghost pred = |e: AuditEvent| has_context(e, context_id@);
        let mut r: Vec<&AuditEvent> = Vec::new();
        let mut i: usize = 0;
        while i < self.events.len()
            invariant
                i <= self.events@.len(),
                pred == (|e: AuditEvent| has_context(e, context_id@)),
                deref_events(r@) == self.events@.take(i as int).filter(pred),
            decreases self.events.len() - i,
        {
            let e = &self.events[i];
            let ghost before = r@;
            let matches = match &e.context_id {
                Some(c) => str_equal(c.as_str(), context_id),
                None => false,
            };
            if matches {
                r.push(e);
                assert(deref_events(r@) =~= deref_events(before).push(*e));
            }
            proof {
                let s1 = self.events@.take(i + 1);
                assert(s1.drop_last() =~= self.events@.take(i as int));
                assert(s1.last() == *e);
                reveal(Seq::filter);
                assert(s1.filter(pred) == (if pred(s1.last()) { s1.drop_last().filter(pred).push(s1.last()) }
                    else { s1.drop_last().filter(pred) }));
            }
            i = i + 1;
        }
        assert(self.events@.take(i as int) =~= self.events@);
        r
    }

    /// Number of events.
    pub fn len(&self) -> (n: usize)
        ensures
            n == self@.len(),
    {
        self.events.len()
    }

    /// Whether the log holds no event.
    pub fn is_empty(&self) -> (b: bool)
        ensures
            b == (self@.len() == 0),
    {
        self.events.len() == 0
    }

    /// Removes every event.
    pub fn clear(&mut self)
        ensures
            final(self)@ == Seq::<AuditEvent>::empty(),
    {
        self.events.clear();
    }
}

impl Default for AuditLog {
    fn default() -> (l: Self)
        ensures
            l@ == Seq::<AuditEvent>::empty(),
    {
        AuditLog::new()
    }
}

} // verus!
