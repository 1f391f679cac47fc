//! The execution context of a deterministic step: a logical clock, a seed,
//! a frozen configuration and a trace of the operations performed.

use vstd::prelude::*;
use crate::errors::{FoundationError, FoundationResult, is_overflow};
use crate::ordered_map::OrderedMap;
use crate::text::{to_owned_string, append_u64_hex, hex_pad};
use crate::time::{LogicalClock, LogicalTimestamp, max_nat};

verus! {

/// One entry of the execution trace.
#[derive(Debug, Clone)]
pub struct TraceEntry {
    pub timestamp: LogicalTimestamp,
    pub operation: String,
    pub detail: String,
}

/// The identifier of the context with the given seed: `"ctx-"` followed by
/// the seed in 16 lowercase hexadecimal digits.
pub open spec fn context_id_of(seed: u64) -> Seq<char> {
    "ctx-"@ + hex_pad(seed as nat, 16)
}

/// The pseudo-random value drawn at clock reading `t` from `seed`:
/// `seed * 6364136223846793005 + t`, wrapping modulo 2^64.
pub open spec fn mix(seed: u64, t: u64) -> u64 {
    ((seed as int * 6364136223846793005int + t as int) % 0x1_0000_0000_0000_0000int) as u64
}

/// Execution context for deterministic operations.
#[derive(Debug)]
pub struct DeterministicContext {
    clock: LogicalClock,
    seed: u64,
    config: OrderedMap<String>,
    trace: Vec<TraceEntry>,
    context_id: String,
}

impl DeterministicContext {
    #[verifier::type_invariant]
    closed spec fn id_matches_seed(&self) -> bool {
        self.context_id@ == context_id_of(self.seed)
    }

    /// The current reading of the context's clock.
    pub closed spec fn clock_value(&self) -> u64 {
        self.clock@
    }

    /// The seed.
    pub closed spec fn seed_value(&self) -> u64 {
        self.seed
    }

    /// The configuration, by key.
    pub closed spec fn config_map(&self) -> Map<Seq<char>, String> {
        self.config@
    }

    /// The trace entries, oldest first.
    pub closed spec fn trace_seq(&self) -> Seq<TraceEntry> {
        self.trace@
    }

    fn make_id(seed: u64) -> (s: String)
        ensures
            s@ == context_id_of(seed),
    {
        let mut s = to_owned_string("ctx-");
        append_u64_hex(&mut s, seed, 16);
        s
    }

    /// Whether the context is as `new(seed)` makes it: at `T0`, with the
    /// seed, no configuration and an empty trace.
    pub open spec fn is_fresh(&self, seed: u64) -> bool {
        &&& self.seed_value() == seed
        &&& self.clock_value() == 0
        &&& self.config_map() == Map::<Seq<char>, String>::empty()
        &&& self.trace_seq() == Seq::<TraceEntry>::empty()
    }

    /// A context at `T0` with the given seed and no configuration.
    pub fn new(seed: u64) -> (c: Self)
        ensures
            c.is_fresh(seed),
            c.seed_value() == seed,
            c.clock_value() == 0,
            c.config_map() == Map::<Seq<char>, String>::empty(),
            c.trace_seq() == Seq::<TraceEntry>::empty(),
    {
        let context_id = Self::make_id(seed);
        DeterministicContext {
            clock: LogicalClock::new(),
            seed,
            config: OrderedMap::new(),
            trace: Vec::new(),
            context_id,
        }
    }

    /// A context at `T0` with the given seed and configuration.
    pub fn with_config(seed: u64, config: OrderedMap<String>) -> (c: Self)
        ensures
            c.seed_value() == seed,
            c.clock_value() == 0,
            c.config_map() == config@,
            c.trace_seq() == Seq::<TraceEntry>::empty(),
    {
        let context_id = Self::make_id(seed);
        DeterministicContext {
            clock: LogicalClock::new(),
            seed,
            config,
            trace: Vec::new(),
            context_id,
        }
    }

    /// The seed.
    pub fn seed(&self) -> (s: u64)
        ensures
            s == self.seed_value(),
    {
        self.seed
    }

    /// The context identifier, `"ctx-"` and the seed in 16 hex digits.
    pub fn context_id(&self) -> (s: &str)
        ensures
            s@ == context_id_of(self.seed_value()),
    {
        proof {
            use_type_invariant(self);
        }
        self.context_id.as_str()
    }

    /// The configuration value under `key`.
    pub fn get_config(&self, key: &str) -> (r: Option<&String>)
        ensures
            r is Some <==> self.config_map().contains_key(key@),
            r matches Some(v) ==> *v == self.config_map()[key@],
    {
        self.config.get(key)
    }

    /// The configuration value under `key`, or `default` when absent.
    pub fn get_config_or(&self, key: &str, default: &str) -> (r: String)
        ensures
            self.config_map().contains_key(key@) ==> r@ == self.config_map()[key@]@,
            !self.config_map().contains_key(key@) ==> r@ == default@,
    {
        match self.config.get(key) {
            Some(v) => v.clone(),
            None => to_owned_string(default),
        }
    }

    /// The current logical timestamp.
    pub fn current_timestamp(&self) -> (t: LogicalTimestamp)
        ensures
            t@ == self.clock_value(),
    {
        self.clock.current()
    }

    /// Advances the clock and records `(timestamp, operation, detail)` in
    /// the trace.  At `u64::MAX` nothing changes and an error is returned.
    pub fn tick(&mut self, operation: &str, detail: &str) -> (r: FoundationResult<LogicalTimestamp>)
        ensures
            r is Ok <==> old(self).clock_value() < u64::MAX,
            final(self).seed_value() == old(self).seed_value(),
            final(self).config_map() == old(self).config_map(),
            r matches Ok(t) ==> {
                &&& t@ == old(self).clock_value() + 1
                &&& final(self).clock_value() == t@
                &&& final(self).trace_seq().len() == old(self).trace_seq().len() + 1
                &&& final(self).trace_seq().drop_last() == old(self).trace_seq()
                &&& final(self).trace_seq().last().timestamp == t
                &&& final(self).trace_seq().last().operation@ == operation@
                &&& final(self).trace_seq().last().detail@ == detail@
            },
            r is Err ==> {
                &&& final(self).clock_value() == old(self).clock_value()
                &&& final(self).trace_seq() == old(self).trace_seq()
                &&& is_overflow(r, "logical clock overflow"@)
            },
    {
        proof {
            use_type_invariant(&*self);
        }
        let mut clock = LogicalClock::new();
        std::mem::swap(&mut clock, &mut self.clock);
        let r = clock.tick();
        self.clock = clock;
        let ts = match r {
            Ok(t) => t,
            Err(e) => return Err(e),
        };
        let mut trace: Vec<TraceEntry> = Vec::new();
        std::mem::swap(&mut trace, &mut self.trace);
        trace.push(TraceEntry {
            timestamp: ts,
            operation: to_owned_string(operation),
            detail: to_owned_string(detail),
        });
        self.trace = trace;
        assert(self.trace@.drop_last() =~= old(self).trace@);
        Ok(ts)
    }

    /// Merges an external timestamp into the clock:
    /// the clock becomes `max(current, external) + 1`.
    pub fn merge_timestamp(&mut self, external: &LogicalTimestamp) -> (r: FoundationResult<LogicalTimestamp>)
        ensures
            r is Ok <==> max_nat(old(self).clock_value() as nat, external@ as nat) < u64::MAX,
            final(self).seed_value() == old(self).seed_value(),
            final(self).config_map() == old(self).config_map(),
            final(self).trace_seq() == old(self).trace_seq(),
            r matches Ok(t) ==> t@ == max_nat(old(self).clock_value() as nat, external@ as nat) + 1
                && final(self).clock_value() == t@,
            r is Err ==> final(self).clock_value() == old(self).clock_value()
                && is_overflow(r, "logical clock merge overflow"@),
    {
        proof {
            use_type_invariant(&*self);
        }
        let mut clock = LogicalClock::new();
        std::mem::swap(&mut clock, &mut self.clock);
        let r = clock.merge(external);
        self.clock = clock;
        r
    }

    /// The trace, oldest entry first.
    pub fn trace(&self) -> (r: &[TraceEntry])
        ensures
            r@ == self.trace_seq(),
    {
        self.trace.as_slice()
    }

    /// Empties the trace.
    pub fn clear_trace(&mut self)
        ensures
            final(self).trace_seq() == Seq::<TraceEntry>::empty(),
            final(self).clock_value() == old(self).clock_value(),
            final(self).seed_value() == old(self).seed_value(),
            final(self).config_map() == old(self).config_map(),
    {
        proof {
            use_type_invariant(&*self);
        }
        self.trace = Vec::new();
    }

    /// A child context with seed `seed + child_index`, a copy of the
    /// configuration, an empty trace, and the parent's clock reading.
    pub fn derive_child(&self, child_index: u64) -> (r: FoundationResult<DeterministicContext>)
        ensures
            r is Ok <==> self.seed_value() + child_index <= u64::MAX,
            r matches Ok(c) ==> {
                &&& c.seed_value() == self.seed_value() + child_index
                &&& c.clock_value() == self.clock_value()
                &&& c.trace_seq() == Seq::<TraceEntry>::empty()
                &&& forall|k: Seq<char>| #[trigger] c.config_map().contains_key(k)
                    <==> self.config_map().contains_key(k)
                &&& forall|k: Seq<char>| self.config_map().contains_key(k)
                    ==> (#[trigger] c.config_map()[k])@ == self.config_map()[k]@
            },
            r is Err ==> is_overflow(r, "child seed overflow"@),
    {
        let child_seed = match self.seed.checked_add(child_index) {
            Some(s) => s,
            None => return Err(FoundationError::Overflow(to_owned_string("child seed overflow"))),
        };
        let mut child = DeterministicContext::with_config(child_seed, self.config.duplicate());
        let parent_ts = self.clock.current();
        proof {
            use_type_invariant(&child);
        }
        if parent_ts.value() > 0 {
            child.clock = LogicalClock::with_initial(parent_ts.value());
        }
        Ok(child)
    }

    /// Advances the clock and draws the next pseudo-random value,
    /// `seed * 6364136223846793005 + t` (wrapping), where `t` is the new
    /// clock reading.
    pub fn deterministic_random(&mut self) -> (r: FoundationResult<u64>)
        ensures
            r is Ok <==> old(self).clock_value() < u64::MAX,
            final(self).seed_value() == old(self).seed_value(),
            final(self).config_map() == old(self).config_map(),
            final(self).trace_seq() == old(self).trace_seq(),
            r matches Ok(v) ==> final(self).clock_value() == old(self).clock_value() + 1
                && v == mix(old(self).seed_value(), final(self).clock_value()),
            r is Err ==> final(self).clock_value() == old(self).clock_value()
                && is_overflow(r, "logical clock overflow"@),
    {
        proof {
            use_type_invariant(&*self);
        }
        let mut clock = LogicalClock::new();
        std::mem::swap(&mut clock, &mut self.clock);
        let r = clock.tick();
        self.clock = clock;
        let ts = match r {
            Ok(t) => t,
            Err(e) => return Err(e),
        };
        let mixed = self.seed.wrapping_mul(6364136223846793005).wrapping_add(ts.value());
        Ok(mixed)
    }

    /// The display form `"Context(id=<id>, seed=<seed>, clock=T<n>)"`.
    pub fn display_string(&self) -> (s: String)
        ensures
            s@ == "Context(id="@ + context_id_of(self.seed_value()) + ", seed="@
                + crate::text::dec_nat(self.seed_value() as nat) + ", clock=T"@
                + crate::text::dec_nat(self.clock_value() as nat) + ")"@,
    {
        proof {
            use_type_invariant(self);
        }
        let mut s = to_owned_string("Context(id=");
        s.append(self.context_id.as_str());
        s.append(", seed=");
        crate::text::append_u64_dec(&mut s, self.seed);
        s.append(", clock=T");
        crate::text::append_u64_dec(&mut s, self.clock.current().value());
        s.append(")");
        s
    }
}

} // verus!
