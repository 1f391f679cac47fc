//! Logical (Lamport-style) timestamps and clocks, and wall-clock stamps for
//! human-readable logs.

use vstd::prelude::*;
use crate::errors::{FoundationError, FoundationResult, is_overflow, is_validation_failed};
use crate::text::{to_owned_string, concat2};

verus! {

/// A logical timestamp: a `u64` counter.
#[derive(Debug, Clone, Copy, PartialEq, Eq, Structural, PartialOrd, Ord, Hash)]
pub struct LogicalTimestamp(pub u64);

impl View for LogicalTimestamp {
    type V = u64;

    open spec fn view(&self) -> u64 {
        self.0
    }
}

/// The larger of two naturals.
pub open spec fn max_nat(a: nat, b: nat) -> nat {
    if a >= b { a } else { b }
}

impl LogicalTimestamp {
    /// The timestamp `T0`.
    pub fn zero() -> (r: LogicalTimestamp)
        ensures
            r@ == 0,
    {
        LogicalTimestamp(0)
    }

    /// A timestamp with the given counter value.
    pub fn new(value: u64) -> (r: LogicalTimestamp)
        ensures
            r@ == value,
    {
        LogicalTimestamp(value)
    }

    /// The counter value.
    pub fn value(&self) -> (v: u64)
        ensures
            v == self@,
    {
        self.0
    }

    /// The next timestamp, `self + 1`; an error at `u64::MAX`.
    pub fn increment(&self) -> (r: FoundationResult<LogicalTimestamp>)
        ensures
            r is Ok <==> self@ < u64::MAX,
            r matches Ok(t) ==> t@ == self@ + 1,
            r is Err ==> is_overflow(r, "logical timestamp overflow"@),
    {
        if self.0 == u64::MAX {
            Err(FoundationError::Overflow(to_owned_string("logical timestamp overflow")))
        } else {
            Ok(LogicalTimestamp(self.0 + 1))
        }
    }

    /// Lamport merge: `max(self, other) + 1`.
    pub fn merge(&self, other: &LogicalTimestamp) -> (r: FoundationResult<LogicalTimestamp>)
        ensures
            r is Ok <==> max_nat(self@ as nat, other@ as nat) < u64::MAX,
            r matches Ok(t) ==> t@ == max_nat(self@ as nat, other@ as nat) + 1,
            r is Err ==> is_overflow(r, "logical timestamp merge overflow"@),
    {
        let m = if self.0 >= other.0 { self.0 } else { other.0 };
        if m == u64::MAX {
            Err(FoundationError::Overflow(to_owned_string("logical timestamp merge overflow")))
        } else {
            Ok(LogicalTimestamp(m + 1))
        }
    }

    /// The display form `"T<n>"`.
    pub fn display_string(&self) -> (s: String)
        ensures
            s@ == seq!['T'] + crate::text::dec_nat(self@ as nat),
    {
        let mut s = to_owned_string("T");
        crate::text::append_u64_dec(&mut s, self.0);
        proof {
            reveal_strlit("T");
        }
        assert(s@ =~= seq!['T'] + crate::text::dec_nat(self@ as nat));
        s
    }
}

/// A logical clock producing strictly increasing timestamps.
#[derive(Debug, Clone)]
pub struct LogicalClock {
    current: u64,
}

impl View for LogicalClock {
    type V = u64;

    closed spec fn view(&self) -> u64 {
        self.current
    }
}

impl LogicalClock {
    /// A clock at `T0`.
    pub fn new() -> (c: LogicalClock)
        ensures
            c@ == 0,
    {
        LogicalClock { current: 0 }
    }

    /// A clock starting at the given value.
    pub fn with_initial(value: u64) -> (c: LogicalClock)
        ensures
            c@ == value,
    {
        LogicalClock { current: value }
    }

    /// The current timestamp, without advancing.
    pub fn current(&self) -> (t: LogicalTimestamp)
        ensures
            t@ == self@,
    {
        LogicalTimestamp(self.current)
    }

    /// Advances the clock by one and returns the new timestamp.  At
    /// `u64::MAX` the clock is left unchanged and an error is returned.
    pub fn tick(&mut self) -> (r: FoundationResult<LogicalTimestamp>)
        ensures
            r is Ok <==> old(self)@ < u64::MAX,
            r matches Ok(t) ==> t@ == old(self)@ + 1 && final(self)@ == t@,
            r is Err ==> final(self)@ == old(self)@ && is_overflow(r, "logical clock overflow"@),
    {
        if self.current == u64::MAX {
            return Err(FoundationError::Overflow(to_owned_string("logical clock overflow")));
        }
        self.current = self.current + 1;
        Ok(LogicalTimestamp(self.current))
    }

    /// Merges an external timestamp: the clock becomes
    /// `max(current, external) + 1`.  On overflow the clock is unchanged.
    pub fn merge(&mut self, external: &LogicalTimestamp) -> (r: FoundationResult<LogicalTimestamp>)
        ensures
            r is Ok <==> max_nat(old(self)@ as nat, external@ as nat) < u64::MAX,
            r matches Ok(t) ==> t@ == max_nat(old(self)@ as nat, external@ as nat) + 1
                && final(self)@ == t@,
            r is Err ==> final(self)@ == old(self)@ && is_overflow(r, "logical clock merge overflow"@),
    {
        let m = if self.current >= external.0 { self.current } else { external.0 };
        if m == u64::MAX {
            return Err(FoundationError::Overflow(to_owned_string("logical clock merge overflow")));
        }
        self.current = m + 1;
        Ok(LogicalTimestamp(self.current))
    }
}

impl Default for LogicalClock {
    fn default() -> (c: Self)
        ensures
            c@ == 0,
    {
        LogicalClock::new()
    }
}

/// Every timestamp a clock hands out is strictly later than the clock's
/// previous reading and than any timestamp merged into it.
pub proof fn lemma_clock_monotone(before: u64, external: u64, after: u64)
    requires
        after == max_nat(before as nat, external as nat) + 1,
    ensures
        after > before,
        after > external,
{
}

/// A wall-clock timestamp (UTC, RFC 3339) for logs only; never used by
/// deterministic logic.
#[derive(Debug, Clone, PartialEq, Eq, PartialOrd, Ord)]
pub struct WallTimestamp {
    iso8601: String,
}

/// Whether chrono's RFC 3339 parser accepts the text.
pub uninterp spec fn rfc3339_accepts(s: Seq<char>) -> bool;

/// The latest second (since the Unix epoch) whose UTC date still has a
/// four-digit year: 9999-12-31T23:59:59Z.
pub open spec fn last_four_digit_year_second() -> int {
    253402300799
}

/// The text chrono renders for the UTC instant `secs` seconds and `nanos`
/// nanoseconds after the Unix epoch.
pub uninterp spec fn rfc3339_text(secs: i64, nanos: u32) -> Seq<char>;

/// Calls `std::time::UNIX_EPOCH.elapsed()` (`SystemTime::elapsed`), which
/// does not panic, and splits the duration into whole seconds and the
/// sub-second nanoseconds (below 10^9, as `Duration::subsec_nanos`
/// documents).  `None` when the system clock reads before the epoch.  The
/// reading depends on the clock, so nothing more is claimed.
#[verifier::external_body]
fn clock_since_epoch() -> (r: Option<(u64, u32)>)
    ensures
        r matches Some(p) ==> p.1 < 1_000_000_000,
{
    match std::time::UNIX_EPOCH.elapsed() {
        Ok(d) => Some((d.as_secs(), d.subsec_nanos())),
        Err(_) => None,
    }
}

/// The latest second (since the Unix epoch) that chrono's UTC date-time
/// holds: +262142-12-31T23:59:59Z.
pub open spec fn last_chrono_second() -> int {
    8210266876799
}

/// Calls `chrono::DateTime::from_timestamp(secs, nanos)` and renders the
/// instant with `to_rfc3339()`.  `from_timestamp` succeeds exactly up to
/// chrono's last representable date, `last_chrono_second()`.  The text is a
/// function of the two arguments, named `rfc3339_text`; up to the end of
/// year 9999 it has a four-digit year (`YYYY-MM-DDTHH:MM:SS[.frac]+00:00`),
/// which chrono's RFC 3339 parser reads back.  Later years are written with
/// a sign and five or six digits, about which nothing more is claimed.
#[verifier::external_body]
fn utc_rfc3339(secs: i64, nanos: u32) -> (r: Option<String>)
    requires
        0 <= secs,
        nanos < 1_000_000_000,
    ensures
        r is Some <==> secs <= last_chrono_second(),
        r matches Some(s) ==> s@ == rfc3339_text(secs, nanos),
        r matches Some(s) ==> (secs <= last_four_digit_year_second() ==> rfc3339_accepts(s@)),
{
    match chrono::DateTime::from_timestamp(secs, nanos) {
        Some(dt) => Some(dt.to_rfc3339()),
        None => None,
    }
}

/// Calls `chrono::DateTime::parse_from_rfc3339`.  Claims that it succeeds
/// exactly when the text is accepted by that parser (a function of the text
/// alone); on failure the parser's error is returned as its display text,
/// about which nothing is claimed.
#[verifier::external_body]
fn check_rfc3339(s: &str) -> (r: Result<(), String>)
    ensures
        r is Ok <==> rfc3339_accepts(s@),
{
    match chrono::DateTime::parse_from_rfc3339(s) {
        Ok(_) => Ok(()),
        Err(e) => Err(e.to_string()),
    }
}

impl WallTimestamp {
    /// The timestamp for a reading of the system clock: `None` for a clock
    /// before the Unix epoch, else the whole seconds and the nanoseconds
    /// since the epoch.  The RFC 3339 text chrono writes for the instant, or
    /// a context error when the clock reads before the epoch or past the
    /// last date chrono holds.
    pub fn from_clock_reading(reading: Option<(u64, u32)>) -> (r: FoundationResult<WallTimestamp>)
        requires
            reading matches Some(p) ==> p.1 < 1_000_000_000,
        ensures
            reading is None ==> (r matches Err(FoundationError::ContextError(m))
                && m@ == "system clock reads before the Unix epoch"@),
            reading is Some && reading.unwrap().0 > last_chrono_second() ==> (r matches Err(
                FoundationError::ContextError(m),
            ) && m@ == "system clock reads past the last representable date"@),
            reading is Some && reading.unwrap().0 <= last_chrono_second() ==> (r matches Ok(t)
                && t.as_iso_spec() == rfc3339_text(reading.unwrap().0 as i64, reading.unwrap().1)),
            reading is Some && reading.unwrap().0 <= last_four_digit_year_second() ==> (r matches Ok(t)
                && rfc3339_accepts(t.as_iso_spec())),
    {
        match reading {
            None => Err(FoundationError::ContextError(to_owned_string("system clock reads before the Unix epoch"))),
            Some((secs, nanos)) => {
                if secs > 8210266876799 {
                    Err(FoundationError::ContextError(to_owned_string("system clock reads past the last representable date")))
                } else {
                    match utc_rfc3339(secs as i64, nanos) {
                        Some(text) => Ok(WallTimestamp { iso8601: text }),
                        None => Err(FoundationError::ContextError(to_owned_string("system clock reads past the last representable date"))),
                    }
                }
            },
        }
    }

    /// The current UTC time, as the RFC 3339 text of the system clock's
    /// reading (see `from_clock_reading`).  Which instant is read depends on
    /// the clock; whatever it reads, the text is the one chrono writes for
    /// an instant from the epoch to chrono's last date, accepted by chrono's
    /// parser up to the end of year 9999, and an error is a context error.
    pub fn now() -> (r: FoundationResult<WallTimestamp>)
        ensures
            r matches Ok(t) ==> exists|secs: i64, nanos: u32| 0 <= secs <= last_chrono_second()
                && nanos < 1_000_000_000 && t.as_iso_spec() == #[trigger] rfc3339_text(secs, nanos)
                && (secs <= last_four_digit_year_second() ==> rfc3339_accepts(t.as_iso_spec())),
            r matches Err(e) ==> e is ContextError,
    {
        let reading = clock_since_epoch();
        WallTimestamp::from_clock_reading(reading)
    }

    /// A timestamp from an RFC 3339 / ISO 8601 string, validated by parsing.
    /// The text is kept as given.
    pub fn from_iso(s: &str) -> (r: FoundationResult<WallTimestamp>)
        ensures
            r is Ok <==> rfc3339_accepts(s@),
            r matches Ok(t) ==> t.as_iso_spec() == s@,
            r matches Err(e) ==> e is ValidationFailed
                && "invalid ISO 8601 timestamp: "@.is_prefix_of(e.message()),
    {
        match check_rfc3339(s) {
            Ok(()) => Ok(WallTimestamp { iso8601: to_owned_string(s) }),
            Err(detail) => {
                let m = concat2("invalid ISO 8601 timestamp: ", detail.as_str());
                assert("invalid ISO 8601 timestamp: "@.is_prefix_of(m@)) by {
                    assert(m@.subrange(0, "invalid ISO 8601 timestamp: "@.len() as int)
                        =~= "invalid ISO 8601 timestamp: "@);
                }
                Err(FoundationError::ValidationFailed(m))
            }
        }
    }

    /// The stored text.
    pub closed spec fn as_iso_spec(&self) -> Seq<char> {
        self.iso8601@
    }

    /// The stored RFC 3339 text.
    pub fn as_iso(&self) -> (s: &str)
        ensures
            s@ == self.as_iso_spec(),
    {
        self.iso8601.as_str()
    }

    /// The display form: the stored text.
    pub fn display_string(&self) -> (s: String)
        ensures
            s@ == self.as_iso_spec(),
    {
        self.iso8601.clone()
    }
}

} // verus!
