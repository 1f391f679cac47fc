//! Transport layer: message types, routing and buffered delivery.

use vstd::prelude::*;
use std::collections::VecDeque;
use crate::errors::{FoundationError, FoundationResult};
use crate::ordered_map::OrderedMap;
use crate::text::{to_owned_string, str_equal, append_u64_hex, hex_pad, hex_value, lemma_hex_pad_value,
    lemma_hex_pad_len, lemma_u64_hex_width};
use crate::time::LogicalTimestamp;

verus! {

/// serde_json's JSON value, carried as an opaque message body.
#[verifier::external_type_specification]
#[verifier::external_body]
pub struct ExJsonValue(serde_json::Value);

/// Calls `serde_json::Value::clone`, the derived deep copy, which yields a
/// value equal to its argument.
#[verifier::external_body]
fn clone_json(v: &serde_json::Value) -> (r: serde_json::Value)
    ensures
        r == *v,
{
    v.clone()
}

// ---------------------------------------------------------------------------
// Identifiers and addresses
// ---------------------------------------------------------------------------

/// The identifier of a message.
#[derive(Debug)]
pub struct MessageId(String);

impl View for MessageId {
    type V = Seq<char>;

    closed spec fn view(&self) -> Seq<char> {
        self.0@
    }
}

/// The generated identifier `"msg-<seed, 16 hex>-<counter, 8 hex>"`.
pub open spec fn generated_id(seed: u64, counter: u64) -> Seq<char> {
    "msg-"@ + hex_pad(seed as nat, 16) + "-"@ + hex_pad(counter as nat, 8)
}

/// Generated identifiers are one-to-one: two seeds and counters give the
/// same identifier only when both are equal.
pub proof fn lemma_generated_id_injective(seed1: u64, counter1: u64, seed2: u64, counter2: u64)
    requires
        generated_id(seed1, counter1) == generated_id(seed2, counter2),
    ensures
        seed1 == seed2,
        counter1 == counter2,
{
    reveal_strlit("msg-");
    reveal_strlit("-");
    lemma_u64_hex_width(seed1);
    lemma_u64_hex_width(seed2);
    lemma_hex_pad_len(seed1 as nat, 16);
    lemma_hex_pad_len(seed2 as nat, 16);
    lemma_hex_pad_value(seed1 as nat, 16);
    lemma_hex_pad_value(seed2 as nat, 16);
    lemma_hex_pad_value(counter1 as nat, 8);
    lemma_hex_pad_value(counter2 as nat, 8);
    let g1 = generated_id(seed1, counter1);
    let g2 = generated_id(seed2, counter2);
    assert(g1.subrange(4, 20) =~= hex_pad(seed1 as nat, 16));
    assert(g2.subrange(4, 20) =~= hex_pad(seed2 as nat, 16));
    assert(g1.subrange(21, g1.len() as int) =~= hex_pad(counter1 as nat, 8));
    assert(g2.subrange(21, g2.len() as int) =~= hex_pad(counter2 as nat, 8));
}

impl MessageId {
    /// An identifier with the given text.
    pub fn new(id: &str) -> (m: Self)
        ensures
            m@ == id@,
    {
        MessageId(to_owned_string(id))
    }

    /// The identifier generated from a seed and a counter.
    pub fn generate(seed: u64, counter: u64) -> (m: Self)
        ensures
            m@ == generated_id(seed, counter),
    {
        let mut s = to_owned_string("msg-");
        append_u64_hex(&mut s, seed, 16);
        s.append("-");
        append_u64_hex(&mut s, counter, 8);
        MessageId(s)
    }

    /// The identifier text.
    pub fn as_str(&self) -> (s: &str)
        ensures
            s@ == self@,
    {
        self.0.as_str()
    }

    /// A copy of the identifier.
    pub fn duplicate(&self) -> (m: Self)
        ensures
            m@ == self@,
    {
        MessageId(self.0.clone())
    }

    /// The identifier text, as displayed.
    pub fn display_string(&self) -> (s: String)
        ensures
            s@ == self@,
    {
        self.0.clone()
    }
}

impl Clone for MessageId {
    fn clone(&self) -> (m: Self)
        ensures
            m@ == self@,
    {
        self.duplicate()
    }
}

impl PartialEq for MessageId {
    fn eq(&self, other: &Self) -> (r: bool) {
        str_equal(self.0.as_str(), other.0.as_str())
    }
}

impl vstd::std_specs::cmp::PartialEqSpecImpl for MessageId {
    open spec fn obeys_eq_spec() -> bool {
        true
    }

    open spec fn eq_spec(&self, other: &Self) -> bool {
        self@ == other@
    }
}

/// A system of the architecture.
#[derive(Debug)]
pub enum SystemAddress {
    GraphSystem,
    AgentSystem,
    BlueprintSystem,
    TaskSystem,
    Custom(String),
}

impl SystemAddress {
    /// The displayed name: `graph`, `agent`, `blueprint`, `task` or
    /// `custom:<name>`.  Distinct addresses have distinct names.
    pub open spec fn name(&self) -> Seq<char> {
        match self {
            SystemAddress::GraphSystem => "graph"@,
            SystemAddress::AgentSystem => "agent"@,
            SystemAddress::BlueprintSystem => "blueprint"@,
            SystemAddress::TaskSystem => "task"@,
            SystemAddress::Custom(n) => "custom:"@ + n@,
        }
    }

    /// Which system the address names, with the custom name where there is one.
    pub open spec fn key(&self) -> (int, Seq<char>) {
        match self {
            SystemAddress::GraphSystem => (0, Seq::empty()),
            SystemAddress::AgentSystem => (1, Seq::empty()),
            SystemAddress::BlueprintSystem => (2, Seq::empty()),
            SystemAddress::TaskSystem => (3, Seq::empty()),
            SystemAddress::Custom(n) => (4, n@),
        }
    }

    /// A copy of the address.
    pub fn duplicate(&self) -> (a: Self)
        ensures
            a.key() == self.key(),
    {
        match self {
            SystemAddress::GraphSystem => SystemAddress::GraphSystem,
            SystemAddress::AgentSystem => SystemAddress::AgentSystem,
            SystemAddress::BlueprintSystem => SystemAddress::BlueprintSystem,
            SystemAddress::TaskSystem => SystemAddress::TaskSystem,
            SystemAddress::Custom(n) => SystemAddress::Custom(n.clone()),
        }
    }

    /// The displayed name of the address.
    pub fn display_string(&self) -> (s: String)
        ensures
            s@ == self.name(),
    {
        match self {
            SystemAddress::GraphSystem => to_owned_string("graph"),
            SystemAddress::AgentSystem => to_owned_string("agent"),
            SystemAddress::BlueprintSystem => to_owned_string("blueprint"),
            SystemAddress::TaskSystem => to_owned_string("task"),
            SystemAddress::Custom(n) => {
                let mut s = to_owned_string("custom:");
                s.append(n.as_str());
                s
            },
        }
    }

    /// Whether two addresses name the same system.
    pub fn same(&self, other: &SystemAddress) -> (b: bool)
        ensures
            b == (self.key() == other.key()),
    {
        match (self, other) {
            (SystemAddress::GraphSystem, SystemAddress::GraphSystem) => true,
            (SystemAddress::AgentSystem, SystemAddress::AgentSystem) => true,
            (SystemAddress::BlueprintSystem, SystemAddress::BlueprintSystem) => true,
            (SystemAddress::TaskSystem, SystemAddress::TaskSystem) => true,
            (SystemAddress::Custom(a), SystemAddress::Custom(b)) => str_equal(a.as_str(), b.as_str()),
            _ => false,
        }
    }
}

impl Clone for SystemAddress {
    fn clone(&self) -> (a: Self)
        ensures
            a.key() == self.key(),
    {
        self.duplicate()
    }
}

impl PartialEq for SystemAddress {
    fn eq(&self, other: &Self) -> (r: bool) {
        self.same(other)
    }
}

impl vstd::std_specs::cmp::PartialEqSpecImpl for SystemAddress {
    open spec fn obeys_eq_spec() -> bool {
        true
    }

    open spec fn eq_spec(&self, other: &Self) -> bool {
        self.key() == other.key()
    }
}

/// The priority of a message, from lowest to highest.
#[derive(Debug, Clone, Copy, PartialEq, Eq, Structural, PartialOrd, Ord, Hash)]
pub enum Priority {
    Low,
    Normal,
    High,
    Critical,
}

/// The status carried by a response.
#[derive(Debug, Clone, Copy, PartialEq, Eq, Structural)]
pub enum ResponseStatus {
    Success,
    Failure,
    PartialSuccess,
}

// ---------------------------------------------------------------------------
// Messages
// ---------------------------------------------------------------------------

/// The payload of a message.
#[derive(Debug)]
pub enum MessagePayload {
    /// A request: an operation name and a JSON body.
    Request { operation: String, body: serde_json::Value },
    /// A response to an earlier request.
    Response { request_id: MessageId, status: ResponseStatus, body: serde_json::Value },
    /// An event notification.
    Event { event_type: String, body: serde_json::Value },
}

impl MessagePayload {
    /// A copy of the payload.
    pub fn duplicate(&self) -> (p: Self)
        ensures
            p.same_as(self),
    {
        match self {
            MessagePayload::Request { operation, body } =>
                MessagePayload::Request { operation: operation.clone(), body: clone_json(body) },
            MessagePayload::Response { request_id, status, body } =>
                MessagePayload::Response { request_id: request_id.duplicate(), status: *status, body: clone_json(body) },
            MessagePayload::Event { event_type, body } =>
                MessagePayload::Event { event_type: event_type.clone(), body: clone_json(body) },
        }
    }

    /// Whether two payloads are of the same kind with equal contents.
    pub open spec fn same_as(&self, other: &Self) -> bool {
        match (self, other) {
            (MessagePayload::Request { operation: o1, body: b1 }, MessagePayload::Request { operation: o2, body: b2 }) =>
                o1@ == o2@ && b1 == b2,
            (MessagePayload::Response { request_id: r1, status: s1, body: b1 },
                MessagePayload::Response { request_id: r2, status: s2, body: b2 }) =>
                r1@ == r2@ && s1 == s2 && b1 == b2,
            (MessagePayload::Event { event_type: e1, body: b1 }, MessagePayload::Event { event_type: e2, body: b2 }) =>
                e1@ == e2@ && b1 == b2,
            _ => false,
        }
    }

    /// The operation a request names, or the type of an event.
    pub open spec fn operation(&self) -> Option<Seq<char>> {
        match self {
            MessagePayload::Request { operation, .. } => Some(operation@),
            MessagePayload::Event { event_type, .. } => Some(event_type@),
            MessagePayload::Response { .. } => None,
        }
    }
}

/// A message with routing data and metadata.
#[derive(Debug)]
pub struct TransportMessage {
    pub id: MessageId,
    pub source: SystemAddress,
    pub destination: SystemAddress,
    pub payload: MessagePayload,
    pub priority: Priority,
    pub timestamp: LogicalTimestamp,
    pub correlation_id: Option<MessageId>,
    pub headers: OrderedMap<String>,
}

/// The identifier text of an optional identifier.
pub open spec fn opt_id(o: Option<MessageId>) -> Option<Seq<char>> {
    match o {
        Some(m) => Some(m@),
        None => None,
    }
}

/// The header values as text.
pub open spec fn header_texts(h: Map<Seq<char>, String>) -> Map<Seq<char>, Seq<char>> {
    h.map_values(|v: String| v@)
}

impl TransportMessage {
    /// Whether two messages agree in every field.
    pub open spec fn same_as(&self, other: &Self) -> bool {
        &&& self.id@ == other.id@
        &&& self.source.key() == other.source.key()
        &&& self.destination.key() == other.destination.key()
        &&& self.payload.same_as(&other.payload)
        &&& self.priority == other.priority
        &&& self.timestamp == other.timestamp
        &&& opt_id(self.correlation_id) == opt_id(other.correlation_id)
        &&& header_texts(self.headers@) == header_texts(other.headers@)
    }

    /// A request of `operation` from `source` to `destination`, at normal
    /// priority, without correlation identifier or headers.
    pub fn request(id: MessageId, source: SystemAddress, destination: SystemAddress, operation: &str,
        body: serde_json::Value, ts: LogicalTimestamp) -> (m: Self)
        ensures
            m.id == id,
            m.source == source,
            m.destination == destination,
            m.payload matches MessagePayload::Request { operation: o, body: b } && o@ == operation@ && b == body,
            m.priority == Priority::Normal,
            m.timestamp == ts,
            m.correlation_id is None,
            m.headers@ == Map::<Seq<char>, String>::empty(),
    {
        TransportMessage {
            id,
            source,
            destination,
            payload: MessagePayload::Request { operation: to_owned_string(operation), body },
            priority: Priority::Normal,
            timestamp: ts,
            correlation_id: None,
            headers: OrderedMap::new(),
        }
    }

    /// The response to `request`: it travels back from the request's
    /// destination to its source, at the request's priority, correlated with
    /// the request's identifier.
    pub fn response(id: MessageId, request: &TransportMessage, status: ResponseStatus, body: serde_json::Value,
        ts: LogicalTimestamp) -> (m: Self)
        ensures
            m.id == id,
            m.source.key() == request.destination.key(),
            m.destination.key() == request.source.key(),
            m.payload matches MessagePayload::Response { request_id: r, status: s, body: b }
                && r@ == request.id@ && s == status && b == body,
            m.priority == request.priority,
            m.timestamp == ts,
            m.correlation_id matches Some(c) && c@ == request.id@,
            m.headers@ == Map::<Seq<char>, String>::empty(),
    {
        TransportMessage {
            id,
            source: request.destination.duplicate(),
            destination: request.source.duplicate(),
            payload: MessagePayload::Response { request_id: request.id.duplicate(), status, body },
            priority: request.priority,
            timestamp: ts,
            correlation_id: Some(request.id.duplicate()),
            headers: OrderedMap::new(),
        }
    }

    /// An event of type `event_type` from `source` to `destination`, at
    /// normal priority, without correlation identifier or headers.
    pub fn event(id: MessageId, source: SystemAddress, destination: SystemAddress, event_type: &str,
        body: serde_json::Value, ts: LogicalTimestamp) -> (m: Self)
        ensures
            m.id == id,
            m.source == source,
            m.destination == destination,
            m.payload matches MessagePayload::Event { event_type: e, body: b } && e@ == event_type@ && b == body,
            m.priority == Priority::Normal,
            m.timestamp == ts,
            m.correlation_id is None,
            m.headers@ == Map::<Seq<char>, String>::empty(),
    {
        TransportMessage {
            id,
            source,
            destination,
            payload: MessagePayload::Event { event_type: to_owned_string(event_type), body },
            priority: Priority::Normal,
            timestamp: ts,
            correlation_id: None,
            headers: OrderedMap::new(),
        }
    }

    /// The message with the given priority.
    pub fn with_priority(self, priority: Priority) -> (m: Self)
        ensures
            m.priority == priority,
            m.id == self.id,
            m.source == self.source,
            m.destination == self.destination,
            m.payload == self.payload,
            m.timestamp == self.timestamp,
            m.correlation_id == self.correlation_id,
            m.headers == self.headers,
    {
        let mut m = self;
        m.priority = priority;
        m
    }

    /// The message with header `key` set to `value`.
    pub fn with_header(self, key: &str, value: &str) -> (m: Self)
        ensures
            header_texts(m.headers@) == header_texts(self.headers@).insert(key@, value@),
            m.priority == self.priority,
            m.id == self.id,
            m.source == self.source,
            m.destination == self.destination,
            m.payload == self.payload,
            m.timestamp == self.timestamp,
            m.correlation_id == self.correlation_id,
    {
        let mut m = self;
        let v = to_owned_string(value);
        let _ = m.headers.insert(to_owned_string(key), v);
        proof {
            assert(header_texts(m.headers@) =~= header_texts(self.headers@).insert(key@, value@));
        }
        m
    }

    /// A copy of the message.
    pub fn duplicate(&self) -> (m: Self)
        ensures
            m.same_as(self),
    {
        let h = self.headers.duplicate();
        proof {
            assert(header_texts(h@) =~= header_texts(self.headers@));
        }
        TransportMessage {
            id: self.id.duplicate(),
            source: self.source.duplicate(),
            destination: self.destination.duplicate(),
            payload: self.payload.duplicate(),
            priority: self.priority,
            timestamp: self.timestamp,
            correlation_id: match &self.correlation_id {
                Some(c) => Some(c.duplicate()),
                None => None,
            },
            headers: h,
        }
    }

    /// The display form `"Message(<id>: <source> -> <destination>)"`.
    pub fn display_string(&self) -> (s: String)
        ensures
            s@ == "Message("@ + self.id@ + ": "@ + self.source.name() + " -> "@ + self.destination.name() + ")"@,
    {
        let mut s = to_owned_string("Message(");
        s.append(self.id.as_str());
        s.append(": ");
        let a = self.source.display_string();
        s.append(a.as_str());
        s.append(" -> ");
        let b = self.destination.display_string();
        s.append(b.as_str());
        s.append(")");
        s
    }
}

// ---------------------------------------------------------------------------
// Routing
// ---------------------------------------------------------------------------

/// A route: a destination and an optional operation name to match.
#[derive(Debug)]
pub struct RouteEntry {
    pub source: Option<SystemAddress>,
    pub destination: SystemAddress,
    pub operation_pattern: Option<String>,
    pub handler_name: String,
}

/// Whether a route accepts a message for `dest` carrying operation `op`:
/// the destination must match, and a route with a pattern accepts only the
/// operation it names.
pub open spec fn route_accepts(e: RouteEntry, dest: SystemAddress, op: Option<Seq<char>>) -> bool {
    &&& e.destination.key() == dest.key()
    &&& match e.operation_pattern {
        Some(p) => op == Some(p@),
        None => true,
    }
}

/// A route accepts a message only when it names the message's
/// destination system (the same well-known system, or a custom system of
/// the same name); a route without operation pattern that names the
/// destination accepts every message for it, and one with a pattern only
/// requests and events whose operation is the pattern.  So among routes, none of
/// which names a message's destination, none accepts the message, and it
/// is kept as undelivered.
pub proof fn lemma_routes_follow_destination(routes: Seq<RouteEntry>, m: TransportMessage)
    ensures
        forall|i: int| 0 <= i < routes.len() && route_accepts(#[trigger] routes[i], m.destination, m.payload.operation())
            ==> match (routes[i].destination, m.destination) {
                (SystemAddress::GraphSystem, SystemAddress::GraphSystem) => true,
                (SystemAddress::AgentSystem, SystemAddress::AgentSystem) => true,
                (SystemAddress::BlueprintSystem, SystemAddress::BlueprintSystem) => true,
                (SystemAddress::TaskSystem, SystemAddress::TaskSystem) => true,
                (SystemAddress::Custom(a), SystemAddress::Custom(b)) => a@ == b@,
                _ => false,
            },
        forall|i: int| 0 <= i < routes.len() && (#[trigger] routes[i]).operation_pattern is None
            && routes[i].destination == m.destination ==> route_accepts(routes[i], m.destination, m.payload.operation()),
        forall|i: int| 0 <= i < routes.len() && route_accepts(#[trigger] routes[i], m.destination, m.payload.operation())
            ==> match routes[i].operation_pattern {
                Some(p) => match m.payload {
                    MessagePayload::Request { operation, .. } => operation@ == p@,
                    MessagePayload::Event { event_type, .. } => event_type@ == p@,
                    MessagePayload::Response { .. } => false,
                },
                None => true,
            },
        (forall|i: int| 0 <= i < routes.len() ==> (#[trigger] routes[i]).destination.key() != m.destination.key())
            ==> forall|i: int| 0 <= i < routes.len() ==> !route_accepts(#[trigger] routes[i], m.destination,
                m.payload.operation()),
{
}

/// The text of the error for a message that no route accepts.
pub open spec fn no_route_message(m: TransportMessage) -> Seq<char> {
    "no route for message "@ + m.id@ + " to "@ + m.destination.name()
}

/// A router: messages go to the handler of the first route that accepts
/// them; messages no route accepts are kept as undelivered.
pub struct MessageRouter<H> {
    routes: Vec<(RouteEntry, H)>,
    undelivered: Vec<TransportMessage>,
}

impl<H: Fn(&TransportMessage) -> FoundationResult<TransportMessage>> MessageRouter<H> {
    /// The routes with their handlers, in registration order.
    pub closed spec fn route_seq(&self) -> Seq<(RouteEntry, H)> {
        self.routes@
    }

    /// The undelivered messages, oldest first.
    pub closed spec fn undelivered_seq(&self) -> Seq<TransportMessage> {
        self.undelivered@
    }

    /// A router without routes.
    pub fn new() -> (r: Self)
        ensures
            r.route_seq() == Seq::<(RouteEntry, H)>::empty(),
            r.undelivered_seq() == Seq::<TransportMessage>::empty(),
    {
        MessageRouter { routes: Vec::new(), undelivered: Vec::new() }
    }

    /// Adds a route for `destination` (and `operation_pattern`, when given)
    /// after the existing ones.
    pub fn register(&mut self, destination: SystemAddress, operation_pattern: Option<String>, handler_name: &str,
        handler: H)
        ensures
            final(self).route_seq().len() == old(self).route_seq().len() + 1,
            final(self).route_seq().drop_last() == old(self).route_seq(),
            final(self).route_seq().last().0.source is None,
            final(self).route_seq().last().0.destination == destination,
            final(self).route_seq().last().0.operation_pattern == operation_pattern,
            final(self).route_seq().last().0.handler_name@ == handler_name@,
            final(self).route_seq().last().1 == handler,
            final(self).undelivered_seq() == old(self).undelivered_seq(),
    {
        let entry = RouteEntry {
            source: None,
            destination,
            operation_pattern,
            handler_name: to_owned_string(handler_name),
        };
        self.routes.push((entry, handler));
        assert(self.routes@.drop_last() =~= old(self).routes@);
    }

    /// The index of the first route accepting the message.
    fn find_route(&self, message: &TransportMessage) -> (r: Option<usize>)
        ensures
            r matches Some(i) ==> i < self.routes@.len()
                && route_accepts(self.routes@[i as int].0, message.destination, message.payload.operation())
                && forall|j: int| 0 <= j < i ==> !route_accepts(#[trigger] self.routes@[j].0, message.destination,
                    message.payload.operation()),
            r is None ==> forall|j: int| 0 <= j < self.routes@.len() ==> !route_accepts(#[trigger] self.routes@[j].0,
                message.destination, message.payload.operation()),
    {
        let operation: Option<&str> = match &message.payload {
            MessagePayload::Request { operation, .. } => Some(operation.as_str()),
            MessagePayload::Event { event_type, .. } => Some(event_type.as_str()),
            MessagePayload::Response { .. } => None,
        };
        let ghost op = message.payload.operation();
        assert(match operation { Some(o) => op == Some(o@), None => op is None });
        let mut i: usize = 0;
        while i < self.routes.len()
            invariant
                i <= self.routes@.len(),
                op == message.payload.operation(),
                match operation { Some(o) => op == Some(o@), None => op is None },
                forall|j: int| 0 <= j < i ==> !route_accepts(#[trigger] self.routes@[j].0, message.destination, op),
            decreases self.routes.len() - i,
        {
            let entry = &self.routes[i].0;
            if entry.destination.same(&message.destination) {
                let accepts = match &entry.operation_pattern {
                    Some(pattern) => match operation {
                        Some(o) => str_equal(o, pattern.as_str()),
                        None => false,
                    },
                    None => true,
                };
                if accepts {
                    return Some(i);
                }
            }
            i = i + 1;
        }
        None
    }

    /// Routes a message: the handler of the first route accepting it is
    /// called on it and its result returned.  When no route accepts it, a
    /// copy of the message is kept as undelivered and an error returned.
    pub fn route(&mut self, message: &TransportMessage) -> (r: FoundationResult<TransportMessage>)
        requires
            forall|i: int| 0 <= i < old(self).route_seq().len()
                ==> call_requires(#[trigger] old(self).route_seq()[i].1, (message,)),
        ensures
            final(self).route_seq() == old(self).route_seq(),
            (exists|i: int| 0 <= i < old(self).route_seq().len()
                && route_accepts(#[trigger] old(self).route_seq()[i].0, message.destination, message.payload.operation()))
                ==> {
                    let i = choose|i: int| 0 <= i < old(self).route_seq().len()
                        && route_accepts(#[trigger] old(self).route_seq()[i].0, message.destination,
                            message.payload.operation())
                        && forall|j: int| 0 <= j < i ==> !route_accepts(#[trigger] old(self).route_seq()[j].0,
                            message.destination, message.payload.operation());
                    &&& call_ensures(old(self).route_seq()[i].1, (message,), r)
                    &&& final(self).undelivered_seq() == old(self).undelivered_seq()
                },
            !(exists|i: int| 0 <= i < old(self).route_seq().len()
                && route_accepts(#[trigger] old(self).route_seq()[i].0, message.destination, message.payload.operation()))
                ==> {
                    &&& r matches Err(FoundationError::TransportError(t)) && t@ == no_route_message(*message)
                    &&& final(self).undelivered_seq().len() == old(self).undelivered_seq().len() + 1
                    &&& final(self).undelivered_seq().drop_last() == old(self).undelivered_seq()
                    &&& final(self).undelivered_seq().last().same_as(message)
                },
    {
        match self.find_route(message) {
            Some(i) => {
                proof {
                    let ghost k = choose|k: int| 0 <= k < self.routes@.len()
                        && route_accepts(#[trigger] self.routes@[k].0, message.destination, message.payload.operation())
                        && forall|j: int| 0 <= j < k ==> !route_accepts(#[trigger] self.routes@[j].0,
                            message.destination, message.payload.operation());
                    assert(0 <= i < self.routes@.len() && route_accepts(self.routes@[i as int].0, message.destination,
                        message.payload.operation()));
                    if k < i {
                        assert(!route_accepts(self.routes@[k].0, message.destination, message.payload.operation()));
                    }
                    if i < k {
                        assert(!route_accepts(self.routes@[i as int].0, message.destination, message.payload.operation()));
                    }
                }
                let handler = &self.routes[i].1;
                assert(old(self).route_seq()[i as int].1 == *handler);
                assert(call_requires(*handler, (message,)));
                handler(message)
            },
            None => {
                let copy = message.duplicate();
                self.undelivered.push(copy);
                assert(self.undelivered@.drop_last() =~= old(self).undelivered@);
                let mut t = to_owned_string("no route for message ");
                t.append(message.id.as_str());
                t.append(" to ");
                let d = message.destination.display_string();
                t.append(d.as_str());
                Err(FoundationError::TransportError(t))
            },
        }
    }

    /// The undelivered messages, oldest first.
    pub fn undelivered(&self) -> (r: &[TransportMessage])
        ensures
            r@ == self.undelivered_seq(),
    {
        self.undelivered.as_slice()
    }

    /// Forgets the undelivered messages.
    pub fn clear_undelivered(&mut self)
        ensures
            final(self).undelivered_seq() == Seq::<TransportMessage>::empty(),
            final(self).route_seq() == old(self).route_seq(),
    {
        self.undelivered.clear();
    }
}

impl<H: Fn(&TransportMessage) -> FoundationResult<TransportMessage>> Default for MessageRouter<H> {
    fn default() -> (r: Self)
        ensures
            r.route_seq() == Seq::<(RouteEntry, H)>::empty(),
            r.undelivered_seq() == Seq::<TransportMessage>::empty(),
    {
        MessageRouter::new()
    }
}

// ---------------------------------------------------------------------------
// Clients and queues
// ---------------------------------------------------------------------------

/// A client of a system that sends messages and receives responses.
pub trait TransportClient {
    /// Sends a message and returns the response.
    fn send(&self, message: TransportMessage) -> FoundationResult<TransportMessage>;

    /// The address of the system the client talks to.
    fn address(&self) -> &SystemAddress;
}

/// The messages of the given priority, in their order.
pub open spec fn with_priority_level(s: Seq<TransportMessage>, p: Priority) -> Seq<TransportMessage> {
    s.filter(|m: TransportMessage| m.priority == p)
}

/// The messages grouped by priority, highest first, each group in queue
/// order.
pub open spec fn by_priority(s: Seq<TransportMessage>) -> Seq<TransportMessage> {
    with_priority_level(s, Priority::Critical) + with_priority_level(s, Priority::High)
        + with_priority_level(s, Priority::Normal) + with_priority_level(s, Priority::Low)
}

/// Draining by priority yields the messages in non-increasing priority:
/// no message follows one of lower priority, so every Critical message
/// precedes every High one, which precede Normal ones, then Low ones.
pub proof fn lemma_drain_priority_order(s: Seq<TransportMessage>)
    ensures
        forall|i: int, j: int| 0 <= i < j < by_priority(s).len() ==> {
            let a = #[trigger] by_priority(s)[i];
            let b = #[trigger] by_priority(s)[j];
            &&& b.priority == Priority::Critical ==> a.priority == Priority::Critical
            &&& b.priority == Priority::High ==> a.priority == Priority::Critical || a.priority == Priority::High
            &&& b.priority == Priority::Normal ==> a.priority != Priority::Low
        },
{
    let c = with_priority_level(s, Priority::Critical);
    let h = with_priority_level(s, Priority::High);
    let n = with_priority_level(s, Priority::Normal);
    let l = with_priority_level(s, Priority::Low);
    let r = by_priority(s);
    assert forall|k: int| 0 <= k < c.len() implies (#[trigger] c[k]).priority == Priority::Critical by {
        s.lemma_filter_pred(|m: TransportMessage| m.priority == Priority::Critical, k);
    }
    assert forall|k: int| 0 <= k < h.len() implies (#[trigger] h[k]).priority == Priority::High by {
        s.lemma_filter_pred(|m: TransportMessage| m.priority == Priority::High, k);
    }
    assert forall|k: int| 0 <= k < n.len() implies (#[trigger] n[k]).priority == Priority::Normal by {
        s.lemma_filter_pred(|m: TransportMessage| m.priority == Priority::Normal, k);
    }
    assert forall|k: int| 0 <= k < l.len() implies (#[trigger] l[k]).priority == Priority::Low by {
        s.lemma_filter_pred(|m: TransportMessage| m.priority == Priority::Low, k);
    }
    let b1 = c.len() as int;
    let b2 = b1 + h.len();
    let b3 = b2 + n.len();
    assert(r.len() == b3 + l.len());
    assert forall|k: int| 0 <= k < r.len() implies {
        &&& k < b1 ==> (#[trigger] r[k]).priority == Priority::Critical
        &&& b1 <= k < b2 ==> r[k].priority == Priority::High
        &&& b2 <= k < b3 ==> r[k].priority == Priority::Normal
        &&& b3 <= k ==> r[k].priority == Priority::Low
    } by {
        if k < b1 {
            assert(r[k] == c[k]);
        } else if k < b2 {
            assert(r[k] == h[k - b1]);
        } else if k < b3 {
            assert(r[k] == n[k - b2]);
        } else {
            assert(r[k] == l[k - b3]);
        }
    }
}

proof fn lemma_class_of_class(s: Seq<TransportMessage>, p: Priority, q: Priority)
    ensures
        with_priority_level(with_priority_level(s, p), q) == if p == q {
            with_priority_level(s, p)
        } else {
            Seq::<TransportMessage>::empty()
        },
    decreases s.len(),
{
    reveal(Seq::filter);
    if s.len() == 0 {
        assert(with_priority_level(s, p) =~= Seq::<TransportMessage>::empty());
        assert(with_priority_level(Seq::<TransportMessage>::empty(), q) =~= Seq::<TransportMessage>::empty());
    } else {
        lemma_class_of_class(s.drop_last(), p, q);
        let t = with_priority_level(s.drop_last(), p);
        if s.last().priority == p {
            assert(with_priority_level(s, p) == t.push(s.last()));
            assert(t.push(s.last()).drop_last() =~= t);
        } else {
            assert(with_priority_level(s, p) == t);
        }
    }
}

/// Draining by priority keeps the queue order within each priority: the
/// messages of any one priority come out as they were queued.
pub proof fn lemma_drain_keeps_queue_order(s: Seq<TransportMessage>, p: Priority)
    ensures
        with_priority_level(by_priority(s), p) == with_priority_level(s, p),
{
    let pred = |m: TransportMessage| m.priority == p;
    let c = with_priority_level(s, Priority::Critical);
    let h = with_priority_level(s, Priority::High);
    let n = with_priority_level(s, Priority::Normal);
    let l = with_priority_level(s, Priority::Low);
    Seq::filter_distributes_over_add(c + h + n, l, pred);
    Seq::filter_distributes_over_add(c + h, n, pred);
    Seq::filter_distributes_over_add(c, h, pred);
    lemma_class_of_class(s, Priority::Critical, p);
    lemma_class_of_class(s, Priority::High, p);
    lemma_class_of_class(s, Priority::Normal, p);
    lemma_class_of_class(s, Priority::Low, p);
    match p {
        Priority::Critical => {
            assert(with_priority_level(by_priority(s), p) =~= with_priority_level(s, p));
        },
        Priority::High => {
            assert(with_priority_level(by_priority(s), p) =~= with_priority_level(s, p));
        },
        Priority::Normal => {
            assert(with_priority_level(by_priority(s), p) =~= with_priority_level(s, p));
        },
        Priority::Low => {
            assert(with_priority_level(by_priority(s), p) =~= with_priority_level(s, p));
        },
    }
}

/// Draining by priority loses and duplicates nothing: the drained messages
/// are the queued ones, rearranged.
pub proof fn lemma_drain_is_permutation(s: Seq<TransportMessage>)
    ensures
        by_priority(s).to_multiset() == s.to_multiset(),
    decreases s.len(),
{
    broadcast use vstd::seq_lib::group_to_multiset_ensures, vstd::multiset::group_multiset_axioms;
    reveal(Seq::filter);
    if s.len() == 0 {
        assert(by_priority(s) =~= Seq::<TransportMessage>::empty());
    } else {
        let t = s.drop_last();
        let x = s.last();
        lemma_drain_is_permutation(t);
        let c = with_priority_level(t, Priority::Critical);
        let h = with_priority_level(t, Priority::High);
        let n = with_priority_level(t, Priority::Normal);
        let l = with_priority_level(t, Priority::Low);
        vstd::seq_lib::lemma_multiset_commutative(c + h, n);
        vstd::seq_lib::lemma_multiset_commutative(c, h);
        vstd::seq_lib::lemma_multiset_commutative(c + h + n, l);
        assert(s =~= t.push(x));
        match x.priority {
            Priority::Critical => {
                assert(by_priority(s) =~= c.push(x) + h + n + l);
                vstd::seq_lib::lemma_multiset_commutative(c.push(x), h);
                vstd::seq_lib::lemma_multiset_commutative(c.push(x) + h, n);
                vstd::seq_lib::lemma_multiset_commutative(c.push(x) + h + n, l);
            },
            Priority::High => {
                assert(by_priority(s) =~= c + h.push(x) + n + l);
                vstd::seq_lib::lemma_multiset_commutative(c, h.push(x));
                vstd::seq_lib::lemma_multiset_commutative(c + h.push(x), n);
                vstd::seq_lib::lemma_multiset_commutative(c + h.push(x) + n, l);
            },
            Priority::Normal => {
                assert(by_priority(s) =~= c + h + n.push(x) + l);
                vstd::seq_lib::lemma_multiset_commutative(c + h, n.push(x));
                vstd::seq_lib::lemma_multiset_commutative(c + h + n.push(x), l);
            },
            Priority::Low => {
                assert(by_priority(s) =~= c + h + n + l.push(x));
                vstd::seq_lib::lemma_multiset_commutative(c + h + n, l.push(x));
            },
        }
        assert(by_priority(s).to_multiset() =~= s.to_multiset());
    }
}

/// Enqueue then dequeue is first-in, first-out: a message enqueued on an
/// empty queue is the next one out, and enqueuing leaves the front of a
/// non-empty queue in place.
pub proof fn lemma_queue_fifo(before: Seq<TransportMessage>, m: TransportMessage)
    ensures
        before.len() == 0 ==> before.push(m)[0] == m && before.push(m).drop_first() == before,
        before.len() > 0 ==> before.push(m)[0] == before[0]
            && before.push(m).drop_first() == before.drop_first().push(m),
{
    if before.len() == 0 {
        assert(before.push(m).drop_first() =~= before);
    } else {
        assert(before.push(m).drop_first() =~= before.drop_first().push(m));
    }
}

/// A first-in, first-out buffer of messages.
#[derive(Debug)]
pub struct MessageQueue {
    queue: VecDeque<TransportMessage>,
}

impl View for MessageQueue {
    type V = Seq<TransportMessage>;

    closed spec fn view(&self) -> Seq<TransportMessage> {
        self.queue@
    }
}

impl MessageQueue {
    /// An empty queue.
    pub fn new() -> (q: Self)
        ensures
            q@ == Seq::<TransportMessage>::empty(),
    {
        MessageQueue { queue: VecDeque::new() }
    }

    /// Adds a message at the back.
    pub fn enqueue(&mut self, message: TransportMessage)
        ensures
            final(self)@ == old(self)@.push(message),
    {
        self.queue.push_back(message);
    }

    /// Removes and returns the message at the front.
    pub fn dequeue(&mut self) -> (r: Option<TransportMessage>)
        ensures
            old(self)@.len() == 0 ==> r is None && final(self)@ == old(self)@,
            old(self)@.len() > 0 ==> r == Some(old(self)@[0]) && final(self)@ == old(self)@.drop_first(),
    {
        let r = self.queue.pop_front();
        proof {
            if old(self)@.len() > 0 {
                assert(self.queue@ =~= old(self)@.drop_first());
            }
        }
        r
    }

    /// The message at the front, left in place.
    pub fn peek(&self) -> (r: Option<&TransportMessage>)
        ensures
            self@.len() == 0 ==> r is None,
            self@.len() > 0 ==> r == Some(&self@[0]),
    {
        if self.queue.len() == 0 {
            None
        } else {
            Some(&self.queue[0])
        }
    }

    /// Number of messages.
    pub fn len(&self) -> (n: usize)
        ensures
            n == self@.len(),
    {
        self.queue.len()
    }

    /// Whether the queue is empty.
    pub fn is_empty(&self) -> (b: bool)
        ensures
            b == (self@.len() == 0),
    {
        self.queue.len() == 0
    }

    /// Empties the queue, returning its messages by priority, highest
    /// first; messages of equal priority keep their queue order.
    pub fn drain_by_priority(&mut self) -> (r: Vec<TransportMessage>)
        ensures
            final(self)@ == Seq::<TransportMessage>::empty(),
            r@ == by_priority(old(self)@),
    {
        let ghost all = self.queue@;
        let mut critical: Vec<TransportMessage> = Vec::new();
        let mut high: Vec<TransportMessage> = Vec::new();
        let mut normal: Vec<TransportMessage> = Vec::new();
        let mut low: Vec<TransportMessage> = Vec::new();
        let ghost mut taken: nat = 0;
        while self.queue.len() > 0
            invariant
                taken <= all.len(),
                self.queue@ == all.subrange(taken as int, all.len() as int),
                critical@ == with_priority_level(all.take(taken as int), Priority::Critical),
                high@ == with_priority_level(all.take(taken as int), Priority::High),
                normal@ == with_priority_level(all.take(taken as int), Priority::Normal),
                low@ == with_priority_level(all.take(taken as int), Priority::Low),
            decreases self.queue@.len(),
        {
            let m = self.queue.pop_front().unwrap();
            proof {
                let s1 = all.take((taken + 1) as int);
                assert(s1.drop_last() =~= all.take(taken as int));
                assert(s1.last() == m);
                reveal(Seq::filter);
                taken = taken + 1;
                assert(self.queue@ =~= all.subrange(taken as int, all.len() as int));
            }
            match m.priority {
                Priority::Critical => critical.push(m),
                Priority::High => high.push(m),
                Priority::Normal => normal.push(m),
                Priority::Low => low.push(m),
            }
        }
        proof {
            assert(all.take(taken as int) =~= all);
        }
        critical.append(&mut high);
        critical.append(&mut normal);
        critical.append(&mut low);
        critical
    }
}

impl Default for MessageQueue {
    fn default() -> (q: Self)
        ensures
            q@ == Seq::<TransportMessage>::empty(),
    {
        MessageQueue::new()
    }
}

} // verus!
