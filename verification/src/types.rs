//! Compound types shared across the platform: property maps, graph
//! entities, versions and operation results.

use vstd::prelude::*;
use crate::errors::{FoundationError, FoundationResult, is_validation_failed};
use crate::id::{DeterministicId, EdgeDomain, GraphDomain, NodeDomain, id_hex_of};
use crate::ordered_map::OrderedMap;
use crate::primitives::{FloatBits, SafeInteger};
use crate::text::{to_owned_string, concat3, dec_nat};
use crate::time::LogicalTimestamp;
use crate::traits::{Identifiable, Validatable};
use vstd::string::StringSliceAdditionalSpecFns;

verus! {

// ---------------------------------------------------------------------------
// Property maps
// ---------------------------------------------------------------------------

/// A value stored in a property map.
#[derive(Debug)]
pub enum PropertyValue {
    Integer(SafeInteger),
    Float(FloatBits),
    Text(String),
    Bool(bool),
    List(Vec<PropertyValue>),
}

/// A key-value property map iterated in key order.
#[derive(Debug)]
pub struct PropertyMap {
    inner: OrderedMap<PropertyValue>,
}

impl View for PropertyMap {
    type V = Map<Seq<char>, PropertyValue>;

    closed spec fn view(&self) -> Map<Seq<char>, PropertyValue> {
        self.inner@
    }
}

impl PropertyMap {
    /// The keys in ascending order.
    pub closed spec fn key_seq(&self) -> Seq<Seq<char>> {
        self.inner.key_seq()
    }

    /// The entries in ascending key order.
    pub closed spec fn entry_seq(&self) -> Seq<(String, PropertyValue)> {
        self.inner.entry_seq()
    }

    /// An empty map.
    pub fn new() -> (m: Self)
        ensures
            m@ == Map::<Seq<char>, PropertyValue>::empty(),
    {
        PropertyMap { inner: OrderedMap::new() }
    }

    /// Stores `value` under `key`, replacing any earlier value.
    pub fn set(&mut self, key: &str, value: PropertyValue)
        ensures
            final(self)@ == old(self)@.insert(key@, value),
    {
        let _ = self.inner.insert(to_owned_string(key), value);
    }

    /// The value under `key`.
    pub fn get(&self, key: &str) -> (r: Option<&PropertyValue>)
        ensures
            r is Some <==> self@.contains_key(key@),
            r matches Some(v) ==> *v == self@[key@],
    {
        self.inner.get(key)
    }

    /// Removes and returns the value under `key`.
    pub fn remove(&mut self, key: &str) -> (r: Option<PropertyValue>)
        ensures
            final(self)@ == old(self)@.remove(key@),
            r is Some <==> old(self)@.contains_key(key@),
            r matches Some(v) ==> v == old(self)@[key@],
    {
        self.inner.remove(key)
    }

    /// Whether `key` is present.
    pub fn contains_key(&self, key: &str) -> (b: bool)
        ensures
            b == self@.contains_key(key@),
    {
        self.inner.contains_key(key)
    }

    /// The keys in ascending order.
    pub fn keys(&self) -> (r: Vec<String>)
        ensures
            crate::text::string_seq_view(r@) == self.key_seq(),
            crate::ordered_map::strictly_sorted(crate::text::string_seq_view(r@)),
            crate::text::string_seq_view(r@).len() == self@.len(),
            forall|k: Seq<char>| #[trigger] self@.contains_key(k) <==> crate::text::string_seq_view(r@).contains(k),
    {
        self.inner.keys()
    }

    /// The entries in ascending key order.
    pub fn iter(&self) -> (r: &[(String, PropertyValue)])
        ensures
            r@ == self.entry_seq(),
            crate::ordered_map::strictly_sorted(crate::ordered_map::keys_of(r@)),
            crate::ordered_map::entries_map(r@) == self@,
            forall|k: Seq<char>| #[trigger] self@.contains_key(k) <==> crate::ordered_map::keys_of(r@).contains(k),
    {
        self.inner.entries()
    }

    /// Number of entries.
    pub fn len(&self) -> (n: usize)
        ensures
            n == self@.len(),
    {
        self.inner.len()
    }

    /// Whether the map is empty.
    pub fn is_empty(&self) -> (b: bool)
        ensures
            b == (self@.len() == 0),
    {
        self.inner.is_empty()
    }
}

impl Default for PropertyMap {
    fn default() -> (m: Self)
        ensures
            m@ == Map::<Seq<char>, PropertyValue>::empty(),
    {
        PropertyMap::new()
    }
}

// ---------------------------------------------------------------------------
// Graph entities
// ---------------------------------------------------------------------------

/// A node: identifier, label, properties and timestamps.
#[derive(Debug)]
pub struct NodeData {
    pub id: DeterministicId<NodeDomain>,
    pub label: String,
    pub properties: PropertyMap,
    pub created_at: LogicalTimestamp,
    pub updated_at: LogicalTimestamp,
}

/// The text hashed into a node's identifier: `"<label>:<properties JSON>"`.
pub open spec fn node_id_content(label: Seq<char>, properties_json: Seq<char>) -> Seq<char> {
    label + ":"@ + properties_json
}

impl NodeData {
    /// A node created at `ts`.  Its identifier hashes the label and
    /// `properties_json`, the JSON text of `properties`, which the caller
    /// renders (empty text where rendering failed).
    pub fn new(label: &str, properties: PropertyMap, properties_json: &str, ts: LogicalTimestamp) -> (n: Self)
        ensures
            n.id@ == id_hex_of::<NodeDomain>(vstd::utf8::encode_utf8(node_id_content(label@, properties_json@))),
            n.label@ == label@,
            n.properties == properties,
            n.created_at == ts,
            n.updated_at == ts,
    {
        let content = concat3(label, ":", properties_json);
        proof {
            reveal_strlit(":");
        }
        NodeData {
            id: DeterministicId::from_content(content.as_str()),
            label: to_owned_string(label),
            properties,
            created_at: ts,
            updated_at: ts,
        }
    }

    /// The display form `"Node(<short id>, label=<label>)"`.
    pub fn display_string(&self) -> (s: String)
        ensures
            s@ == "Node("@ + self.id@.subrange(0, 8) + ", label="@ + self.label@ + ")"@,
    {
        let mut s = to_owned_string("Node(");
        s.append(self.id.short());
        s.append(", label=");
        s.append(self.label.as_str());
        s.append(")");
        s
    }
}

impl Identifiable for NodeData {
    type Domain = NodeDomain;

    fn id(&self) -> (r: DeterministicId<NodeDomain>)
        ensures
            r@ == self.id@,
    {
        self.id.duplicate()
    }
}

impl Validatable for NodeData {
    /// `Ok(())` exactly when the label is not empty.
    fn validate(&self) -> (r: FoundationResult<()>)
        ensures
            r is Ok <==> self.label@.len() > 0,
            r is Err ==> is_validation_failed(r, "node label must not be empty"@),
    {
        if self.label.as_str().unicode_len() == 0 {
            return Err(FoundationError::ValidationFailed(to_owned_string("node label must not be empty")));
        }
        Ok(())
    }
}

/// A directed edge between two nodes.
#[derive(Debug)]
pub struct EdgeData {
    pub id: DeterministicId<EdgeDomain>,
    pub source: DeterministicId<NodeDomain>,
    pub target: DeterministicId<NodeDomain>,
    pub relation: String,
    pub weight: FloatBits,
    pub properties: PropertyMap,
    pub created_at: LogicalTimestamp,
}

/// The text hashed into an edge's identifier: `"<source>:<target>:<relation>"`.
pub open spec fn edge_id_content(source: Seq<char>, target: Seq<char>, relation: Seq<char>) -> Seq<char> {
    source + ":"@ + target + ":"@ + relation
}

impl EdgeData {
    /// An edge created at `ts`, identified by its endpoints and relation.
    pub fn new(source: DeterministicId<NodeDomain>, target: DeterministicId<NodeDomain>, relation: &str,
        weight: FloatBits, properties: PropertyMap, ts: LogicalTimestamp) -> (e: Self)
        ensures
            e.id@ == id_hex_of::<EdgeDomain>(vstd::utf8::encode_utf8(edge_id_content(source@, target@, relation@))),
            e.source@ == source@,
            e.target@ == target@,
            e.relation@ == relation@,
            e.weight == weight,
            e.properties == properties,
            e.created_at == ts,
    {
        let first = concat3(source.as_hex(), ":", target.as_hex());
        let content = concat3(first.as_str(), ":", relation);
        proof {
            reveal_strlit(":");
            assert(content@ =~= edge_id_content(source@, target@, relation@));
        }
        EdgeData {
            id: DeterministicId::from_content(content.as_str()),
            source,
            target,
            relation: to_owned_string(relation),
            weight,
            properties,
            created_at: ts,
        }
    }

    /// The display form `"Edge(<source> --[<relation>]--> <target>)"` with
    /// short identifiers.
    pub fn display_string(&self) -> (s: String)
        ensures
            s@ == "Edge("@ + self.source@.subrange(0, 8) + " --["@ + self.relation@ + "]--> "@
                + self.target@.subrange(0, 8) + ")"@,
    {
        let mut s = to_owned_string("Edge(");
        s.append(self.source.short());
        s.append(" --[");
        s.append(self.relation.as_str());
        s.append("]--> ");
        s.append(self.target.short());
        s.append(")");
        s
    }
}

impl Identifiable for EdgeData {
    type Domain = EdgeDomain;

    fn id(&self) -> (r: DeterministicId<EdgeDomain>)
        ensures
            r@ == self.id@,
    {
        self.id.duplicate()
    }
}

impl Validatable for EdgeData {
    /// `Ok(())` unless the relation is empty or the edge is a self-loop.
    fn validate(&self) -> (r: FoundationResult<()>)
        ensures
            r is Ok <==> self.relation@.len() > 0 && self.source@ != self.target@,
            self.relation@.len() == 0 ==> is_validation_failed(r, "edge relation must not be empty"@),
            self.relation@.len() > 0 && self.source@ == self.target@
                ==> is_validation_failed(r, "self-loops are not allowed"@),
    {
        if self.relation.as_str().unicode_len() == 0 {
            return Err(FoundationError::ValidationFailed(to_owned_string("edge relation must not be empty")));
        }
        if self.source == self.target {
            return Err(FoundationError::ValidationFailed(to_owned_string("self-loops are not allowed")));
        }
        Ok(())
    }
}

/// Metadata of a graph instance.
#[derive(Debug)]
pub struct GraphMetadata {
    pub id: DeterministicId<GraphDomain>,
    pub name: String,
    pub description: String,
    pub node_count: usize,
    pub edge_count: usize,
    pub properties: PropertyMap,
    pub created_at: LogicalTimestamp,
    pub updated_at: LogicalTimestamp,
}

impl GraphMetadata {
    /// Metadata of an empty graph named `name`, identified by its name.
    pub fn new(name: &str, description: &str, ts: LogicalTimestamp) -> (g: Self)
        ensures
            g.id@ == id_hex_of::<GraphDomain>(name.spec_bytes()),
            g.name@ == name@,
            g.description@ == description@,
            g.node_count == 0,
            g.edge_count == 0,
            g.properties@ == Map::<Seq<char>, PropertyValue>::empty(),
            g.created_at == ts,
            g.updated_at == ts,
    {
        GraphMetadata {
            id: DeterministicId::from_content(name),
            name: to_owned_string(name),
            description: to_owned_string(description),
            node_count: 0,
            edge_count: 0,
            properties: PropertyMap::new(),
            created_at: ts,
            updated_at: ts,
        }
    }
}

impl Identifiable for GraphMetadata {
    type Domain = GraphDomain;

    fn id(&self) -> (r: DeterministicId<GraphDomain>)
        ensures
            r@ == self.id@,
    {
        self.id.duplicate()
    }
}

// ---------------------------------------------------------------------------
// Versions
// ---------------------------------------------------------------------------

/// A semantic version.
#[derive(Debug, Clone, Copy, PartialEq, Eq, Structural, PartialOrd, Ord, Hash)]
pub struct VersionInfo {
    pub major: u32,
    pub minor: u32,
    pub patch: u32,
}

impl VersionInfo {
    /// The version `major.minor.patch`.
    pub fn new(major: u32, minor: u32, patch: u32) -> (v: Self)
        ensures
            v.major == major,
            v.minor == minor,
            v.patch == patch,
    {
        VersionInfo { major, minor, patch }
    }

    /// The next major version, `(major + 1).0.0`.
    pub fn bump_major(&self) -> (v: Self)
        requires
            self.major < u32::MAX,
        ensures
            v.major == self.major + 1,
            v.minor == 0,
            v.patch == 0,
    {
        VersionInfo { major: self.major + 1, minor: 0, patch: 0 }
    }

    /// The next minor version, `major.(minor + 1).0`.
    pub fn bump_minor(&self) -> (v: Self)
        requires
            self.minor < u32::MAX,
        ensures
            v.major == self.major,
            v.minor == self.minor + 1,
            v.patch == 0,
    {
        VersionInfo { major: self.major, minor: self.minor + 1, patch: 0 }
    }

    /// The next patch version, `major.minor.(patch + 1)`.
    pub fn bump_patch(&self) -> (v: Self)
        requires
            self.patch < u32::MAX,
        ensures
            v.major == self.major,
            v.minor == self.minor,
            v.patch == self.patch + 1,
    {
        VersionInfo { major: self.major, minor: self.minor, patch: self.patch + 1 }
    }

    /// The display form `"major.minor.patch"`.
    pub fn display_string(&self) -> (s: String)
        ensures
            s@ == dec_nat(self.major as nat) + "."@ + dec_nat(self.minor as nat) + "."@
                + dec_nat(self.patch as nat),
    {
        let mut s = String::new();
        crate::text::append_u64_dec(&mut s, self.major as u64);
        s.append(".");
        crate::text::append_u64_dec(&mut s, self.minor as u64);
        s.append(".");
        crate::text::append_u64_dec(&mut s, self.patch as u64);
        assert(s@ =~= dec_nat(self.major as nat) + "."@ + dec_nat(self.minor as nat) + "."@
            + dec_nat(self.patch as nat));
        s
    }
}

/// Whether version `a` precedes `b` (by major, then minor, then patch).
pub open spec fn version_lt(a: VersionInfo, b: VersionInfo) -> bool {
    a.major < b.major || (a.major == b.major && (a.minor < b.minor || (a.minor == b.minor && a.patch < b.patch)))
}

/// Every bump yields a later version.
pub proof fn lemma_bumps_increase(v: VersionInfo, major: VersionInfo, minor: VersionInfo, patch: VersionInfo)
    requires
        major.major == v.major + 1 && major.minor == 0 && major.patch == 0,
        minor.major == v.major && minor.minor == v.minor + 1 && minor.patch == 0,
        patch.major == v.major && patch.minor == v.minor && patch.patch == v.patch + 1,
    ensures
        version_lt(v, major),
        version_lt(v, minor),
        version_lt(v, patch),
        version_lt(patch, minor),
        version_lt(minor, major),
{
}

// ---------------------------------------------------------------------------
// Status codes and operation results
// ---------------------------------------------------------------------------

/// The status of an operation.
#[derive(Debug, Clone, Copy, PartialEq, Eq, Structural, Hash)]
pub enum StatusCode {
    Success,
    Created,
    Updated,
    Deleted,
    NotFound,
    Conflict,
    ValidationError,
    InternalError,
}

impl StatusCode {
    /// The displayed name of the status.
    pub open spec fn label(self) -> Seq<char> {
        match self {
            StatusCode::Success => "OK"@,
            StatusCode::Created => "CREATED"@,
            StatusCode::Updated => "UPDATED"@,
            StatusCode::Deleted => "DELETED"@,
            StatusCode::NotFound => "NOT_FOUND"@,
            StatusCode::Conflict => "CONFLICT"@,
            StatusCode::ValidationError => "VALIDATION_ERROR"@,
            StatusCode::InternalError => "INTERNAL_ERROR"@,
        }
    }

    /// Whether the status reports success.
    pub open spec fn is_success_spec(self) -> bool {
        self is Success || self is Created || self is Updated || self is Deleted
    }

    /// The displayed name (`"OK"`, `"NOT_FOUND"`, ...).
    pub fn display_string(&self) -> (s: String)
        ensures
            s@ == self.label(),
    {
        match self {
            StatusCode::Success => to_owned_string("OK"),
            StatusCode::Created => to_owned_string("CREATED"),
            StatusCode::Updated => to_owned_string("UPDATED"),
            StatusCode::Deleted => to_owned_string("DELETED"),
            StatusCode::NotFound => to_owned_string("NOT_FOUND"),
            StatusCode::Conflict => to_owned_string("CONFLICT"),
            StatusCode::ValidationError => to_owned_string("VALIDATION_ERROR"),
            StatusCode::InternalError => to_owned_string("INTERNAL_ERROR"),
        }
    }
}

/// A result with its status, optional data and message, and logical time.
#[derive(Debug, Clone)]
pub struct OperationResult<T> {
    pub status: StatusCode,
    pub data: Option<T>,
    pub message: Option<String>,
    pub timestamp: LogicalTimestamp,
}

impl<T> OperationResult<T> {
    /// A successful result carrying `data`.
    pub fn ok(data: T, ts: LogicalTimestamp) -> (r: Self)
        ensures
            r.status == StatusCode::Success,
            r.data == Some(data),
            r.message is None,
            r.timestamp == ts,
    {
        OperationResult { status: StatusCode::Success, data: Some(data), message: None, timestamp: ts }
    }

    /// A result with the given status, no data, and a message.
    pub fn error(status: StatusCode, message: &str, ts: LogicalTimestamp) -> (r: Self)
        ensures
            r.status == status,
            r.data is None,
            r.message matches Some(m) && m@ == message@,
            r.timestamp == ts,
    {
        OperationResult { status, data: None, message: Some(to_owned_string(message)), timestamp: ts }
    }

    /// Whether the status is `Ok`, `Created`, `Updated` or `Deleted`.
    pub fn is_success(&self) -> (b: bool)
        ensures
            b == self.status.is_success_spec(),
    {
        match self.status {
            StatusCode::Success | StatusCode::Created | StatusCode::Updated | StatusCode::Deleted => true,
            _ => false,
        }
    }
}

} // verus!
