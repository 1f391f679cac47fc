//! Domain-tagged deterministic identifiers: the lowercase hex SHA-256 of
//! `domain_tag || content`.

use vstd::prelude::*;
use std::marker::PhantomData;
use crate::errors::{FoundationError, FoundationResult};
use crate::hash::{hex_bytes, sha256_spec, sha256_hex, concat_bytes, concat_parts, is_lower_hex_char,
    lemma_hex_bytes_shape};
use crate::text::{chars_of, push_char, to_owned_string};
use vstd::string::StringSliceAdditionalSpecFns;
use vstd::utf8::{encode_utf8, is_ascii_chars, is_ascii_chars_encode_utf8};

verus! {

/// A domain whose identifiers are hashed with a unique tag.
pub trait DomainTag {
    /// The tag of the domain.
    spec fn tag_spec() -> Seq<char>;

    /// A unique, stable string identifying this domain.
    fn tag() -> (t: &'static str)
        ensures
            t@ == Self::tag_spec();
}

/// The hex identifier of content bytes in domain `D`.
pub open spec fn id_hex_of<D: DomainTag>(content: Seq<u8>) -> Seq<char> {
    hex_bytes(sha256_spec(encode_utf8(D::tag_spec()) + content))
}

/// Whether `c` is an ASCII hexadecimal digit of either case.
pub open spec fn is_hex_char(c: char) -> bool {
    ('0' <= c && c <= '9') || ('a' <= c && c <= 'f') || ('A' <= c && c <= 'F')
}

/// The lowercase form of an ASCII hex digit.
pub open spec fn lower_hex(c: char) -> char {
    if c == 'A' { 'a' }
    else if c == 'B' { 'b' }
    else if c == 'C' { 'c' }
    else if c == 'D' { 'd' }
    else if c == 'E' { 'e' }
    else if c == 'F' { 'f' }
    else { c }
}

/// Whether text is a well-formed identifier: 64 ASCII hex digits.
pub open spec fn valid_hex_id(s: Seq<char>) -> bool {
    &&& encode_utf8(s).len() == 64
    &&& forall|i: int| 0 <= i < s.len() ==> is_hex_char(#[trigger] s[i])
}

/// A deterministic, domain-tagged identifier held as 64 lowercase hex digits.
#[derive(Debug, Eq, Hash)]
pub struct DeterministicId<D: DomainTag> {
    hex: String,
    _marker: PhantomData<D>,
}

impl<D: DomainTag> View for DeterministicId<D> {
    type V = Seq<char>;

    closed spec fn view(&self) -> Seq<char> {
        self.hex@
    }
}

/// Whether a character sequence is 64 lowercase hex digits.
pub open spec fn is_canonical_hex(s: Seq<char>) -> bool {
    &&& s.len() == 64
    &&& forall|i: int| 0 <= i < s.len() ==> is_lower_hex_char(#[trigger] s[i])
}

impl<D: DomainTag> DeterministicId<D> {
    #[verifier::type_invariant]
    spec fn well_formed(self) -> bool {
        is_canonical_hex(self.hex@)
    }

    /// The identifier of `tag || content_bytes`.
    pub fn generate(content_bytes: &[u8]) -> (r: Self)
        ensures
            r@ == id_hex_of::<D>(content_bytes@),
    {
        let parts: [&[u8]; 1] = [content_bytes];
        assert(parts@.len() == 1);
        assert(parts@[0] == content_bytes);
        assert(parts@.drop_last() =~= Seq::<&[u8]>::empty());
        assert(concat_parts(parts@.drop_last()) =~= Seq::<u8>::empty());
        assert(concat_parts(parts@) =~= content_bytes@);
        Self::from_parts(&parts)
    }

    /// The identifier of the UTF-8 bytes of `content`.
    pub fn from_content(content: &str) -> (r: Self)
        ensures
            r@ == id_hex_of::<D>(content.spec_bytes()),
    {
        Self::generate(content.as_bytes())
    }

    /// The identifier of the concatenation of byte slices.
    pub fn from_parts(parts: &[&[u8]]) -> (r: Self)
        ensures
            r@ == id_hex_of::<D>(concat_parts(parts@)),
    {
        let tag = D::tag();
        let data = concat_bytes(tag.as_bytes(), parts);
        let hex = sha256_hex(data.as_slice());
        proof {
            lemma_hex_bytes_shape(sha256_spec(data@));
        }
        DeterministicId { hex, _marker: PhantomData }
    }

    /// An identifier from existing text: 64 ASCII hex digits, stored in
    /// lowercase.
    pub fn from_hex(hex: &str) -> (r: FoundationResult<Self>)
        ensures
            r is Ok <==> valid_hex_id(hex@),
            r matches Ok(id) ==> id@ == hex@.map_values(|c: char| lower_hex(c)),
            r matches Err(e) ==> e is IdError && e.message() == "ID must be a 64-character hex string"@,
    {
        let chars = chars_of(hex);
        let mut all_hex = true;
        let mut i: usize = 0;
        while i < chars.len()
            invariant
                chars@ == hex@,
                i <= chars@.len(),
                all_hex == (forall|j: int| 0 <= j < i ==> is_hex_char(#[trigger] chars@[j])),
            decreases chars.len() - i,
        {
            let c = chars[i];
            let ok = ('0' <= c && c <= '9') || ('a' <= c && c <= 'f') || ('A' <= c && c <= 'F');
            if !ok {
                all_hex = false;
            }
            i = i + 1;
        }
        if hex.len() != 64 || !all_hex {
            return Err(FoundationError::IdError(to_owned_string("ID must be a 64-character hex string")));
        }
        let mut s = String::new();
        let mut k: usize = 0;
        while k < chars.len()
            invariant
                chars@ == hex@,
                k <= chars@.len(),
                forall|j: int| 0 <= j < chars@.len() ==> is_hex_char(#[trigger] chars@[j]),
                s@ == hex@.subrange(0, k as int).map_values(|c: char| lower_hex(c)),
            decreases chars.len() - k,
        {
            let c = chars[k];
            let l = if c == 'A' { 'a' }
                else if c == 'B' { 'b' }
                else if c == 'C' { 'c' }
                else if c == 'D' { 'd' }
                else if c == 'E' { 'e' }
                else if c == 'F' { 'f' }
                else { c };
            push_char(&mut s, l);
            k = k + 1;
            assert(s@ =~= hex@.subrange(0, k as int).map_values(|c: char| lower_hex(c)));
        }
        assert(hex@.subrange(0, k as int) =~= hex@);
        proof {
            assert(is_ascii_chars(hex@));
            is_ascii_chars_encode_utf8(hex@);
            assert forall|j: int| 0 <= j < s@.len() implies is_lower_hex_char(#[trigger] s@[j]) by {
                assert(is_hex_char(hex@[j]));
            }
        }
        Ok(DeterministicId { hex: s, _marker: PhantomData })
    }

    /// The display form: the 64-character hex text.
    pub fn display_string(&self) -> (s: String)
        ensures
            s@ == self@,
    {
        self.hex.clone()
    }

    /// The 64-character lowercase hex text.
    pub fn as_hex(&self) -> (s: &str)
        ensures
            s@ == self@,
            is_canonical_hex(s@),
    {
        proof {
            use_type_invariant(self);
        }
        self.hex.as_str()
    }

    /// The first 8 hex characters, for display.
    pub fn short(&self) -> (s: &str)
        ensures
            s@ == self@.subrange(0, 8),
    {
        proof {
            use_type_invariant(self);
            assert(is_ascii_chars(self.hex@));
        }
        self.hex.as_str().substring_ascii(0, 8)
    }

    /// A copy of the identifier.
    pub fn duplicate(&self) -> (r: Self)
        ensures
            r@ == self@,
    {
        proof {
            use_type_invariant(self);
        }
        DeterministicId { hex: self.hex.clone(), _marker: PhantomData }
    }
}

impl<D: DomainTag> Clone for DeterministicId<D> {
    fn clone(&self) -> (r: Self)
        ensures
            r@ == self@,
    {
        self.duplicate()
    }
}

impl<D: DomainTag> PartialEq for DeterministicId<D> {
    fn eq(&self, other: &Self) -> (r: bool) {
        self.hex == other.hex
    }
}

impl<D: DomainTag> vstd::std_specs::cmp::PartialEqSpecImpl for DeterministicId<D> {
    open spec fn obeys_eq_spec() -> bool {
        true
    }

    open spec fn eq_spec(&self, other: &Self) -> bool {
        self@ == other@
    }
}

/// Hex text of an identifier reads back as the same identifier.
pub proof fn lemma_hex_roundtrip(s: Seq<char>)
    requires
        is_canonical_hex(s),
    ensures
        valid_hex_id(s),
        s.map_values(|c: char| lower_hex(c)) == s,
{
    assert(is_ascii_chars(s));
    is_ascii_chars_encode_utf8(s);
    assert(s.map_values(|c: char| lower_hex(c)) =~= s);
}

/// Domain of node identifiers.
#[derive(Debug, Clone, Copy, PartialEq, Eq, Hash)]
pub struct NodeDomain;

impl DomainTag for NodeDomain {
    open spec fn tag_spec() -> Seq<char> {
        "node"@
    }

    fn tag() -> (t: &'static str) {
        "node"
    }
}

/// Domain of edge identifiers.
#[derive(Debug, Clone, Copy, PartialEq, Eq, Hash)]
pub struct EdgeDomain;

impl DomainTag for EdgeDomain {
    open spec fn tag_spec() -> Seq<char> {
        "edge"@
    }

    fn tag() -> (t: &'static str) {
        "edge"
    }
}

/// Domain of graph identifiers.
#[derive(Debug, Clone, Copy, PartialEq, Eq, Hash)]
pub struct GraphDomain;

impl DomainTag for GraphDomain {
    open spec fn tag_spec() -> Seq<char> {
        "graph"@
    }

    fn tag() -> (t: &'static str) {
        "graph"
    }
}

/// Domain of agent identifiers.
#[derive(Debug, Clone, Copy, PartialEq, Eq, Hash)]
pub struct AgentDomain;

impl DomainTag for AgentDomain {
    open spec fn tag_spec() -> Seq<char> {
        "agent"@
    }

    fn tag() -> (t: &'static str) {
        "agent"
    }
}

/// Domain of blueprint identifiers.
#[derive(Debug, Clone, Copy, PartialEq, Eq, Hash)]
pub struct BlueprintDomain;

impl DomainTag for BlueprintDomain {
    open spec fn tag_spec() -> Seq<char> {
        "blueprint"@
    }

    fn tag() -> (t: &'static str) {
        "blueprint"
    }
}

/// Domain of task identifiers.
#[derive(Debug, Clone, Copy, PartialEq, Eq, Hash)]
pub struct TaskDomain;

impl DomainTag for TaskDomain {
    open spec fn tag_spec() -> Seq<char> {
        "task"@
    }

    fn tag() -> (t: &'static str) {
        "task"
    }
}

/// Node identifiers.
pub type NodeId = DeterministicId<NodeDomain>;
/// Edge identifiers.
pub type EdgeId = DeterministicId<EdgeDomain>;
/// Graph identifiers.
pub type GraphId = DeterministicId<GraphDomain>;
/// Agent identifiers.
pub type AgentId = DeterministicId<AgentDomain>;
/// Blueprint identifiers.
pub type BlueprintId = DeterministicId<BlueprintDomain>;
/// Task identifiers.
pub type TaskId = DeterministicId<TaskDomain>;

} // verus!
