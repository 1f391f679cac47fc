//! SHA-256 hashing helpers with lowercase hexadecimal rendering.

use vstd::prelude::*;
use crate::text::{hex_digit, push_char};
use sha2::Digest;
use vstd::string::StringSliceAdditionalSpecFns;

verus! {

/// The SHA-256 digest of a byte sequence, as computed by the `sha2` crate.
pub uninterp spec fn sha256_spec(data: Seq<u8>) -> Seq<u8>;

/// Calls `sha2::Sha256::digest` on the bytes and copies the 32-byte output
/// into an array.  Claims only that the output is the SHA-256 digest of the
/// input, a function of the input bytes alone.
#[verifier::external_body]
fn sha256_digest(data: &[u8]) -> (r: [u8; 32])
    ensures
        r@ == sha256_spec(data@),
{
    let h = sha2::Sha256::digest(data);
    let mut out = [0u8; 32];
    out.copy_from_slice(&h);
    out
}

/// Two lowercase hex characters per byte, high nibble first.
pub open spec fn hex_bytes(bytes: Seq<u8>) -> Seq<char>
    decreases bytes.len(),
{
    if bytes.len() == 0 {
        Seq::empty()
    } else {
        hex_bytes(bytes.drop_last()) + seq![
            hex_digit((bytes.last() / 16) as int),
            hex_digit((bytes.last() % 16) as int),
        ]
    }
}

/// Whether `c` is a lowercase hexadecimal digit.
pub open spec fn is_lower_hex_char(c: char) -> bool {
    ('0' <= c && c <= '9') || ('a' <= c && c <= 'f')
}

/// The hex rendering has two characters per byte, all lowercase hex digits.
pub proof fn lemma_hex_bytes_shape(bytes: Seq<u8>)
    ensures
        hex_bytes(bytes).len() == 2 * bytes.len(),
        forall|i: int| 0 <= i < hex_bytes(bytes).len() ==> is_lower_hex_char(#[trigger] hex_bytes(bytes)[i]),
    decreases bytes.len(),
{
    if bytes.len() > 0 {
        lemma_hex_bytes_shape(bytes.drop_last());
        let prev = hex_bytes(bytes.drop_last());
        let tail = seq![
            hex_digit((bytes.last() / 16) as int),
            hex_digit((bytes.last() % 16) as int),
        ];
        assert(hex_bytes(bytes) == prev + tail);
        assert forall|i: int| 0 <= i < hex_bytes(bytes).len() implies is_lower_hex_char(#[trigger] hex_bytes(bytes)[i]) by {
            if i >= prev.len() {
                assert(hex_bytes(bytes)[i] == tail[i - prev.len()]);
            } else {
                assert(hex_bytes(bytes)[i] == prev[i]);
            }
        }
    }
}

fn hex_char(d: u8) -> (c: char)
    requires
        d < 16,
    ensures
        c == hex_digit(d as int),
{
    if d == 0 { '0' }
    else if d == 1 { '1' }
    else if d == 2 { '2' }
    else if d == 3 { '3' }
    else if d == 4 { '4' }
    else if d == 5 { '5' }
    else if d == 6 { '6' }
    else if d == 7 { '7' }
    else if d == 8 { '8' }
    else if d == 9 { '9' }
    else if d == 10 { 'a' }
    else if d == 11 { 'b' }
    else if d == 12 { 'c' }
    else if d == 13 { 'd' }
    else if d == 14 { 'e' }
    else { 'f' }
}

/// Lowercase hexadecimal rendering of bytes.
pub fn hex_encode(bytes: &[u8]) -> (s: String)
    ensures
        s@ == hex_bytes(bytes@),
{
    let mut s = String::new();
    let mut i: usize = 0;
    while i < bytes.len()
        invariant
            i <= bytes@.len(),
            s@ == hex_bytes(bytes@.subrange(0, i as int)),
        decreases bytes.len() - i,
    {
        let b = bytes[i];
        push_char(&mut s, hex_char(b / 16));
        push_char(&mut s, hex_char(b % 16));
        assert(bytes@.subrange(0, i + 1).drop_last() =~= bytes@.subrange(0, i as int));
        i = i + 1;
        assert(s@ =~= hex_bytes(bytes@.subrange(0, i as int)));
    }
    assert(bytes@.subrange(0, i as int) =~= bytes@);
    s
}

/// The hex SHA-256 hash of bytes.
pub fn sha256_hex(data: &[u8]) -> (s: String)
    ensures
        s@ == hex_bytes(sha256_spec(data@)),
        sha256_spec(data@).len() == 32,
{
    let h = sha256_digest(data);
    hex_encode(&h)
}

/// The hex SHA-256 hash of the UTF-8 bytes of a string.
pub fn sha256_str(s: &str) -> (r: String)
    ensures
        r@ == hex_bytes(sha256_spec(s.spec_bytes())),
{
    sha256_hex(s.as_bytes())
}

/// The concatenation of byte slices.
pub open spec fn concat_parts(parts: Seq<&[u8]>) -> Seq<u8>
    decreases parts.len(),
{
    if parts.len() == 0 {
        Seq::empty()
    } else {
        concat_parts(parts.drop_last()) + parts.last()@
    }
}

/// Concatenates byte slices into a fresh vector, after `prefix`.
pub fn concat_bytes(prefix: &[u8], parts: &[&[u8]]) -> (v: Vec<u8>)
    ensures
        v@ == prefix@ + concat_parts(parts@),
{
    let mut v: Vec<u8> = Vec::new();
    let mut j: usize = 0;
    while j < prefix.len()
        invariant
            j <= prefix@.len(),
            v@ == prefix@.subrange(0, j as int),
        decreases prefix.len() - j,
    {
        v.push(prefix[j]);
        j = j + 1;
        assert(v@ =~= prefix@.subrange(0, j as int));
    }
    assert(prefix@.subrange(0, j as int) =~= prefix@);
    let mut i: usize = 0;
    while i < parts.len()
        invariant
            i <= parts@.len(),
            v@ == prefix@ + concat_parts(parts@.subrange(0, i as int)),
        decreases parts.len() - i,
    {
        let part: &[u8] = parts[i];
        let mut k: usize = 0;
        let ghost before = v@;
        while k < part.len()
            invariant
                k <= part@.len(),
                v@ == before + part@.subrange(0, k as int),
            decreases part.len() - k,
        {
            v.push(part[k]);
            k = k + 1;
            assert(v@ =~= before + part@.subrange(0, k as int));
        }
        assert(part@.subrange(0, k as int) =~= part@);
        assert(parts@.subrange(0, i + 1).drop_last() =~= parts@.subrange(0, i as int));
        i = i + 1;
        assert(v@ =~= prefix@ + concat_parts(parts@.subrange(0, i as int)));
    }
    assert(parts@.subrange(0, i as int) =~= parts@);
    v
}

/// The hex SHA-256 hash of the concatenation of byte slices.
pub fn sha256_parts(parts: &[&[u8]]) -> (s: String)
    ensures
        s@ == hex_bytes(sha256_spec(concat_parts(parts@))),
{
    let empty: [u8; 0] = [];
    let all = concat_bytes(&empty, parts);
    assert(all@ =~= concat_parts(parts@));
    sha256_hex(all.as_slice())
}

/// The raw 32-byte SHA-256 digest of bytes.
pub fn sha256_bytes(data: &[u8]) -> (r: [u8; 32])
    ensures
        r@ == sha256_spec(data@),
{
    sha256_digest(data)
}

} // verus!
