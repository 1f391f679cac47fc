//! Reusable validation checks and a collector that accumulates failures.

use vstd::prelude::*;
use crate::errors::{FoundationError, FoundationResult, is_validation_failed, is_out_of_range};
use crate::primitives::SafeInteger;
use crate::text::{to_owned_string, concat2, dec_nat, dec_int, chars_of, push_char, string_seq_view};
use vstd::string::StringSliceAdditionalSpecFns;
use vstd::std_specs::cmp::PartialEqSpec;

verus! {

/// Whether `char::is_alphanumeric` holds of the character (Unicode
/// `Alphabetic` or `Numeric`).
pub uninterp spec fn char_is_alphanumeric(c: char) -> bool;

/// An ASCII letter or digit.
pub open spec fn ascii_alphanumeric(c: char) -> bool {
    ('a' <= c && c <= 'z') || ('A' <= c && c <= 'Z') || ('0' <= c && c <= '9')
}

/// Whether the character is alphanumeric: among ASCII characters the
/// letters and digits, beyond ASCII as `char::is_alphanumeric` decides.
pub open spec fn is_alphanumeric_spec(c: char) -> bool {
    if (c as u32) < 128 { ascii_alphanumeric(c) } else { char_is_alphanumeric(c) }
}

/// Calls `char::is_alphanumeric`, whose result depends on the character
/// alone (the Unicode tables of the standard library).  Among ASCII
/// characters exactly the letters and digits are alphabetic or numeric, so
/// there the result is stated; beyond ASCII it is named.
#[verifier::external_body]
fn is_alphanumeric(c: char) -> (b: bool)
    ensures
        b == char_is_alphanumeric(c),
        b == is_alphanumeric_spec(c),
{
    c.is_alphanumeric()
}

/// Fails unless the string is not empty.
pub fn non_empty_string(value: &str, field_name: &str) -> (r: FoundationResult<()>)
    ensures
        r is Ok <==> value@.len() > 0,
        r is Err ==> is_validation_failed(r, field_name@ + " must not be empty"@),
{
    if value.unicode_len() == 0 {
        return Err(FoundationError::ValidationFailed(concat2(field_name, " must not be empty")));
    }
    Ok(())
}

/// Fails when the string has fewer than `min` bytes (UTF-8).
pub fn min_length(value: &str, min: usize, field_name: &str) -> (r: FoundationResult<()>)
    ensures
        r is Ok <==> value.spec_bytes().len() >= min,
        r is Err ==> is_validation_failed(r, field_name@ + " must be at least "@ + dec_nat(min as nat)
            + " characters, got "@ + dec_nat(value.spec_bytes().len())),
{
    let len = value.as_bytes().len();
    if len < min {
        let mut m = concat2(field_name, " must be at least ");
        crate::text::append_u64_dec(&mut m, min as u64);
        m.append(" characters, got ");
        crate::text::append_u64_dec(&mut m, len as u64);
        return Err(FoundationError::ValidationFailed(m));
    }
    Ok(())
}

/// Fails when the string has more than `max` bytes (UTF-8).
pub fn max_length(value: &str, max: usize, field_name: &str) -> (r: FoundationResult<()>)
    ensures
        r is Ok <==> value.spec_bytes().len() <= max,
        r is Err ==> is_validation_failed(r, field_name@ + " must be at most "@ + dec_nat(max as nat)
            + " characters, got "@ + dec_nat(value.spec_bytes().len())),
{
    let len = value.as_bytes().len();
    if len > max {
        let mut m = concat2(field_name, " must be at most ");
        crate::text::append_u64_dec(&mut m, max as u64);
        m.append(" characters, got ");
        crate::text::append_u64_dec(&mut m, len as u64);
        return Err(FoundationError::ValidationFailed(m));
    }
    Ok(())
}

/// Whether a character is allowed: alphanumeric or one of `extra`.
pub open spec fn allowed_char(c: char, extra: Seq<char>) -> bool {
    is_alphanumeric_spec(c) || extra.contains(c)
}

/// The characters `alphanumeric_with` allows: every ASCII letter and digit
/// and every listed extra character; an ASCII character that is neither a
/// letter, a digit nor listed (a space, `-`, `_`, ...) is refused.
pub proof fn lemma_allowed_chars(c: char, extra: Seq<char>)
    ensures
        ('a' <= c <= 'z' || 'A' <= c <= 'Z' || '0' <= c <= '9') ==> allowed_char(c, extra),
        extra.contains(c) ==> allowed_char(c, extra),
        (c as u32) < 128 && !('a' <= c <= 'z' || 'A' <= c <= 'Z' || '0' <= c <= '9') && !extra.contains(c)
            ==> !allowed_char(c, extra),
{
}

/// Fails at the first character that is neither alphanumeric nor one of
/// `extra_chars`.
pub fn alphanumeric_with(value: &str, extra_chars: &[char], field_name: &str) -> (r: FoundationResult<()>)
    ensures
        r is Ok <==> forall|i: int| 0 <= i < value@.len() ==> #[trigger] allowed_char(value@[i], extra_chars@),
        r is Err ==> exists|i: int| 0 <= i < value@.len()
            && !#[trigger] allowed_char(value@[i], extra_chars@)
            && (forall|j: int| 0 <= j < i ==> #[trigger] allowed_char(value@[j], extra_chars@))
            && is_validation_failed(r, field_name@ + " contains invalid character: '"@ + seq![value@[i]] + "'"@),
{
    let chars = chars_of(value);
    let mut i: usize = 0;
    while i < chars.len()
        invariant
            chars@ == value@,
            i <= chars@.len(),
            forall|j: int| 0 <= j < i ==> #[trigger] allowed_char(value@[j], extra_chars@),
        decreases chars.len() - i,
    {
        let ch = chars[i];
        let mut extra = false;
        let mut k: usize = 0;
        while k < extra_chars.len()
            invariant
                k <= extra_chars@.len(),
                extra == exists|j: int| 0 <= j < k && extra_chars@[j] == ch,
            decreases extra_chars.len() - k,
        {
            if extra_chars[k] == ch {
                extra = true;
            }
            k = k + 1;
        }
        assert(extra == extra_chars@.contains(ch));
        if !is_alphanumeric(ch) && !extra {
            let mut m = concat2(field_name, " contains invalid character: '");
            push_char(&mut m, ch);
            m.append("'");
            assert(!allowed_char(value@[i as int], extra_chars@));
            assert(m@ =~= field_name@ + " contains invalid character: '"@ + seq![value@[i as int]] + "'"@);
            return Err(FoundationError::ValidationFailed(m));
        }
        i = i + 1;
    }
    Ok(())
}

/// Fails with an out-of-range error unless `min <= value <= max`.
pub fn integer_in_range(value: SafeInteger, min: i64, max: i64, field_name: &str) -> (r: FoundationResult<()>)
    ensures
        r is Ok <==> min <= value@ <= max,
        r is Err ==> is_out_of_range(r, field_name@ + " must be in ["@ + dec_int(min as int) + ", "@
            + dec_int(max as int) + "], got "@ + dec_int(value@ as int)),
{
    if value.value() < min || value.value() > max {
        let mut m = concat2(field_name, " must be in [");
        crate::text::append_i64_dec(&mut m, min);
        m.append(", ");
        crate::text::append_i64_dec(&mut m, max);
        m.append("], got ");
        crate::text::append_i64_dec(&mut m, value.value());
        return Err(FoundationError::OutOfRange(m));
    }
    Ok(())
}

/// Fails with an out-of-range error unless `value > 0`.
pub fn positive_integer(value: SafeInteger, field_name: &str) -> (r: FoundationResult<()>)
    ensures
        r is Ok <==> value@ > 0,
        r is Err ==> is_out_of_range(r, field_name@ + " must be positive, got "@ + dec_int(value@ as int)),
{
    if value.value() <= 0 {
        let mut m = concat2(field_name, " must be positive, got ");
        crate::text::append_i64_dec(&mut m, value.value());
        return Err(FoundationError::OutOfRange(m));
    }
    Ok(())
}

/// Fails unless the collection has an element.
pub fn non_empty_collection<T>(collection: &[T], field_name: &str) -> (r: FoundationResult<()>)
    ensures
        r is Ok <==> collection@.len() > 0,
        r is Err ==> is_validation_failed(r, field_name@ + " must not be empty"@),
{
    if collection.len() == 0 {
        return Err(FoundationError::ValidationFailed(concat2(field_name, " must not be empty")));
    }
    Ok(())
}

/// Fails when the collection has more than `max` elements.
pub fn max_collection_size<T>(collection: &[T], max: usize, field_name: &str) -> (r: FoundationResult<()>)
    ensures
        r is Ok <==> collection@.len() <= max,
        r is Err ==> is_validation_failed(r, field_name@ + " must have at most "@ + dec_nat(max as nat)
            + " elements, got "@ + dec_nat(collection@.len())),
{
    if collection.len() > max {
        let mut m = concat2(field_name, " must have at most ");
        crate::text::append_u64_dec(&mut m, max as u64);
        m.append(" elements, got ");
        crate::text::append_u64_dec(&mut m, collection.len() as u64);
        return Err(FoundationError::ValidationFailed(m));
    }
    Ok(())
}

/// Whether the keys at positions `a` and `b` are equal.
pub open spec fn keys_clash<K: PartialEq>(keys: Seq<K>, a: int, b: int) -> bool {
    0 <= a < b < keys.len() && keys[a].eq_spec(&keys[b])
}

/// Fails when two elements have equal keys under `key_fn`.  The keys are
/// whatever `key_fn` returns for each element; where `K`'s `==` follows its
/// specification, the result is `Ok` exactly when no two keys are equal.
pub fn unique_by<T, K: Eq + std::hash::Hash>(collection: &[T], key_fn: impl Fn(&T) -> K, field_name: &str)
    -> (r: FoundationResult<()>)
    requires
        forall|i: int| 0 <= i < collection@.len() ==> call_requires(key_fn, (&#[trigger] collection@[i],)),
    ensures
        r is Err ==> is_validation_failed(r, field_name@ + " contains duplicate entries"@),
        K::obeys_eq_spec() ==> exists|keys: Seq<K>| {
            &&& keys.len() == collection@.len()
            &&& forall|i: int| 0 <= i < collection@.len() ==> call_ensures(key_fn, (&#[trigger] collection@[i],), keys[i])
            &&& (r is Ok <==> forall|a: int, b: int| !#[trigger] keys_clash(keys, a, b))
        },
{
    let mut keys: Vec<K> = Vec::new();
    let mut i: usize = 0;
    while i < collection.len()
        invariant
            i <= collection@.len(),
            keys@.len() == i,
            forall|j: int| 0 <= j < collection@.len() ==> call_requires(key_fn, (&#[trigger] collection@[j],)),
            forall|j: int| 0 <= j < i ==> call_ensures(key_fn, (&#[trigger] collection@[j],), keys@[j]),
        decreases collection.len() - i,
    {
        let k = key_fn(&collection[i]);
        keys.push(k);
        i = i + 1;
    }
    let n = keys.len();
    let mut a: usize = 0;
    while a < n
        invariant
            n == keys@.len(),
            n == collection@.len(),
            forall|j: int| 0 <= j < collection@.len() ==> call_ensures(key_fn, (&#[trigger] collection@[j],), keys@[j]),
            a <= n,
            K::obeys_eq_spec() ==> forall|x: int, y: int| x < a ==> !#[trigger] keys_clash(keys@, x, y),
        decreases n - a,
    {
        let mut b: usize = a + 1;
        while b < n
            invariant
                n == keys@.len(),
                n == collection@.len(),
                forall|j: int| 0 <= j < collection@.len() ==> call_ensures(key_fn, (&#[trigger] collection@[j],), keys@[j]),
                a < n,
                a + 1 <= b <= n,
                K::obeys_eq_spec() ==> forall|x: int, y: int| x < a ==> !#[trigger] keys_clash(keys@, x, y),
                K::obeys_eq_spec() ==> forall|y: int| y < b ==> !#[trigger] keys_clash(keys@, a as int, y),
            decreases n - b,
        {
            if keys[a] == keys[b] {
                let m = concat2(field_name, " contains duplicate entries");
                proof {
                    if K::obeys_eq_spec() {
                        assert(keys_clash(keys@, a as int, b as int));
                    }
                }
                return Err(FoundationError::ValidationFailed(m));
            }
            b = b + 1;
        }
        proof {
            if K::obeys_eq_spec() {
                assert forall|x: int, y: int| x < a + 1 implies !#[trigger] keys_clash(keys@, x, y) by {
                    if x == a && keys_clash(keys@, x, y) {
                        assert(y < b);
                    }
                }
            }
        }
        a = a + 1;
    }
    Ok(())
}

/// The strings joined with a separator between consecutive ones.
pub open spec fn join_spec(parts: Seq<Seq<char>>, sep: Seq<char>) -> Seq<char>
    decreases parts.len(),
{
    if parts.len() == 0 {
        Seq::empty()
    } else if parts.len() == 1 {
        parts[0]
    } else {
        join_spec(parts.drop_last(), sep) + sep + parts.last()
    }
}

/// Joining starts with the first part, ends with the last, and puts one
/// separator between consecutive parts: its length is the parts' lengths
/// plus one separator for each pair of neighbours.
pub proof fn lemma_join_shape(parts: Seq<Seq<char>>, sep: Seq<char>)
    requires
        parts.len() >= 1,
    ensures
        parts[0].is_prefix_of(join_spec(parts, sep)),
        join_spec(parts, sep).subrange(join_spec(parts, sep).len() - parts.last().len(), join_spec(parts, sep).len() as int)
            == parts.last(),
        join_spec(parts, sep).len() + sep.len() == parts_len(parts) + parts.len() * sep.len(),
    decreases parts.len(),
{
    let j = join_spec(parts, sep);
    if parts.len() == 1 {
        assert(j == parts[0]);
        assert(j.subrange(0, j.len() as int) =~= j);
        assert(parts.drop_last() =~= Seq::<Seq<char>>::empty());
        assert(parts_len(parts.drop_last()) == 0);
        assert(parts.last() == parts[0]);
        assert(parts_len(parts) == parts[0].len());
    } else {
        let init = parts.drop_last();
        lemma_join_shape(init, sep);
        let ji = join_spec(init, sep);
        assert(j == ji + sep + parts.last());
        assert(init[0] == parts[0]);
        assert(j.subrange(0, parts[0].len() as int) =~= ji.subrange(0, parts[0].len() as int));
        assert(j.subrange(j.len() - parts.last().len(), j.len() as int) =~= parts.last());
        assert(parts_len(parts) == parts_len(init) + parts.last().len());
        assert(parts.len() * sep.len() == init.len() * sep.len() + sep.len()) by (nonlinear_arith)
            requires
                parts.len() == init.len() + 1,
        ;
    }
}

/// The total length of the parts.
pub open spec fn parts_len(parts: Seq<Seq<char>>) -> int
    decreases parts.len(),
{
    if parts.len() == 0 { 0 } else { parts_len(parts.drop_last()) + parts.last().len() }
}

/// Collects the failures of several checks.
#[derive(Debug)]
pub struct ValidationCollector {
    errors: Vec<String>,
}

impl View for ValidationCollector {
    type V = Seq<Seq<char>>;

    closed spec fn view(&self) -> Seq<Seq<char>> {
        string_seq_view(self.errors@)
    }
}

impl ValidationCollector {
    /// A collector without failures.
    pub fn new() -> (c: Self)
        ensures
            c@ == Seq::<Seq<char>>::empty(),
    {
        let c = ValidationCollector { errors: Vec::new() };
        assert(c@ =~= Seq::<Seq<char>>::empty());
        c
    }

    /// Records the displayed error of a failed check; a passed check
    /// records nothing.
    pub fn check(&mut self, result: FoundationResult<()>)
        ensures
            result is Ok ==> final(self)@ == old(self)@,
            result matches Err(e) ==> final(self)@ == old(self)@.push(e.display()),
    {
        if let Err(e) = result {
            let s = e.display_string();
            self.errors.push(s);
            assert(self@ =~= old(self)@.push(e.display()));
        }
    }

    /// Records a failure message.
    pub fn add_error(&mut self, msg: &str)
        ensures
            final(self)@ == old(self)@.push(msg@),
    {
        self.errors.push(to_owned_string(msg));
        assert(self@ =~= old(self)@.push(msg@));
    }

    /// The recorded failures, oldest first.
    pub fn errors(&self) -> (r: &[String])
        ensures
            string_seq_view(r@) == self@,
    {
        self.errors.as_slice()
    }

    /// `Ok(())` when nothing was recorded, otherwise a validation error
    /// with the recorded messages joined by `"; "`.
    pub fn result(&self) -> (r: FoundationResult<()>)
        ensures
            r is Ok <==> self@.len() == 0,
            r is Err ==> is_validation_failed(r, join_spec(self@, "; "@)),
    {
        if self.errors.len() == 0 {
            return Ok(());
        }
        let mut out = self.errors[0].clone();
        let mut i: usize = 1;
        proof {
            assert(self@.take(1) =~= seq![self@[0]]);
            reveal_with_fuel(join_spec, 2);
        }
        while i < self.errors.len()
            invariant
                1 <= i <= self.errors@.len(),
                out@ == join_spec(self@.take(i as int), "; "@),
            decreases self.errors.len() - i,
        {
            out.append("; ");
            out.append(self.errors[i].as_str());
            proof {
                assert(self@.take(i + 1).drop_last() =~= self@.take(i as int));
                assert(self@.take(i + 1).last() == self.errors@[i as int]@);
            }
            i = i + 1;
        }
        assert(self@.take(i as int) =~= self@);
        Err(FoundationError::ValidationFailed(out))
    }

    /// Whether a failure was recorded.
    pub fn has_errors(&self) -> (b: bool)
        ensures
            b == (self@.len() > 0),
    {
        self.errors.len() > 0
    }
}

impl Default for ValidationCollector {
    fn default() -> (c: Self)
        ensures
            c@ == Seq::<Seq<char>>::empty(),
    {
        ValidationCollector::new()
    }
}

} // verus!
