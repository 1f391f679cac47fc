//! Helpers for deterministic execution: sorting, ordered map entries,
//! hash tie-breaking, and seeded shuffling and selection.

use vstd::prelude::*;
use vstd::laws_cmp::{obeys_cmp, obeys_cmp_partial_ord, obeys_cmp_ord, obeys_partial_cmp_spec_properties};
use vstd::std_specs::cmp::PartialOrdSpec;
use vstd::std_specs::cmp::OrdSpec;
use vstd::std_specs::cmp::PartialEqSpec;
use vstd::std_specs::iter::IteratorSpec;
use std::cmp::Ordering;
use crate::hash::{sha256_hex, sha256_spec, hex_bytes};
use crate::context::DeterministicContext;
use crate::errors::{FoundationError, FoundationResult, is_validation_failed};
use crate::text::to_owned_string;
use crate::text::{lex_lt, str_lex_less, str_equal, lemma_lex_total, lemma_lex_asymmetric, lemma_lex_irreflexive};

verus! {

/// Calls `<[T]>::swap`, which exchanges the elements at two positions.
#[verifier::external_body]
fn swap_elements<T>(s: &mut [T], i: usize, j: usize)
    requires
        i < old(s)@.len(),
        j < old(s)@.len(),
    ensures
        final(s)@ == old(s)@.update(i as int, old(s)@[j as int]).update(j as int, old(s)@[i as int]),
{
    s.swap(i, j);
}

/// Whether `T`'s comparison follows the laws of `Ord` (a total order
/// agreeing with `==`).
pub open spec fn follows_ord_laws<T: Ord>() -> bool {
    obeys_cmp::<T>()
}

/// Whether `<` on `T` follows its specification.
pub open spec fn lt_follows_spec<T: PartialOrd>() -> bool {
    T::obeys_partial_cmp_spec()
}

/// `a < b` by `a`'s specified comparison.
pub open spec fn lt_spec<T: PartialOrd>(a: T, b: T) -> bool {
    a.partial_cmp_spec(&b) == Some(Ordering::Less)
}

/// No element is below an earlier one.
pub open spec fn sorted_by_lt<T: PartialOrd>(s: Seq<T>) -> bool {
    forall|a: int, b: int| 0 <= a < b < s.len() ==> !#[trigger] lt_spec(s[b], s[a])
}

/// Under the laws of `Ord`, `<` is irreflexive and transitive.
proof fn lemma_lt_laws<T: Ord>()
    requires
        follows_ord_laws::<T>(),
    ensures
        lt_follows_spec::<T>(),
        forall|x: T| !#[trigger] lt_spec(x, x),
        forall|x: T, y: T, z: T| #[trigger] lt_spec(x, y) && #[trigger] lt_spec(y, z) ==> lt_spec(x, z),
{
    reveal(obeys_cmp_partial_ord);
    reveal(obeys_partial_cmp_spec_properties);
    assert forall|x: T| !#[trigger] lt_spec(x, x) by {
        if lt_spec(x, x) {
            assert(x.partial_cmp_spec(&x) == Some(Ordering::Less) <==> x.partial_cmp_spec(&x)
                == Some(Ordering::Greater));
        }
    }
}

/// Exchanging two elements keeps the multiset of elements.
proof fn lemma_swap_multiset<T>(s: Seq<T>, i: int, j: int)
    requires
        0 <= i < s.len(),
        0 <= j < s.len(),
    ensures
        s.update(i, s[j]).update(j, s[i]).to_multiset() == s.to_multiset(),
{
    broadcast use vstd::seq_lib::group_to_multiset_ensures, vstd::multiset::group_multiset_axioms;
    let s1 = s.update(i, s[j]);
    vstd::seq_lib::to_multiset_update(s, i, s[j]);
    vstd::seq_lib::to_multiset_update(s1, j, s[i]);
    assert(s.to_multiset().contains(s[i]));
    assert(s.to_multiset().contains(s[j]));
    assert(s1[j] == s[j]);
    assert(s1.update(j, s[i]).to_multiset() =~= s.to_multiset());
}

/// Where `T`'s comparison follows the laws of `Ord`: a key below `m`
/// is below every key that is not below `m`.
proof fn lemma_lt_not_lt<T: Ord>(x: T, m: T, b: T)
    requires
        follows_ord_laws::<T>(),
        lt_spec(x, m),
        !lt_spec(b, m),
    ensures
        lt_spec(x, b),
{
    reveal(obeys_cmp_partial_ord);
    reveal(obeys_partial_cmp_spec_properties);
    reveal(obeys_cmp_ord);
    reveal(vstd::laws_eq::obeys_eq_spec_properties);
    let c = b.cmp_spec(&m);
    assert(b.partial_cmp_spec(&m) == Some(c));
    if c == Ordering::Greater {
        assert(m.partial_cmp_spec(&b) == Some(Ordering::Less));
        assert(lt_spec(m, b));
    } else {
        assert(c == Ordering::Equal);
        assert(b.eq_spec(&m));
        let d = x.cmp_spec(&b);
        assert(x.partial_cmp_spec(&b) == Some(d));
        if d == Ordering::Equal {
            assert(x.eq_spec(&b));
            assert(x.eq_spec(&m));
            assert(x.partial_cmp_spec(&m) == Some(Ordering::Equal));
        } else if d == Ordering::Greater {
            assert(b.partial_cmp_spec(&x) == Some(Ordering::Less));
            assert(lt_spec(b, x));
            assert(lt_spec(b, m));
        }
    }
}

/// Whether `pi` lists each position `0..n` exactly once.
pub open spec fn is_index_perm(pi: Seq<int>, n: nat) -> bool {
    &&& pi.len() == n
    &&& forall|p: int| 0 <= p < n ==> 0 <= #[trigger] pi[p] < n
    &&& forall|p: int, q: int| 0 <= p < n && 0 <= q < n && p != q ==> #[trigger] pi[p] != #[trigger] pi[q]
}

/// `after` is `before` rearranged by `pi`: position `p` holds `before[pi[p]]`.
pub open spec fn rearranged<T>(after: Seq<T>, before: Seq<T>, pi: Seq<int>) -> bool {
    &&& after.len() == before.len()
    &&& pi.len() == before.len()
    &&& forall|p: int| 0 <= p < after.len() ==> #[trigger] after[p] == before[pi[p]]
}

/// Stability: two elements that end up in the opposite of their initial
/// order are strictly ordered, so elements with equal keys keep their order.
pub open spec fn stable_by<K: PartialOrd>(keys: Seq<K>, pi: Seq<int>) -> bool {
    forall|a: int, b: int| 0 <= a < b < keys.len() && #[trigger] pi[a] > #[trigger] pi[b]
        ==> lt_spec(keys[a], keys[b])
}

/// The source position of `p` after the element at `m` is moved to `j`
/// and the elements from `j` up to `m` shift one place right.
pub open spec fn rot_src(j: int, m: int, p: int) -> int {
    if p < j { p } else if p == j { m } else if p <= m { p - 1 } else { p }
}

/// Sorts `keys` with a stable selection sort (the first least key is moved
/// to the front, the others keep their order), applying the same moves to
/// `items`.  A relation between each key and its item is kept.
fn sort_paired<K: Ord, T>(keys: &mut [K], items: &mut [T], Ghost(rel): Ghost<spec_fn(K, T) -> bool>)
    requires
        old(keys)@.len() == old(items)@.len(),
        forall|p: int| 0 <= p < old(keys)@.len() ==> #[trigger] rel(old(keys)@[p], old(items)@[p]),
    ensures
        final(keys)@.len() == old(keys)@.len(),
        final(items)@.len() == old(items)@.len(),
        final(keys)@.to_multiset() == old(keys)@.to_multiset(),
        final(items)@.to_multiset() == old(items)@.to_multiset(),
        forall|p: int| 0 <= p < final(keys)@.len() ==> #[trigger] rel(final(keys)@[p], final(items)@[p]),
        follows_ord_laws::<K>() ==> sorted_by_lt(final(keys)@),
        exists|pi: Seq<int>| #![trigger is_index_perm(pi, old(keys)@.len())] {
            &&& is_index_perm(pi, old(keys)@.len())
            &&& rearranged(final(keys)@, old(keys)@, pi)
            &&& rearranged(final(items)@, old(items)@, pi)
            &&& follows_ord_laws::<K>() ==> stable_by(final(keys)@, pi)
        },
{
    let n = keys.len();
    let ghost ok = follows_ord_laws::<K>();
    let ghost k0 = keys@;
    let ghost i0 = items@;
    let ghost mut pi: Seq<int> = Seq::new(n as nat, |p: int| p);
    proof {
        if ok {
            lemma_lt_laws::<K>();
        }
        assert(rearranged(keys@, k0, pi));
        assert(rearranged(items@, i0, pi));
    }
    let mut i: usize = 0;
    while i < n
        invariant
            n == keys@.len(),
            n == items@.len(),
            n == k0.len(),
            i <= n,
            ok == follows_ord_laws::<K>(),
            ok ==> lt_follows_spec::<K>(),
            ok ==> forall|x: K| !#[trigger] lt_spec(x, x),
            ok ==> forall|x: K, y: K, z: K| #[trigger] lt_spec(x, y) && #[trigger] lt_spec(y, z) ==> lt_spec(x, z),
            keys@.to_multiset() == old(keys)@.to_multiset(),
            items@.to_multiset() == old(items)@.to_multiset(),
            k0 == old(keys)@,
            i0 == old(items)@,
            forall|p: int| 0 <= p < n ==> #[trigger] rel(keys@[p], items@[p]),
            is_index_perm(pi, n as nat),
            rearranged(keys@, k0, pi),
            rearranged(items@, i0, pi),
            forall|a: int, b: int| i <= a < b < n ==> #[trigger] pi[a] < #[trigger] pi[b],
            ok ==> stable_by(keys@, pi),
            ok ==> forall|a: int, b: int| 0 <= a < b < i ==> !#[trigger] lt_spec(keys@[b], keys@[a]),
            ok ==> forall|a: int, b: int| 0 <= a < i && i <= b < n ==> !#[trigger] lt_spec(keys@[b], keys@[a]),
        decreases n - i,
    {
        // the first least key at or after position i
        let mut m: usize = i;
        let mut k: usize = i + 1;
        while k < n
            invariant
                n == keys@.len(),
                i <= m < k <= n,
                i < n,
                ok == follows_ord_laws::<K>(),
                ok ==> lt_follows_spec::<K>(),
                ok ==> forall|x: K| !#[trigger] lt_spec(x, x),
                ok ==> forall|x: K, y: K, z: K| #[trigger] lt_spec(x, y) && #[trigger] lt_spec(y, z) ==> lt_spec(x, z),
                ok ==> forall|b: int| i <= b < k ==> !#[trigger] lt_spec(keys@[b], keys@[m as int]),
                ok ==> forall|b: int| i <= b < m ==> #[trigger] lt_spec(keys@[m as int], keys@[b]),
            decreases n - k,
        {
            if keys[k] < keys[m] {
                proof {
                    if ok {
                        assert forall|b: int| i <= b < k + 1 implies !#[trigger] lt_spec(keys@[b], keys@[k as int]) by {
                            if b < k && lt_spec(keys@[b], keys@[k as int]) {
                                assert(lt_spec(keys@[k as int], keys@[m as int]));
                                assert(lt_spec(keys@[b], keys@[m as int]));
                            }
                        }
                        assert(lt_spec(keys@[k as int], keys@[m as int]));
                        assert forall|b: int| i <= b < k implies #[trigger] lt_spec(keys@[k as int], keys@[b]) by {
                            if b < m {
                                assert(lt_spec(keys@[m as int], keys@[b]));
                                assert(lt_spec(keys@[k as int], keys@[m as int]));
                            } else if b > m {
                                assert(!lt_spec(keys@[b], keys@[m as int]));
                                lemma_lt_not_lt(keys@[k as int], keys@[m as int], keys@[b]);
                            } else {
                                assert(lt_spec(keys@[k as int], keys@[m as int]));
                            }
                        }
                    }
                }
                m = k;
            }
            k = k + 1;
        }
        // move it to position i, shifting the keys in between one step right
        let ghost s0 = keys@;
        let ghost t0 = items@;
        let ghost p0 = pi;
        let mut j: usize = m;
        while j > i
            invariant
                n == keys@.len(),
                n == items@.len(),
                n == s0.len(),
                n == t0.len(),
                n == p0.len(),
                pi.len() == n,
                i <= j <= m < n,
                forall|p: int| 0 <= p < n ==> #[trigger] keys@[p] == s0[rot_src(j as int, m as int, p)],
                forall|p: int| 0 <= p < n ==> #[trigger] items@[p] == t0[rot_src(j as int, m as int, p)],
                forall|p: int| 0 <= p < n ==> #[trigger] pi[p] == p0[rot_src(j as int, m as int, p)],
                keys@.to_multiset() == old(keys)@.to_multiset(),
                items@.to_multiset() == old(items)@.to_multiset(),
                forall|p: int| 0 <= p < n ==> #[trigger] rel(keys@[p], items@[p]),
            decreases j,
        {
            let ghost kb = keys@;
            let ghost ib = items@;
            swap_elements(keys, j - 1, j);
            swap_elements(items, j - 1, j);
            proof {
                lemma_swap_multiset(kb, j - 1, j as int);
                lemma_swap_multiset(ib, j - 1, j as int);
                let pb = pi;
                pi = pb.update(j - 1, pb[j as int]).update(j as int, pb[j - 1]);
                assert forall|p: int| 0 <= p < n implies #[trigger] rel(keys@[p], items@[p]) by {
                    if p == j - 1 {
                        assert(rel(kb[j as int], ib[j as int]));
                    } else if p == j {
                        assert(rel(kb[j - 1], ib[j - 1]));
                    } else {
                        assert(rel(kb[p], ib[p]));
                    }
                }
                assert forall|p: int| 0 <= p < n implies #[trigger] keys@[p] == s0[rot_src(j - 1, m as int, p)] by {
                    if p == j - 1 {
                        assert(keys@[p] == kb[j as int]);
                    } else if p == j {
                        assert(keys@[p] == kb[j - 1]);
                    } else {
                        assert(keys@[p] == kb[p]);
                    }
                }
                assert forall|p: int| 0 <= p < n implies #[trigger] items@[p] == t0[rot_src(j - 1, m as int, p)] by {
                    if p == j - 1 {
                        assert(items@[p] == ib[j as int]);
                    } else if p == j {
                        assert(items@[p] == ib[j - 1]);
                    } else {
                        assert(items@[p] == ib[p]);
                    }
                }
                assert forall|p: int| 0 <= p < n implies #[trigger] pi[p] == p0[rot_src(j - 1, m as int, p)] by {
                    if p == j - 1 {
                        assert(pi[p] == pb[j as int]);
                    } else if p == j {
                        assert(pi[p] == pb[j - 1]);
                    } else {
                        assert(pi[p] == pb[p]);
                    }
                }
            }
            j = j - 1;
        }
        proof {
            lemma_rotation_step(k0, i0, s0, t0, p0, keys@, items@, pi, i as int, m as int, n as int, ok);
        }
        i = i + 1;
    }
    proof {
        assert(is_index_perm(pi, old(keys)@.len()));
        assert(rearranged(keys@, old(keys)@, pi));
        assert(rearranged(items@, old(items)@, pi));
        assert(ok ==> stable_by(keys@, pi));
    }
}

/// After moving the first least key of the unsorted part to its front, the
/// sort's invariants hold one position further on.
proof fn lemma_rotation_step<K: Ord, T>(k0: Seq<K>, i0: Seq<T>, s0: Seq<K>, t0: Seq<T>, p0: Seq<int>,
    keys: Seq<K>, items: Seq<T>, pi: Seq<int>, i: int, m: int, n: int, ok: bool)
    requires
        0 <= i <= m < n,
        n == k0.len() && n == i0.len() && n == s0.len() && n == t0.len() && n == keys.len() && n == items.len(),
        pi.len() == n,
        ok == follows_ord_laws::<K>(),
        is_index_perm(p0, n as nat),
        rearranged(s0, k0, p0),
        rearranged(t0, i0, p0),
        forall|a: int, b: int| i <= a < b < n ==> #[trigger] p0[a] < #[trigger] p0[b],
        ok ==> stable_by(s0, p0),
        ok ==> forall|a: int, b: int| 0 <= a < b < i ==> !#[trigger] lt_spec(s0[b], s0[a]),
        ok ==> forall|a: int, b: int| 0 <= a < i && i <= b < n ==> !#[trigger] lt_spec(s0[b], s0[a]),
        ok ==> forall|b: int| i <= b < n ==> !#[trigger] lt_spec(s0[b], s0[m]),
        ok ==> forall|b: int| i <= b < m ==> #[trigger] lt_spec(s0[m], s0[b]),
        forall|p: int| 0 <= p < n ==> #[trigger] keys[p] == s0[rot_src(i, m, p)],
        forall|p: int| 0 <= p < n ==> #[trigger] items[p] == t0[rot_src(i, m, p)],
        forall|p: int| 0 <= p < n ==> #[trigger] pi[p] == p0[rot_src(i, m, p)],
    ensures
        is_index_perm(pi, n as nat),
        rearranged(keys, k0, pi),
        rearranged(items, i0, pi),
        forall|a: int, b: int| i + 1 <= a < b < n ==> #[trigger] pi[a] < #[trigger] pi[b],
        ok ==> stable_by(keys, pi),
        ok ==> forall|a: int, b: int| 0 <= a < b < i + 1 ==> !#[trigger] lt_spec(keys[b], keys[a]),
        ok ==> forall|a: int, b: int| 0 <= a < i + 1 && i + 1 <= b < n ==> !#[trigger] lt_spec(keys[b], keys[a]),
{
    assert forall|p: int| 0 <= p < n implies 0 <= #[trigger] pi[p] < n by {
        assert(pi[p] == p0[rot_src(i, m, p)]);
    }
    assert forall|p: int, q: int| 0 <= p < n && 0 <= q < n && p != q implies #[trigger] pi[p] != #[trigger] pi[q] by {
        assert(pi[p] == p0[rot_src(i, m, p)]);
        assert(pi[q] == p0[rot_src(i, m, q)]);
        assert(rot_src(i, m, p) != rot_src(i, m, q));
    }
    assert forall|p: int| 0 <= p < n implies #[trigger] keys[p] == k0[pi[p]] by {
        assert(keys[p] == s0[rot_src(i, m, p)]);
        assert(s0[rot_src(i, m, p)] == k0[p0[rot_src(i, m, p)]]);
    }
    assert forall|p: int| 0 <= p < n implies #[trigger] items[p] == i0[pi[p]] by {
        assert(items[p] == t0[rot_src(i, m, p)]);
        assert(t0[rot_src(i, m, p)] == i0[p0[rot_src(i, m, p)]]);
    }
    assert forall|a: int, b: int| i + 1 <= a < b < n implies #[trigger] pi[a] < #[trigger] pi[b] by {
        assert(pi[a] == p0[rot_src(i, m, a)]);
        assert(pi[b] == p0[rot_src(i, m, b)]);
        assert(p0[rot_src(i, m, a)] < p0[rot_src(i, m, b)]);
    }
    if ok {
        assert forall|a: int, b: int| 0 <= a < b < n && #[trigger] pi[a] > #[trigger] pi[b]
            implies lt_spec(keys[a], keys[b]) by {
            let sa = rot_src(i, m, a);
            let sb = rot_src(i, m, b);
            assert(pi[a] == p0[sa] && pi[b] == p0[sb]);
            assert(keys[a] == s0[sa] && keys[b] == s0[sb]);
            if a < i {
                assert(sa == a && sa < sb);
                assert(lt_spec(s0[sa], s0[sb]));
            } else if a == i {
                assert(sa == m);
                assert(i <= sb < n && sb != m);
                if sb > m {
                    assert(p0[m] < p0[sb]);
                }
                assert(lt_spec(s0[m], s0[sb]));
            } else {
                assert(p0[sa] < p0[sb]);
            }
        }
        assert forall|a: int, b: int| 0 <= a < b < i + 1 implies !#[trigger] lt_spec(keys[b], keys[a]) by {
            assert(keys[a] == s0[a]);
            if b < i {
                assert(keys[b] == s0[b]);
            } else {
                assert(keys[b] == s0[m]);
            }
        }
        assert forall|a: int, b: int| 0 <= a < i + 1 && i + 1 <= b < n implies !#[trigger] lt_spec(keys[b], keys[a]) by {
            let sb = rot_src(i, m, b);
            assert(keys[b] == s0[sb]);
            assert(i <= sb < n);
            if a < i {
                assert(keys[a] == s0[a]);
            } else {
                assert(keys[a] == s0[m]);
            }
        }
    }
}

/// Sorts the slice, stably: the result is the input rearranged, in which
/// two elements change their relative order only when the one that comes
/// first is strictly smaller.  Where `T`'s comparison follows the laws of
/// `Ord`, no element ends up below an earlier one.
pub fn deterministic_sort<T: Ord>(slice: &mut [T])
    ensures
        final(slice)@.to_multiset() == old(slice)@.to_multiset(),
        follows_ord_laws::<T>() ==> sorted_by_lt(final(slice)@),
        exists|pi: Seq<int>| #![trigger is_index_perm(pi, old(slice)@.len())] {
            &&& is_index_perm(pi, old(slice)@.len())
            &&& rearranged(final(slice)@, old(slice)@, pi)
            &&& follows_ord_laws::<T>() ==> stable_by(final(slice)@, pi)
        },
{
    let n = slice.len();
    let mut units: Vec<()> = Vec::new();
    let mut k: usize = 0;
    while k < n
        invariant
            k <= n,
            units@.len() == k,
        decreases n - k,
    {
        units.push(());
        k = k + 1;
    }
    let ghost s0 = slice@;
    let us = units.as_mut_slice();
    let ghost u0 = us@;
    sort_paired(slice, us, Ghost(|a: T, b: ()| true));
    proof {
        let pi = choose|pi: Seq<int>| {
            &&& is_index_perm(pi, s0.len())
            &&& rearranged(slice@, s0, pi)
            &&& rearranged(us@, u0, pi)
            &&& follows_ord_laws::<T>() ==> stable_by(slice@, pi)
        };
        assert(is_index_perm(pi, old(slice)@.len()));
        assert(rearranged(slice@, old(slice)@, pi));
    }
}

/// Sorts the slice by the keys `key_fn` gives its elements, stably: the
/// result is the input rearranged, each element keyed once, and two
/// elements change their relative order only when the one that comes first
/// has a strictly smaller key.  Where `K`'s comparison follows the laws of
/// `Ord`, the keys end up in ascending order.
pub fn deterministic_sort_by_key<T, K: Ord>(slice: &mut [T], key_fn: impl Fn(&T) -> K)
    requires
        forall|p: int| 0 <= p < old(slice)@.len() ==> call_requires(key_fn, (&#[trigger] old(slice)@[p],)),
    ensures
        final(slice)@.to_multiset() == old(slice)@.to_multiset(),
        exists|ks: Seq<K>, pi: Seq<int>| #![trigger ks.len(), is_index_perm(pi, old(slice)@.len())] {
            &&& ks.len() == final(slice)@.len()
            &&& forall|p: int| 0 <= p < ks.len() ==> call_ensures(key_fn, (&#[trigger] final(slice)@[p],), ks[p])
            &&& is_index_perm(pi, old(slice)@.len())
            &&& rearranged(final(slice)@, old(slice)@, pi)
            &&& follows_ord_laws::<K>() ==> sorted_by_lt(ks) && stable_by(ks, pi)
        },
{
    let n = slice.len();
    let mut keys: Vec<K> = Vec::new();
    let mut k: usize = 0;
    while k < n
        invariant
            n == slice@.len(),
            slice@ == old(slice)@,
            k <= n,
            keys@.len() == k,
            forall|p: int| 0 <= p < n ==> call_requires(key_fn, (&#[trigger] slice@[p],)),
            forall|p: int| 0 <= p < k ==> call_ensures(key_fn, (&#[trigger] slice@[p],), keys@[p]),
        decreases n - k,
    {
        let key = key_fn(&slice[k]);
        keys.push(key);
        k = k + 1;
    }
    let ghost rel = |kk: K, t: T| call_ensures(key_fn, (&t,), kk);
    assert forall|p: int| 0 <= p < keys@.len() implies #[trigger] rel(keys@[p], slice@[p]) by {
        assert(call_ensures(key_fn, (&slice@[p],), keys@[p]));
    }
    let ghost keys_before = keys@;
    sort_paired(keys.as_mut_slice(), slice, Ghost(rel));
    assert forall|p: int| 0 <= p < keys@.len() implies call_ensures(key_fn, (&#[trigger] slice@[p],), keys@[p]) by {
        assert(rel(keys@[p], slice@[p]));
    }
}

/// Orders two byte strings by the lowercase hex SHA-256 of each: the
/// comparison of the two hex texts.
pub fn hash_tiebreak(a: &[u8], b: &[u8]) -> (r: Ordering)
    ensures
        ({
            let ha = hex_bytes(sha256_spec(a@));
            let hb = hex_bytes(sha256_spec(b@));
            &&& (r == Ordering::Less <==> lex_lt(ha, hb))
            &&& (r == Ordering::Equal <==> ha == hb)
            &&& (r == Ordering::Greater <==> lex_lt(hb, ha))
        }),
{
    let ha = sha256_hex(a);
    let hb = sha256_hex(b);
    proof {
        if ha@ != hb@ {
            lemma_lex_total(ha@, hb@);
        }
        if lex_lt(ha@, hb@) {
            lemma_lex_asymmetric(ha@, hb@);
        }
        lemma_lex_irreflexive(ha@);
    }
    if str_lex_less(ha.as_str(), hb.as_str()) {
        Ordering::Less
    } else if str_equal(ha.as_str(), hb.as_str()) {
        Ordering::Equal
    } else {
        Ordering::Greater
    }
}

/// One step of the generator: `state * 6364136223846793005 +
/// 1442695040888963407`, wrapping.
pub open spec fn lcg_next(state: u64) -> u64 {
    state.wrapping_mul(6364136223846793005).wrapping_add(1442695040888963407)
}

/// The position swapped with position `i` when the generator is at `state`.
pub open spec fn swap_target(state: u64, i: int) -> int {
    ((state >> 33u64) as int) % (i + 1)
}

/// The sequence with positions `i` and `j` exchanged.
pub open spec fn swapped<T>(s: Seq<T>, i: int, j: int) -> Seq<T> {
    s.update(i, s[j]).update(j, s[i])
}

/// The Fisher-Yates steps for positions `i` down to 1, from the generator
/// state before position `i`.
pub open spec fn shuffle_from<T>(s: Seq<T>, i: int, state: u64) -> Seq<T>
    decreases i,
{
    if i < 1 {
        s
    } else {
        let st = lcg_next(state);
        shuffle_from(swapped(s, i, swap_target(st, i)), i - 1, st)
    }
}

/// The seeded shuffle of a sequence.
#[verifier::opaque]
pub open spec fn shuffle_spec<T>(s: Seq<T>, seed: u64) -> Seq<T> {
    if s.len() <= 1 { s } else { shuffle_from(s, s.len() - 1, seed) }
}

/// The shuffle keeps the multiset of elements.
pub proof fn lemma_shuffle_permutes<T>(s: Seq<T>, i: int, state: u64)
    requires
        i < s.len(),
    ensures
        shuffle_from(s, i, state).to_multiset() == s.to_multiset(),
        shuffle_from(s, i, state).len() == s.len(),
    decreases i,
{
    if i >= 1 {
        let st = lcg_next(state);
        let j = swap_target(st, i);
        vstd::arithmetic::div_mod::lemma_mod_bound((st >> 33u64) as int, i + 1);
        lemma_swap_multiset(s, i, j);
        lemma_shuffle_permutes(swapped(s, i, j), i - 1, st);
    }
}

/// Shuffles the slice with a seeded Fisher-Yates shuffle: for `i` from the
/// last position down to 1, the generator advances and position `i` is
/// exchanged with position `(state >> 33) % (i + 1)`.
pub fn deterministic_shuffle<T>(slice: &mut [T], seed: u64)
    ensures
        final(slice)@ == shuffle_spec(old(slice)@, seed),
        final(slice)@.len() == old(slice)@.len(),
        final(slice)@.to_multiset() == old(slice)@.to_multiset(),
{
    let len = slice.len();
    proof {
        reveal(shuffle_spec);
        if len > 1 {
            lemma_shuffle_permutes(old(slice)@, len - 1, seed);
        }
    }
    if len <= 1 {
        return;
    }
    let mut state = seed;
    let mut i: usize = len - 1;
    while i > 0
        invariant
            slice@.len() == len,
            i < len,
            shuffle_spec(old(slice)@, seed) == shuffle_from(slice@, i as int, state),
        decreases i,
    {
        state = state.wrapping_mul(6364136223846793005).wrapping_add(1442695040888963407);
        let j = ((state >> 33) % ((i as u64) + 1)) as usize;
        proof {
            vstd::arithmetic::div_mod::lemma_mod_bound((state >> 33u64) as int, i + 1);
            assert(j == swap_target(state, i as int));
        }
        swap_elements(slice, i, j);
        i = i - 1;
    }
}

/// The positions `0, 1, .., n - 1`.
pub open spec fn positions_upto(n: nat) -> Seq<usize> {
    Seq::new(n, |p: int| p as usize)
}

/// The positions chosen by a seeded selection of `k` out of `n`: all of
/// them in order when `k >= n`, otherwise the first `k` of the shuffled
/// positions.
#[verifier::opaque]
pub open spec fn select_positions(n: nat, k: nat, seed: u64) -> Seq<usize> {
    let all = positions_upto(n);
    if k >= n { all } else { shuffle_spec(all, seed).take(k as int) }
}

/// The positions a selection takes: all of them in order when `k >= n`,
/// otherwise the first `k` of the positions `0..n` as the seeded shuffle
/// (`deterministic_shuffle`) arranges them.
pub proof fn lemma_select_positions_are_shuffled_prefix(n: nat, k: nat, seed: u64)
    ensures
        select_positions(n, k, seed) == if k >= n {
            positions_upto(n)
        } else {
            shuffle_spec(positions_upto(n), seed).take(k as int)
        },
{
    reveal(select_positions);
}

proof fn lemma_positions_upto(n: nat)
    requires
        n <= usize::MAX,
    ensures
        positions_upto(n).no_duplicates(),
        forall|q: int| 0 <= q < n ==> #[trigger] positions_upto(n)[q] == q,
{
    assert forall|q: int| 0 <= q < n implies #[trigger] positions_upto(n)[q] == q by {
        assert(positions_upto(n)[q] == q as usize);
    }
}

proof fn lemma_shuffle_spec_permutes<T>(s: Seq<T>, seed: u64)
    ensures
        shuffle_spec(s, seed).to_multiset() == s.to_multiset(),
        shuffle_spec(s, seed).len() == s.len(),
{
    reveal(shuffle_spec);
    if s.len() > 1 {
        lemma_shuffle_permutes(s, s.len() - 1, seed);
    }
}

/// The selected positions are distinct positions below `n`: a selection
/// never takes an element twice.
pub proof fn lemma_select_positions_distinct(n: nat, k: nat, seed: u64)
    requires
        n <= usize::MAX,
    ensures
        select_positions(n, k, seed).no_duplicates(),
        forall|q: int| 0 <= q < select_positions(n, k, seed).len() ==> #[trigger] select_positions(n, k, seed)[q] < n,
{
    reveal(select_positions);
    let all = positions_upto(n);
    lemma_positions_upto(n);
    if k < n {
        let sh = shuffle_spec(all, seed);
        lemma_shuffle_spec_permutes(all, seed);
        all.lemma_multiset_has_no_duplicates();
        sh.lemma_multiset_has_no_duplicates_conv();
        lemma_positions_bounded(sh, n);
        let t = sh.take(k as int);
        assert(select_positions(n, k, seed) == t);
        assert forall|i: int, j: int| 0 <= i < t.len() && 0 <= j < t.len() && i != j implies t[i] != t[j] by {
            assert(t[i] == sh[i] && t[j] == sh[j]);
        }
        assert forall|q: int| 0 <= q < t.len() implies #[trigger] t[q] < n by {
            assert(t[q] == sh[q]);
        }
    }
}

/// The positions `0, 1, .., n - 1`.
fn identity_positions(n: usize) -> (v: Vec<usize>)
    ensures
        v@ == positions_upto(n as nat),
{
    let mut v: Vec<usize> = Vec::new();
    let mut c: usize = 0;
    while c < n
        invariant
            c <= n,
            v@ == positions_upto(c as nat),
        decreases n - c,
    {
        v.push(c);
        c = c + 1;
        assert(v@ =~= positions_upto(c as nat));
    }
    v
}

/// A permutation of positions below `n` holds only positions below `n`.
proof fn lemma_positions_bounded(s: Seq<usize>, n: nat)
    requires
        s.to_multiset() == positions_upto(n).to_multiset(),
    ensures
        forall|q: int| 0 <= q < s.len() ==> #[trigger] s[q] < n,
{
    broadcast use vstd::seq_lib::group_to_multiset_ensures, vstd::multiset::group_multiset_axioms;
    let all = positions_upto(n);
    assert forall|q: int| 0 <= q < s.len() implies #[trigger] s[q] < n by {
        vstd::seq_lib::to_multiset_contains(s, s[q]);
        vstd::seq_lib::to_multiset_contains(all, s[q]);
        assert(s.contains(s[q]));
    }
}

/// Clones of `k` elements chosen by a seeded shuffle (all of them, in
/// order, when `k` is at least the length).
pub fn deterministic_select<T: Clone>(slice: &[T], k: usize, seed: u64) -> (r: Vec<T>)
    ensures
        r@.len() == select_positions(slice@.len(), k as nat, seed).len(),
        r@.len() == if k >= slice@.len() { slice@.len() } else { k as nat },
        forall|p: int| 0 <= p < r@.len() ==> {
            let q = select_positions(slice@.len(), k as nat, seed)[p];
            &&& q < slice@.len()
            &&& cloned(slice@[q as int], #[trigger] r@[p])
        },
        k >= slice@.len() ==> forall|p: int| 0 <= p < r@.len() ==> cloned(slice@[p], #[trigger] r@[p]),
{
    let n = slice.len();
    let mut indices = identity_positions(n);
    let ghost all = indices@;
    let take = if k >= n { n } else { k };
    if k < n {
        deterministic_shuffle(indices.as_mut_slice(), seed);
    }
    proof {
        lemma_positions_bounded(indices@, n as nat);
    }
    let mut r: Vec<T> = Vec::new();
    let mut p: usize = 0;
    while p < take
        invariant
            take <= n,
            n == slice@.len(),
            indices@.len() == n,
            forall|q: int| 0 <= q < indices@.len() ==> #[trigger] indices@[q] < n,
            p <= take,
            r@.len() == p,
            forall|q: int| 0 <= q < p ==> cloned(slice@[indices@[q] as int], #[trigger] r@[q]),
        decreases take - p,
    {
        let idx = indices[p];
        let item = slice[idx].clone();
        r.push(item);
        p = p + 1;
    }
    proof {
        reveal(select_positions);
        let sel = select_positions(n as nat, k as nat, seed);
        assert(sel =~= indices@.take(take as int));
        assert forall|q: int| 0 <= q < r@.len() implies sel[q] == indices@[q] by {}
        if k >= n {
            assert forall|q: int| 0 <= q < r@.len() implies cloned(slice@[q], #[trigger] r@[q]) by {
                assert(sel[q] == positions_upto(n as nat)[q]);
                assert(indices@[q] == sel[q]);
            }
        }
    }
    r
}

/// The key of an entry, cloned.
fn entry_key<K: Clone, V>(e: &(K, V)) -> (k: K)
    ensures
        cloned(e.0, k),
{
    e.0.clone()
}

/// Whether the entry is a clone of one of the map's entries.
pub open spec fn clones_map_entry<K: Clone, V: Clone>(m: Map<K, V>, e: (K, V)) -> bool {
    exists|k: K| #[trigger] m.contains_key(k) && cloned(k, e.0) && cloned(m[k], e.1)
}

/// The entries of a hash map as clones, sorted by key: one clone of each
/// map entry, and, where `K`'s comparison follows the laws of `Ord`, in
/// ascending key order.  What is stated of the entries holds where the
/// map's keys hash and compare consistently, as `HashMap` requires of them.
pub fn deterministic_entries<K: Ord + Clone, V: Clone>(map: &std::collections::HashMap<K, V>) -> (r: Vec<(K, V)>)
    ensures
        vstd::std_specs::hash::obeys_key_model::<K>() ==> r@.len() == map@.len(),
        vstd::std_specs::hash::obeys_key_model::<K>() ==> forall|p: int| 0 <= p < r@.len()
            ==> #[trigger] clones_map_entry(map@, r@[p]),
        exists|ks: Seq<K>| {
            &&& ks.len() == r@.len()
            &&& forall|p: int| 0 <= p < ks.len() ==> cloned((#[trigger] r@[p]).0, ks[p])
            &&& follows_ord_laws::<K>() ==> sorted_by_lt(ks)
        },
{
    broadcast use vstd::std_specs::hash::group_hash_axioms;
    let ghost km = vstd::std_specs::hash::obeys_key_model::<K>();
    let mut entries: Vec<(K, V)> = Vec::new();
    let n = map.len();
    let it = map.iter();
    let ghost all = vstd::std_specs::hash::spec_hash_map_iter(map).remaining();
    proof {
        if km {
            assert(it == vstd::std_specs::hash::spec_hash_map_iter(map));
        }
    }
    let mut walk = vstd::std_specs::iter::VerusForLoopWrapper::new(it, Ghost(None));
    let mut c: usize = 0;
    while c < n
        invariant
            c <= n,
            km == vstd::std_specs::hash::obeys_key_model::<K>(),
            all == vstd::std_specs::hash::spec_hash_map_iter(map).remaining(),
            all.len() == map@.dom().len(),
            forall|i: int| 0 <= i < all.len() ==> map@.contains_key(*(#[trigger] all[i]).0) && map@[*all[i].0] == *all[i].1,
            walk.wf(),
            walk.iter.obeys_prophetic_iter_laws(),
            km ==> n == map@.len(),
            km ==> walk.seq() == all,
            km ==> walk.index() == c,
            km ==> entries@.len() == c,
            km ==> forall|q: int| 0 <= q < entries@.len() ==> #[trigger] clones_map_entry(map@, entries@[q]),
        ensures
            km ==> entries@.len() == map@.len(),
            km ==> forall|q: int| 0 <= q < entries@.len() ==> #[trigger] clones_map_entry(map@, entries@[q]),
        decreases n - c,
    {
        match walk.next() {
            Some(e) => {
                let (k, v) = e;
                let kc = k.clone();
                let vc = v.clone();
                proof {
                    if km {
                        assert(e == all[c as int]);
                        assert(map@.contains_key(*all[c as int].0) && map@[*all[c as int].0] == *all[c as int].1);
                        assert(clones_map_entry(map@, (kc, vc)));
                    }
                }
                entries.push((kc, vc));
            },
            None => {
                proof {
                    if km {
                        assert(walk.index() == walk.seq().len());
                        assert(false);
                    }
                }
                break;
            },
        }
        c = c + 1;
    }
    let ghost unsorted = entries@;
    deterministic_sort_by_key(entries.as_mut_slice(), entry_key);
    proof {
        vstd::seq_lib::to_multiset_len(unsorted);
        vstd::seq_lib::to_multiset_len(entries@);
        assert forall|p: int| km && 0 <= p < entries@.len() implies #[trigger] clones_map_entry(map@, entries@[p]) by {
            vstd::seq_lib::to_multiset_contains(entries@, entries@[p]);
            vstd::seq_lib::to_multiset_contains(unsorted, entries@[p]);
            assert(entries@.contains(entries@[p]));
            let q = choose|q: int| 0 <= q < unsorted.len() && unsorted[q] == entries@[p];
        }
    }
    entries
}

/// What running `f` twice on fresh contexts with seed `seed` may give: the
/// first run's error; else the second run's error; else, where `T`'s `==`
/// follows its specification, the first result when the two are equal and
/// the non-determinism error when they differ.
pub open spec fn twice_run_outcome<F: Fn(&mut DeterministicContext) -> FoundationResult<T>, T: PartialEq>(
    f: F, seed: u64, r: FoundationResult<T>) -> bool {
    exists|c1: &mut DeterministicContext, r1: FoundationResult<T>| {
        &&& (*c1).is_fresh(seed)
        &&& #[trigger] call_ensures(f, (c1,), r1)
        &&& match r1 {
            Err(e1) => r == Err::<T, FoundationError>(e1),
            Ok(v1) => exists|c2: &mut DeterministicContext, r2: FoundationResult<T>| {
                &&& (*c2).is_fresh(seed)
                &&& #[trigger] call_ensures(f, (c2,), r2)
                &&& match r2 {
                    Err(e2) => r == Err::<T, FoundationError>(e2),
                    Ok(v2) => {
                        &&& (r == Ok::<T, FoundationError>(v1)
                            || is_validation_failed(r, "non-deterministic execution detected"@))
                        &&& T::obeys_eq_spec() ==> (if v1.eq_spec(&v2) {
                            r == Ok::<T, FoundationError>(v1)
                        } else {
                            is_validation_failed(r, "non-deterministic execution detected"@)
                        })
                    },
                }
            },
        }
    }
}

/// Runs `f` twice, each time on a fresh context with the given seed, and
/// fails when the two results differ: the first error either run returns,
/// else the common result, else a validation error.
pub fn verify_deterministic_execution<F, T: PartialEq>(seed: u64, f: F) -> (r: FoundationResult<T>)
    where
        F: Fn(&mut DeterministicContext) -> FoundationResult<T>,
    requires
        forall|c: &mut DeterministicContext| (*c).is_fresh(seed) ==> call_requires(f, (c,)),
    ensures
        twice_run_outcome(f, seed, r),
{
    let mut ctx1 = DeterministicContext::new(seed);
    let result1 = f(&mut ctx1);
    let v1 = match result1 {
        Ok(v) => v,
        Err(e) => return Err(e),
    };
    let mut ctx2 = DeterministicContext::new(seed);
    let result2 = f(&mut ctx2);
    let v2 = match result2 {
        Ok(v) => v,
        Err(e) => return Err(e),
    };
    if v1 != v2 {
        return Err(FoundationError::ValidationFailed(to_owned_string("non-deterministic execution detected")));
    }
    Ok(v1)
}

/// A record of a value's content hash, to check later whether the value
/// changed.  The hash is computed by the caller (the SHA-256 of the value's
/// canonical JSON).
#[derive(Debug)]
pub struct DeterminismGuard {
    hash_before: String,
}

impl DeterminismGuard {
    /// The hash recorded at the start.
    pub closed spec fn recorded(&self) -> Seq<char> {
        self.hash_before@
    }

    /// A guard recording the given hash.
    pub fn from_hash(hash_before: String) -> (g: Self)
        ensures
            g.recorded() == hash_before@,
    {
        DeterminismGuard { hash_before }
    }

    /// Whether the given hash equals the recorded one.
    pub fn same_hash(&self, hash_after: &str) -> (b: bool)
        ensures
            b == (self.recorded() == hash_after@),
    {
        str_equal(self.hash_before.as_str(), hash_after)
    }

    /// Whether the given hash differs from the recorded one.
    pub fn different_hash(&self, hash_after: &str) -> (b: bool)
        ensures
            b == (self.recorded() != hash_after@),
    {
        !str_equal(self.hash_before.as_str(), hash_after)
    }
}

} // verus!
