//! Stable keys for regions.
//!
//! A region is bounded by a cycle of edges. Its key must not depend on
//! where the walk around the cycle starts nor on its direction, so that a
//! region keeps its fill state when the faces are recomputed. The key is
//! the FNV-1a hash of the little-endian bytes of the canonical form of the
//! cycle: the lexicographically least rotation of the cycle or of its
//! reverse.

use vstd::prelude::*;

verus! {

/// The rotation of `s` that starts at position `k`.
pub open spec fn rotation(s: Seq<u32>, k: int) -> Seq<u32> {
    Seq::new(s.len(), |i: int| s[(k + i) % (s.len() as int)])
}

/// `s` read backwards.
pub open spec fn reversed(s: Seq<u32>) -> Seq<u32> {
    Seq::new(s.len(), |i: int| s[s.len() - 1 - i])
}

/// Strict lexicographic order on sequences (a proper prefix is smaller).
pub open spec fn lex_lt(a: Seq<u32>, b: Seq<u32>) -> bool
    decreases a.len(),
{
    if a.len() == 0 {
        b.len() > 0
    } else if b.len() == 0 {
        false
    } else if a[0] < b[0] {
        true
    } else if a[0] > b[0] {
        false
    } else {
        lex_lt(a.drop_first(), b.drop_first())
    }
}

/// `r` is a rotation of `s` that no rotation of `s` precedes.
pub open spec fn is_least_rotation(s: Seq<u32>, r: Seq<u32>) -> bool {
    &&& exists|k: int| 0 <= k < s.len() && r == rotation(s, k)
    &&& forall|k: int| 0 <= k < s.len() ==> !lex_lt(#[trigger] rotation(s, k), r)
}

/// The least rotation of a non-empty sequence.
pub open spec fn least_rotation(s: Seq<u32>) -> Seq<u32> {
    choose|r: Seq<u32>| is_least_rotation(s, r)
}

/// The canonical form of a cycle: the smaller of the least rotations of the
/// cycle and of its reverse.
pub open spec fn canonical_cycle(s: Seq<u32>) -> Seq<u32> {
    let f = least_rotation(s);
    let b = least_rotation(reversed(s));
    if !lex_lt(b, f) {
        f
    } else {
        b
    }
}

/// The FNV offset basis.
pub open spec fn fnv_offset() -> u32 {
    0x811C9DC5
}

/// One FNV-1a step on a byte.
pub open spec fn fnv_byte(h: u32, b: u32) -> u32 {
    (h ^ b).wrapping_mul(0x0100_0193)
}

/// FNV-1a over the four little-endian bytes of `x`.
pub open spec fn fnv_word(h: u32, x: u32) -> u32 {
    fnv_byte(
        fnv_byte(fnv_byte(fnv_byte(h, x & 0xff), (x >> 8u32) & 0xff), (x >> 16u32) & 0xff),
        (x >> 24u32) & 0xff,
    )
}

/// FNV-1a over the little-endian bytes of every element of `s`, in order.
pub open spec fn fnv_words(s: Seq<u32>) -> u32
    decreases s.len(),
{
    if s.len() == 0 {
        fnv_offset()
    } else {
        fnv_word(fnv_words(s.drop_last()), s.last())
    }
}

/// The key of the region bounded by the edge cycle `s` (0 for no edges).
pub open spec fn region_key(s: Seq<u32>) -> u32 {
    if s.len() == 0 {
        0
    } else {
        fnv_words(canonical_cycle(s))
    }
}

// ---------------------------------------------------------------------------
// Order lemmas
// ---------------------------------------------------------------------------
proof fn lemma_lex_irreflexive(a: Seq<u32>)
    ensures
        !lex_lt(a, a),
    decreases a.len(),
{
    if a.len() > 0 {
        lemma_lex_irreflexive(a.drop_first());
    }
}

proof fn lemma_lex_total(a: Seq<u32>, b: Seq<u32>)
    requires
        a.len() == b.len(),
    ensures
        lex_lt(a, b) || lex_lt(b, a) || a == b,
    decreases a.len(),
{
    if a.len() > 0 {
        lemma_lex_total(a.drop_first(), b.drop_first());
        if a[0] == b[0] && a.drop_first() == b.drop_first() {
            assert(a =~= seq![a[0]] + a.drop_first());
            assert(b =~= seq![b[0]] + b.drop_first());
        }
    } else {
        assert(a =~= b);
    }
}

proof fn lemma_lex_asymmetric(a: Seq<u32>, b: Seq<u32>)
    ensures
        !(lex_lt(a, b) && lex_lt(b, a)),
    decreases a.len(),
{
    if a.len() > 0 && b.len() > 0 {
        lemma_lex_asymmetric(a.drop_first(), b.drop_first());
    }
}

proof fn lemma_lex_transitive(a: Seq<u32>, b: Seq<u32>, c: Seq<u32>)
    requires
        lex_lt(a, b),
        lex_lt(b, c),
    ensures
        lex_lt(a, c),
    decreases a.len(),
{
    if a.len() > 0 && b.len() > 0 && c.len() > 0 {
        if a[0] == b[0] && b[0] == c[0] {
            lemma_lex_transitive(a.drop_first(), b.drop_first(), c.drop_first());
        }
    }
}

/// Two least rotations of one sequence are equal.
proof fn lemma_least_rotation_unique(s: Seq<u32>, r1: Seq<u32>, r2: Seq<u32>)
    requires
        is_least_rotation(s, r1),
        is_least_rotation(s, r2),
    ensures
        r1 == r2,
{
    let k1 = choose|k: int| 0 <= k < s.len() && r1 == rotation(s, k);
    let k2 = choose|k: int| 0 <= k < s.len() && r2 == rotation(s, k);
    assert(!lex_lt(rotation(s, k1), r2));
    assert(!lex_lt(rotation(s, k2), r1));
    lemma_lex_total(r1, r2);
}

/// A least rotation exists for every non-empty sequence, so `least_rotation` is one.
proof fn lemma_least_rotation_is_least(s: Seq<u32>, r: Seq<u32>)
    requires
        is_least_rotation(s, r),
    ensures
        least_rotation(s) == r,
{
    lemma_least_rotation_unique(s, least_rotation(s), r);
}

// ---------------------------------------------------------------------------
// Rotation lemmas
// ---------------------------------------------------------------------------
proof fn lemma_mod_once(a: int, n: int)
    requires
        0 < n,
        0 <= a < 2 * n,
    ensures
        a % n == (if a < n {
            a
        } else {
            a - n
        }),
{
    if a < n {
        vstd::arithmetic::div_mod::lemma_small_mod(a as nat, n as nat);
    } else {
        vstd::arithmetic::div_mod::lemma_small_mod((a - n) as nat, n as nat);
        vstd::arithmetic::div_mod::lemma_mod_add_multiples_vanish(a - n, n);
    }
}

/// Rotating a rotation is a rotation.
proof fn lemma_rotation_of_rotation(s: Seq<u32>, k: int, j: int)
    requires
        0 <= k < s.len(),
        0 <= j < s.len(),
    ensures
        rotation(rotation(s, k), j) == rotation(s, (k + j) % (s.len() as int)),
        0 <= (k + j) % (s.len() as int) < s.len(),
{
    let n = s.len() as int;
    lemma_mod_once(k + j, n);
    let m = (k + j) % n;
    assert forall|i: int| 0 <= i < n implies #[trigger] rotation(rotation(s, k), j)[i] == rotation(
        s,
        m,
    )[i] by {
        lemma_mod_once(j + i, n);
        lemma_mod_once(k + (j + i) % n, n);
        lemma_mod_once(m + i, n);
    }
    assert(rotation(rotation(s, k), j) =~= rotation(s, m));
}

/// The rotations of `rotation(s, k)` are exactly the rotations of `s`.
proof fn lemma_rotation_has_same_least(s: Seq<u32>, k: int, r: Seq<u32>)
    requires
        0 <= k < s.len(),
        is_least_rotation(s, r),
    ensures
        is_least_rotation(rotation(s, k), r),
{
    let n = s.len() as int;
    let t = rotation(s, k);
    let k0 = choose|q: int| 0 <= q < s.len() && r == rotation(s, q);
    // r is a rotation of t: start at (k0 - k) mod n.
    let j0 = if k0 >= k {
        k0 - k
    } else {
        k0 - k + n
    };
    lemma_rotation_of_rotation(s, k, j0);
    lemma_mod_once(k + j0, n);
    assert(r == rotation(t, j0));
    assert forall|j: int| 0 <= j < t.len() implies !lex_lt(#[trigger] rotation(t, j), r) by {
        lemma_rotation_of_rotation(s, k, j);
        let m = (k + j) % n;
        assert(!lex_lt(rotation(s, m), r));
    }
}

/// Reversing a rotation gives a rotation of the reverse.
proof fn lemma_reversed_rotation(s: Seq<u32>, k: int)
    requires
        0 <= k < s.len(),
    ensures
        reversed(rotation(s, k)) == rotation(reversed(s), if k == 0 {
            0
        } else {
            s.len() - k
        }),
{
    let n = s.len() as int;
    let m = if k == 0 {
        0
    } else {
        n - k
    };
    assert forall|i: int| 0 <= i < n implies #[trigger] reversed(rotation(s, k))[i] == rotation(
        reversed(s),
        m,
    )[i] by {
        lemma_mod_once(k + (n - 1 - i), n);
        lemma_mod_once(m + i, n);
    }
    assert(reversed(rotation(s, k)) =~= rotation(reversed(s), m));
}

proof fn lemma_reversed_twice(s: Seq<u32>)
    ensures
        reversed(reversed(s)) == s,
{
    assert(reversed(reversed(s)) =~= s);
}

/// Among the first `i` rotations of `s` one is least.
proof fn lemma_least_among_first(s: Seq<u32>, i: int) -> (best_k: int)
    requires
        1 <= i <= s.len(),
    ensures
        0 <= best_k < i,
        forall|q: int| 0 <= q < i ==> !lex_lt(#[trigger] rotation(s, q), rotation(s, best_k)),
    decreases i,
{
    if i == 1 {
        lemma_lex_irreflexive(rotation(s, 0));
        0
    } else {
        let b = lemma_least_among_first(s, i - 1);
        let c = i - 1;
        if lex_lt(rotation(s, c), rotation(s, b)) {
            assert forall|q: int| 0 <= q < i implies !lex_lt(
                #[trigger] rotation(s, q),
                rotation(s, c),
            ) by {
                if q == c {
                    lemma_lex_irreflexive(rotation(s, c));
                } else if lex_lt(rotation(s, q), rotation(s, c)) {
                    lemma_lex_transitive(rotation(s, q), rotation(s, c), rotation(s, b));
                }
            }
            c
        } else {
            b
        }
    }
}

/// Every non-empty sequence has a least rotation.
proof fn lemma_least_rotation_exists(s: Seq<u32>)
    requires
        s.len() > 0,
    ensures
        is_least_rotation(s, least_rotation(s)),
{
    let b = lemma_least_among_first(s, s.len() as int);
    assert(is_least_rotation(s, rotation(s, b)));
}

// ---------------------------------------------------------------------------
// Laws
// ---------------------------------------------------------------------------
/// A region's key does not depend on where the walk around its boundary
/// starts: rotating the edge cycle keeps the key.
pub proof fn lemma_region_key_rotation_invariant(s: Seq<u32>, k: int)
    requires
        0 <= k < s.len(),
    ensures
        region_key(rotation(s, k)) == region_key(s),
{
    let n = s.len() as int;
    let t = rotation(s, k);
    lemma_least_rotation_exists(s);
    lemma_rotation_has_same_least(s, k, least_rotation(s));
    lemma_least_rotation_is_least(t, least_rotation(s));
    let rs = reversed(s);
    let m = if k == 0 {
        0
    } else {
        n - k
    };
    lemma_reversed_rotation(s, k);
    lemma_least_rotation_exists(rs);
    lemma_rotation_has_same_least(rs, m, least_rotation(rs));
    lemma_least_rotation_is_least(reversed(t), least_rotation(rs));
    assert(canonical_cycle(t) == canonical_cycle(s));
}

/// A region's key does not depend on the direction of the walk around its
/// boundary: reversing the edge cycle keeps the key.
pub proof fn lemma_region_key_reversal_invariant(s: Seq<u32>)
    ensures
        region_key(reversed(s)) == region_key(s),
{
    if s.len() > 0 {
        lemma_reversed_twice(s);
        let f = least_rotation(s);
        let b = least_rotation(reversed(s));
        lemma_lex_total_via_rotations(s);
        lemma_lex_asymmetric(f, b);
        assert(canonical_cycle(reversed(s)) == canonical_cycle(s));
    }
}

/// The least rotations of a cycle and of its reverse have equal lengths.
proof fn lemma_lex_total_via_rotations(s: Seq<u32>)
    requires
        s.len() > 0,
    ensures
        lex_lt(least_rotation(s), least_rotation(reversed(s))) || lex_lt(
            least_rotation(reversed(s)),
            least_rotation(s),
        ) || least_rotation(s) == least_rotation(reversed(s)),
{
    lemma_least_rotation_exists(s);
    lemma_least_rotation_exists(reversed(s));
    lemma_lex_total(least_rotation(s), least_rotation(reversed(s)));
}

// ---------------------------------------------------------------------------
// Executable code
// ---------------------------------------------------------------------------
/// Strict lexicographic comparison of two vectors.
fn lex_less(a: &Vec<u32>, b: &Vec<u32>) -> (r: bool)
    ensures
        r == lex_lt(a@, b@),
{
    let mut i: usize = 0;
    assert(a@.skip(0) =~= a@);
    assert(b@.skip(0) =~= b@);
    while i < a.len() && i < b.len()
        invariant
            i <= a.len(),
            i <= b.len(),
            lex_lt(a@, b@) == lex_lt(a@.skip(i as int), b@.skip(i as int)),
        decreases a.len() - i,
    {
        if a[i] < b[i] {
            return true;
        }
        if a[i] > b[i] {
            return false;
        }
        assert(a@.skip(i as int).drop_first() =~= a@.skip(i + 1));
        assert(b@.skip(i as int).drop_first() =~= b@.skip(i + 1));
        i = i + 1;
    }
    i < b.len()
}

/// The least rotation of a non-empty sequence of edge ids.
fn min_rot_u32(seq: &Vec<u32>) -> (best: Vec<u32>)
    requires
        seq.len() > 0,
    ensures
        best@ == least_rotation(seq@),
{
    let n = seq.len();
    let mut best: Vec<u32> = Vec::new();
    let ghost mut best_k: int = 0;
    let mut s: usize = 0;
    while s < n
        invariant
            n == seq.len(),
            0 < n,
            s <= n,
            s > 0 ==> 0 <= best_k < s,
            s > 0 ==> best@ == rotation(seq@, best_k),
            forall|q: int| 0 <= q < s ==> !lex_lt(#[trigger] rotation(seq@, q), best@),
        decreases n - s,
    {
        let mut rot: Vec<u32> = Vec::with_capacity(n);
        let mut k: usize = 0;
        while k < n
            invariant
                n == seq.len(),
                s < n,
                k <= n,
                rot@.len() == k,
                forall|q: int| 0 <= q < k ==> rot@[q] == rotation(seq@, s as int)[q],
            decreases n - k,
        {
            let idx = if k < n - s {
                s + k
            } else {
                k - (n - s)
            };
            proof {
                lemma_mod_once(s + k, n as int);
            }
            rot.push(seq[idx]);
            k = k + 1;
        }
        assert(rot@ =~= rotation(seq@, s as int));
        if s == 0 || lex_less(&rot, &best) {
            proof {
                assert forall|q: int| 0 <= q < s + 1 implies !lex_lt(
                    #[trigger] rotation(seq@, q),
                    rot@,
                ) by {
                    if q == s {
                        lemma_lex_irreflexive(rot@);
                    } else if lex_lt(rotation(seq@, q), rot@) {
                        lemma_lex_transitive(rotation(seq@, q), rot@, best@);
                    }
                }
                best_k = s as int;
            }
            best = rot;
        }
        s = s + 1;
    }
    proof {
        assert(is_least_rotation(seq@, best@));
        lemma_least_rotation_is_least(seq@, best@);
    }
    best
}

/// Compute the stable key of a region from the cycle of edge ids bounding
/// it. The key is the same for every rotation and for the reverse of the
/// cycle; an empty cycle has key 0.
pub fn region_key_from_edges(seq: &[u32]) -> (key: u32)
    ensures
        key == region_key(seq@),
{
    if seq.len() == 0 {
        return 0;
    }
    let n = seq.len();
    let mut ring: Vec<u32> = Vec::with_capacity(n);
    let mut rev: Vec<u32> = Vec::with_capacity(n);
    let mut i: usize = 0;
    while i < n
        invariant
            n == seq@.len(),
            i <= n,
            ring@ == seq@.take(i as int),
            rev@.len() == i,
            forall|q: int| 0 <= q < i ==> rev@[q] == reversed(seq@)[q],
        decreases n - i,
    {
        ring.push(seq[i]);
        rev.push(seq[n - 1 - i]);
        assert(seq@.take(i + 1) =~= seq@.take(i as int).push(seq@[i as int]));
        i = i + 1;
    }
    assert(ring@ =~= seq@);
    assert(rev@ =~= reversed(seq@));
    let fwd = min_rot_u32(&ring);
    let bwd = min_rot_u32(&rev);
    let canon = if !lex_less(&bwd, &fwd) {
        fwd
    } else {
        bwd
    };
    assert(canon@ == canonical_cycle(seq@));
    let mut hash: u32 = 0x811C9DC5;
    let mut j: usize = 0;
    while j < canon.len()
        invariant
            j <= canon.len(),
            hash == fnv_words(canon@.take(j as int)),
        decreases canon.len() - j,
    {
        let x = canon[j];
        hash = (hash ^ (x & 0xff)).wrapping_mul(0x0100_0193);
        hash = (hash ^ ((x >> 8u32) & 0xff)).wrapping_mul(0x0100_0193);
        hash = (hash ^ ((x >> 16u32) & 0xff)).wrapping_mul(0x0100_0193);
        hash = (hash ^ ((x >> 24u32) & 0xff)).wrapping_mul(0x0100_0193);
        assert(canon@.take(j + 1).drop_last() =~= canon@.take(j as int));
        j = j + 1;
    }
    assert(canon@.take(canon.len() as int) =~= canon@);
    hash
}

} // verus!
