//! Why the control bits route: for every permutation, the network set
//! by its control bits takes the wires `0, 1, ..., n - 1` to the
//! permutation.

use vstd::prelude::*;
use crate::controlbits::{
    all_16bit, arrange, back_forth, flip, identity_seq, lo16, pack, packed_pairs,
};
use crate::benes::{
    benes_spec, identity_wires, layer_pair, layer_partner, layer_stride, lemma_partner_in_range,
    lemma_two_pow_add, lemma_two_pow_bound, net_forward, net_layer, two_pow,
};
use crate::controlbits::{cb_count, controlbits_seq, controlbits_spec, lemma_cb_count, widen};
use crate::util::{bit_at, bits_of};
use crate::controlbits::{
    after_first, all_01_u64, cycle_min, cycle_state, cycle_step, first_bits, last_bits, middle_half,
    middle_perm, pair_swaps,
};
use crate::sort::{lemma_sorted_seq_props, sorted_seq};

verus! {

/// `p` is a permutation of `0, 1, ..., n - 1`, for `n` the length of
/// `p`.
pub open spec fn is_perm(p: Seq<u64>) -> bool {
    &&& forall|i: int| 0 <= i < p.len() ==> (#[trigger] p[i]) < p.len()
    &&& forall|i: int, j: int| 0 <= i < p.len() && 0 <= j < p.len() && i != j ==> p[i] != p[j]
}

/// An index at which `p` takes the value `y`.
pub open spec fn preimage(p: Seq<u64>, y: int) -> int {
    choose|x: int| 0 <= x < p.len() && p[x] == y
}

/// A packed pair gives its parts back, and pairs are ordered by their
/// keys first.
proof fn lemma_pack_parts(h: u64, l: u64, x: u64, y: u64)
    by (bit_vector)
    ensures
        h < 0x1_0000 && l < 0x1_0000 ==> pack(h, l) >> 16 == h && lo16(pack(h, l)) == l,
        x <= y ==> (x >> 16) <= (y >> 16),
{
}

/// Numbers below `n` that increase strictly, `n` of them, are
/// `0, 1, ..., n - 1`.
proof fn lemma_strict_range(h: Seq<int>, i: int)
    requires
        forall|a: int| 0 <= a < h.len() ==> 0 <= #[trigger] h[a] < h.len(),
        forall|a: int, b: int| 0 <= a < b < h.len() ==> h[a] < h[b],
        0 <= i < h.len(),
    ensures
        h[i] == i,
{
    lemma_strict_low(h, i);
    lemma_strict_high(h, i);
}

/// A strictly increasing sequence of indices is at least the identity.
proof fn lemma_strict_low(h: Seq<int>, i: int)
    requires
        forall|a: int| 0 <= a < h.len() ==> 0 <= #[trigger] h[a] < h.len(),
        forall|a: int, b: int| 0 <= a < b < h.len() ==> h[a] < h[b],
        0 <= i < h.len(),
    ensures
        h[i] >= i,
    decreases i,
{
    if i > 0 {
        lemma_strict_low(h, i - 1);
    }
}

/// A strictly increasing sequence of indices below its length is at most
/// the identity.
proof fn lemma_strict_high(h: Seq<int>, i: int)
    requires
        forall|a: int| 0 <= a < h.len() ==> 0 <= #[trigger] h[a] < h.len(),
        forall|a: int, b: int| 0 <= a < b < h.len() ==> h[a] < h[b],
        0 <= i < h.len(),
    ensures
        h[i] <= i,
    decreases h.len() - i,
{
    if i < h.len() - 1 {
        lemma_strict_high(h, i + 1);
    }
}

/// The pairs of a key and a value, for keys that are a permutation, come
/// out of the sort with key `i` at place `i`.
proof fn lemma_sorted_pairs(keys: Seq<u64>, vals: Seq<u64>)
    requires
        is_perm(keys),
        keys.len() == vals.len(),
        keys.len() <= 0x1_0000,
        all_16bit(vals),
    ensures
        sorted_seq(packed_pairs(keys, vals)).len() == keys.len(),
        forall|i: int|
            0 <= i < keys.len() ==> (#[trigger] sorted_seq(packed_pairs(keys, vals))[i]) == pack(
                keys[preimage(keys, i)],
                vals[preimage(keys, i)],
            ),
        forall|i: int|
            0 <= i < keys.len() ==> 0 <= (#[trigger] preimage(keys, i)) < keys.len()
                && keys[preimage(keys, i)] == i,
{
    broadcast use vstd::multiset::group_multiset_axioms;

    let n = keys.len() as int;
    let packed = packed_pairs(keys, vals);
    let s = sorted_seq(packed);
    lemma_sorted_seq_props(packed);
    packed.to_multiset_ensures();
    s.to_multiset_ensures();
    let src = |i: int| choose|x: int| 0 <= x < n && s[i] == #[trigger] packed[x];
    assert forall|i: int| 0 <= i < n implies 0 <= src(i) < n && s[i] == packed[src(i)] by {
        assert(s.contains(s[i]));
        assert(s.to_multiset().count(s[i]) > 0);
        assert(packed.to_multiset().count(s[i]) > 0);
        assert(packed.contains(s[i]));
        let x = choose|x: int| 0 <= x < packed.len() && packed[x] == s[i];
        assert(0 <= x < n && s[i] == packed[x]);
    }
    assert(packed.no_duplicates()) by {
        assert forall|a: int, b: int| 0 <= a < n && 0 <= b < n && a != b implies packed[a]
            != packed[b] by {
            lemma_pack_parts(keys[a], vals[a], 0, 0);
            lemma_pack_parts(keys[b], vals[b], 0, 0);
        }
    }
    packed.lemma_multiset_has_no_duplicates();
    s.lemma_multiset_has_no_duplicates_conv();
    let h = Seq::new(n as nat, |i: int| (s[i] >> 16) as int);
    assert forall|i: int| 0 <= i < n implies h[i] == keys[src(i)] as int by {
        lemma_pack_parts(keys[src(i)], vals[src(i)], 0, 0);
    }
    assert forall|a: int, b: int| 0 <= a < b < n implies h[a] < h[b] by {
        lemma_pack_parts(0, 0, s[a], s[b]);
        if h[a] == h[b] {
            assert(keys[src(a)] == keys[src(b)]);
            assert(src(a) == src(b));
            assert(s[a] == s[b]);
        }
    }
    assert forall|i: int| 0 <= i < keys.len() implies (#[trigger] s[i]) == pack(
        keys[preimage(keys, i)],
        vals[preimage(keys, i)],
    ) by {
        lemma_strict_range(h, i);
        let x = src(i);
        assert(0 <= x < keys.len() && keys[x] == i);
        let y = preimage(keys, i);
        assert(0 <= y < keys.len() && keys[y] == i);
        assert(x == y);
        assert(s[i] == packed[x]);
    }
    assert forall|i: int| 0 <= i < keys.len() implies 0 <= (#[trigger] preimage(keys, i))
        < keys.len() && keys[preimage(keys, i)] == i by {
        lemma_strict_range(h, i);
        let x = src(i);
        assert(0 <= x < keys.len() && keys[x] == i);
    }
}

/// Where the keys are a permutation, `arrange` puts the value of key
/// `keys[x]` at place `keys[x]`.
pub proof fn lemma_arrange(keys: Seq<u64>, vals: Seq<u64>, x: int)
    requires
        is_perm(keys),
        keys.len() == vals.len(),
        keys.len() <= 0x1_0000,
        all_16bit(vals),
        0 <= x < keys.len(),
    ensures
        arrange(keys, vals)[keys[x] as int] == vals[x],
        arrange(keys, vals).len() == keys.len(),
{
    lemma_sorted_pairs(keys, vals);
    let packed = packed_pairs(keys, vals);
    let s = sorted_seq(packed);
    let i = keys[x] as int;
    assert(s[i] == pack(keys[preimage(keys, i)], vals[preimage(keys, i)]));
    assert(preimage(keys, i) == x);
    lemma_pack_parts(keys[x], vals[x], 0, 0);
}

/// A permutation takes every value: for each `y` below `n` there is an
/// `x` with `p[x] = y`.
pub proof fn lemma_perm_onto(p: Seq<u64>, y: int) -> (x: int)
    requires
        is_perm(p),
        p.len() <= 0x1_0000,
        0 <= y < p.len(),
    ensures
        0 <= x < p.len(),
        p[x] == y,
{
    let vals = identity_seq(p.len());
    lemma_sorted_pairs(p, vals);
    let packed = packed_pairs(p, vals);
    let s = sorted_seq(packed);
    assert(s[y] == pack(p[preimage(p, y)], vals[preimage(p, y)]));
    preimage(p, y)
}

/// The inverse of the permutation `p`.
pub open spec fn inv_perm(p: Seq<u64>) -> Seq<u64> {
    arrange(p, identity_seq(p.len()))
}

/// A permutation of at most `2^16` elements has entries below `2^16`.
pub proof fn lemma_perm_16bit(p: Seq<u64>)
    requires
        is_perm(p),
        p.len() <= 0x1_0000,
    ensures
        all_16bit(p),
        all_16bit(identity_seq(p.len())),
{
}

/// The inverse of a permutation is a permutation, and undoes it on both
/// sides.
pub proof fn lemma_inv_perm(p: Seq<u64>)
    requires
        is_perm(p),
        p.len() <= 0x1_0000,
    ensures
        is_perm(inv_perm(p)),
        inv_perm(p).len() == p.len(),
        forall|x: int| 0 <= x < p.len() ==> (#[trigger] inv_perm(p)[p[x] as int]) == x,
        forall|y: int| 0 <= y < p.len() ==> (#[trigger] p[inv_perm(p)[y] as int]) == y,
{
    let n = p.len();
    let id = identity_seq(n);
    let ip = inv_perm(p);
    assert forall|x: int| 0 <= x < n implies (#[trigger] ip[p[x] as int]) == x by {
        lemma_arrange(p, id, x);
    }
    assert forall|y: int| 0 <= y < n implies (#[trigger] p[ip[y] as int]) == y && ip[y] < n by {
        let x = lemma_perm_onto(p, y);
        lemma_arrange(p, id, x);
        assert(ip[p[x] as int] == x);
    }
    assert forall|i: int, j: int| 0 <= i < n && 0 <= j < n && i != j implies ip[i] != ip[j] by {
        assert(p[ip[i] as int] == i);
        assert(p[ip[j] as int] == j);
    }
    assert forall|y: int| 0 <= y < n implies (#[trigger] ip[y]) < n by {
        assert(p[ip[y] as int] == y && ip[y] < n);
    }
}

/// Arranging values by the inverse of `p` is following `p`:
/// entry `y` is the value at `p[y]`.
pub proof fn lemma_arrange_by_inverse(p: Seq<u64>, vals: Seq<u64>, y: int)
    requires
        is_perm(p),
        p.len() == vals.len(),
        p.len() <= 0x1_0000,
        all_16bit(vals),
        0 <= y < p.len(),
    ensures
        arrange(inv_perm(p), vals)[y] == vals[p[y] as int],
        arrange(inv_perm(p), vals).len() == p.len(),
{
    lemma_inv_perm(p);
    let x = p[y] as int;
    lemma_arrange(inv_perm(p), vals, x);
    assert(inv_perm(p)[p[y] as int] == y);
}

/// The other wire of a pair, by bits.
proof fn lemma_flip_bits(v: u64)
    by (bit_vector)
    ensures
        v % 2 == 0 ==> v ^ 1 == v + 1,
        v % 2 == 1 ==> v ^ 1 == v - 1,
        v & 1 == v % 2,
        v >> 1 == v / 2,
{
}

/// The other wire of a pair, as a number.
pub proof fn lemma_flip(v: u64, n: int)
    requires
        v < n,
        n % 2 == 0,
        n <= 0x1_0000,
    ensures
        (v ^ 1) as int == flip(v as int),
        0 <= flip(v as int) < n,
        flip(flip(v as int)) == v,
        flip(v as int) != v,
        flip(v as int) / 2 == v / 2,
        (v & 1) as int == v as int % 2,
        (v >> 1) as int == v as int / 2,
{
    lemma_flip_bits(v);
}

/// What `back_forth(pi)` is for a permutation `pi` of an even number of
/// elements, and that it is a permutation with
/// `q[flip(q[x])] = flip(x)`.
pub proof fn lemma_back_forth(pi: Seq<u64>)
    requires
        is_perm(pi),
        pi.len() % 2 == 0,
        pi.len() <= 0x1_0000,
    ensures
        is_perm(back_forth(pi)),
        back_forth(pi).len() == pi.len(),
        forall|x: int|
            0 <= x < pi.len() ==> (#[trigger] back_forth(pi)[flip(pi[x] as int)]) == pi[flip(x)],
        forall|x: int|
            0 <= x < pi.len() ==> (#[trigger] back_forth(pi)[flip(back_forth(pi)[x] as int)])
                == flip(x),
        forall|x: int| 0 <= x < pi.len() ==> (#[trigger] back_forth(pi)[flip(x)]) != x,
{
    let n = pi.len() as int;
    let keys = Seq::new(pi.len(), |x: int| pi[x] ^ 1);
    let vals = Seq::new(pi.len(), |x: int| pi[flip(x)]);
    let q = back_forth(pi);
    lemma_inv_perm(pi);
    let ipi = inv_perm(pi);
    assert forall|x: int| 0 <= x < n implies (#[trigger] keys[x]) as int == flip(pi[x] as int)
        && keys[x] < n && 0 <= flip(x) < n by {
        lemma_flip(pi[x], n);
        lemma_flip(x as u64, n);
    }
    assert(is_perm(keys)) by {
        assert forall|i: int, j: int| 0 <= i < n && 0 <= j < n && i != j implies keys[i]
            != keys[j] by {
            lemma_flip(pi[i], n);
            lemma_flip(pi[j], n);
        }
    }
    assert(all_16bit(vals)) by {
        assert forall|x: int| 0 <= x < n implies (#[trigger] vals[x]) < 0x1_0000 by {
            lemma_flip(x as u64, n);
        }
    }
    assert forall|x: int| 0 <= x < n implies (#[trigger] q[flip(pi[x] as int)]) == pi[flip(x)] by {
        lemma_arrange(keys, vals, x);
        assert(keys[x] as int == flip(pi[x] as int));
    }
    // q[y] = pi[flip(ipi[flip(y)])]
    assert forall|y: int| 0 <= y < n implies (#[trigger] q[y]) == pi[flip(ipi[flip(y)] as int)]
        && q[y] < n by {
        lemma_flip(y as u64, n);
        let fy = flip(y);
        let x = ipi[fy] as int;
        assert(pi[ipi[fy] as int] == fy);
        lemma_flip(pi[x], n);
        assert(q[flip(pi[x] as int)] == pi[flip(x)]);
        lemma_flip(x as u64, n);
    }
    assert forall|i: int, j: int| 0 <= i < n && 0 <= j < n && i != j implies q[i] != q[j] by {
        lemma_flip(i as u64, n);
        lemma_flip(j as u64, n);
        let a = ipi[flip(i)] as int;
        let b = ipi[flip(j)] as int;
        assert(pi[ipi[flip(i)] as int] == flip(i));
        assert(pi[ipi[flip(j)] as int] == flip(j));
        lemma_flip(a as u64, n);
        lemma_flip(b as u64, n);
        assert(q[i] == pi[flip(a)]);
        assert(q[j] == pi[flip(b)]);
    }
    assert forall|x: int| 0 <= x < n implies (#[trigger] q[flip(q[x] as int)]) == flip(x) by {
        lemma_flip(x as u64, n);
        let a = ipi[flip(x)] as int;
        assert(pi[ipi[flip(x)] as int] == flip(x));
        lemma_flip(a as u64, n);
        assert(q[x] == pi[flip(a)]);
        lemma_flip(q[x], n);
        // q[flip(q[x])] = pi[flip(ipi[q[x]])] = pi[flip(flip(a))] = pi[a] = flip(x)
        assert(q[flip(q[x] as int)] == pi[flip(ipi[flip(flip(q[x] as int))] as int)]);
        assert(ipi[pi[flip(a)] as int] == flip(a));
    }
    assert forall|x: int| 0 <= x < n implies (#[trigger] q[flip(x)]) != x by {
        lemma_flip(x as u64, n);
        let a = ipi[x] as int;
        assert(pi[ipi[x] as int] == x);
        lemma_flip(a as u64, n);
        assert(q[flip(x)] == pi[flip(ipi[flip(flip(x))] as int)]);
    }
}

/// `q` is a permutation of an even number of elements that goes back
/// when seen from the other wire of each pair:
/// `q[flip(q[x])] = flip(x)`, and never `q[flip(x)] = x`.
pub open spec fn mirrored(q: Seq<u64>) -> bool {
    &&& is_perm(q)
    &&& q.len() % 2 == 0
    &&& q.len() <= 0x1_0000
    &&& forall|x: int| 0 <= x < q.len() ==> (#[trigger] q[flip(q[x] as int)]) == flip(x)
    &&& forall|x: int| 0 <= x < q.len() ==> (#[trigger] q[flip(x)]) != x
}

/// `x` after `j` steps of `q`.
pub open spec fn iter(q: Seq<u64>, j: nat, x: int) -> int
    decreases j,
{
    if j == 0 {
        x
    } else {
        q[iter(q, (j - 1) as nat, x)] as int
    }
}

/// One step first or one step last.
proof fn lemma_iter_shift(q: Seq<u64>, a: nat, x: int)
    requires
        is_perm(q),
        0 <= x < q.len(),
    ensures
        iter(q, a + 1, x) == iter(q, a, q[x] as int),
        0 <= iter(q, a, x) < q.len(),
    decreases a,
{
    if a > 0 {
        lemma_iter_shift(q, (a - 1) as nat, x);
        assert(iter(q, a + 1, x) == q[iter(q, a, x)] as int);
        assert(iter(q, a, q[x] as int) == q[iter(q, (a - 1) as nat, q[x] as int)] as int);
    } else {
        assert(iter(q, 1, x) == q[iter(q, 0, x)] as int);
    }
}

/// The steps of a permutation stay below `n`, and add up.
pub proof fn lemma_iter(q: Seq<u64>, a: nat, b: nat, x: int)
    requires
        is_perm(q),
        0 <= x < q.len(),
    ensures
        0 <= iter(q, a, x) < q.len(),
        iter(q, a + b, x) == iter(q, b, iter(q, a, x)),
        iter(q, a + 1, x) == iter(q, a, q[x] as int),
    decreases b,
{
    lemma_iter_shift(q, a, x);
    if b > 0 {
        lemma_iter(q, a, (b - 1) as nat, x);
        assert(iter(q, a + b, x) == q[iter(q, (a + b - 1) as nat, x)] as int);
    }
}

/// No number of steps of a mirrored permutation leads from a wire to the
/// other wire of its pair.
pub proof fn lemma_never_flipped(q: Seq<u64>, j: nat, x: int)
    requires
        mirrored(q),
        0 <= x < q.len(),
    ensures
        iter(q, j, x) != flip(x),
    decreases j,
{
    let n = q.len() as int;
    lemma_flip(x as u64, n);
    if j == 0 {
    } else if j == 1 {
        let y = flip(x);
        assert(q[flip(y)] != y);
        assert(iter(q, 1, x) == q[iter(q, 0, x)] as int);
    } else {
        let x1 = q[x] as int;
        lemma_never_flipped(q, (j - 2) as nat, x1);
        lemma_iter_shift(q, (j - 1) as nat, x);
        lemma_iter_shift(q, (j - 2) as nat, x);
        lemma_flip(x1 as u64, n);
        if iter(q, j, x) == flip(x) {
            let y = iter(q, (j - 1) as nat, x);
            // q[y] = flip(x) = q[flip(q[x])], so y = flip(q[x])
            assert(q[y] == flip(x));
            assert(q[flip(q[x] as int)] == flip(x));
            assert(y == flip(x1));
            assert(y == iter(q, (j - 2) as nat, x1));
        }
    }
}

/// Two wires that some steps lead to from one wire are never the two
/// wires of a pair.
pub proof fn lemma_orbit_avoids_flips(q: Seq<u64>, i: nat, j: nat, x: int)
    requires
        mirrored(q),
        0 <= x < q.len(),
    ensures
        iter(q, i, x) != flip(iter(q, j, x)),
{
    let n = q.len() as int;
    lemma_iter(q, i, 0, x);
    lemma_iter(q, j, 0, x);
    if i >= j {
        let y = iter(q, j, x);
        lemma_iter(q, j, (i - j) as nat, x);
        lemma_never_flipped(q, (i - j) as nat, y);
    } else {
        let y = iter(q, i, x);
        lemma_iter(q, i, (j - i) as nat, x);
        lemma_never_flipped(q, (j - i) as nat, y);
        lemma_flip(y as u64, n);
        lemma_flip(iter(q, j, x) as u64, n);
    }
}

/// More numbers than `n`, all below `n`: two of them agree.
pub proof fn lemma_pigeonhole(s: Seq<int>, n: int) -> (r: (int, int))
    requires
        0 <= n < s.len(),
        forall|i: int| 0 <= i < s.len() ==> 0 <= #[trigger] s[i] < n,
    ensures
        0 <= r.0 < r.1 < s.len(),
        s[r.0] == s[r.1],
    decreases n,
{
    if n == 0 {
        assert(s[0] < n);
        (0, 0)
    } else if exists|p: int| 0 <= p < s.len() && s[p] == n - 1 {
        let p = choose|p: int| 0 <= p < s.len() && s[p] == n - 1;
        if exists|other: int| 0 <= other < s.len() && other != p && s[other] == n - 1 {
            let other = choose|other: int| 0 <= other < s.len() && other != p && s[other] == n - 1;
            if p < other {
                (p, other)
            } else {
                (other, p)
            }
        } else {
            let t = s.remove(p);
            assert forall|i: int| 0 <= i < t.len() implies 0 <= #[trigger] t[i] < n - 1 by {
                if i < p {
                    assert(t[i] == s[i]);
                } else {
                    assert(t[i] == s[i + 1]);
                }
            }
            let (a, b) = lemma_pigeonhole(t, n - 1);
            let a2 = if a < p {
                a
            } else {
                a + 1
            };
            let b2 = if b < p {
                b
            } else {
                b + 1
            };
            (a2, b2)
        }
    } else {
        let t = s.drop_last();
        assert forall|i: int| 0 <= i < t.len() implies 0 <= #[trigger] t[i] < n - 1 by {
            assert(t[i] == s[i]);
        }
        lemma_pigeonhole(t, n - 1)
    }
}

/// Where a wire is reached again after `d` more steps, it is reached
/// after `d` steps from the start.
proof fn lemma_iter_cancel(q: Seq<u64>, i: nat, d: nat, x: int)
    requires
        is_perm(q),
        0 <= x < q.len(),
        iter(q, i + d, x) == iter(q, i, x),
    ensures
        iter(q, d, x) == x,
    decreases i,
{
    if i > 0 {
        lemma_iter(q, (i - 1 + d) as nat, 0, x);
        lemma_iter(q, (i - 1) as nat, 0, x);
        assert(iter(q, i + d, x) == q[iter(q, (i + d - 1) as nat, x)] as int);
        lemma_iter_cancel(q, (i - 1) as nat, d, x);
    }
}

/// The orbit of `x` closes after `r` steps, for some `r` from 1 to half
/// the number of wires.
pub open spec fn closes_within(q: Seq<u64>, x: int, r: nat) -> bool {
    1 <= r <= q.len() / 2 && iter(q, r, x) == x
}

/// Every orbit of a mirrored permutation closes within half as many
/// steps as there are wires.
pub proof fn lemma_period(q: Seq<u64>, x: int) -> (r: nat)
    requires
        mirrored(q),
        0 <= x < q.len(),
    ensures
        closes_within(q, x, r),
{
    let n = q.len() as int;
    let w = n / 2;
    // the first w + 1 wires of the orbit, and the other wires of their pairs
    let s = Seq::new(
        (2 * w + 2) as nat,
        |k: int| if k <= w { iter(q, k as nat, x) } else { flip(iter(q, (k - w - 1) as nat, x)) },
    );
    assert forall|k: int| 0 <= k < s.len() implies 0 <= #[trigger] s[k] < n by {
        if k <= w {
            lemma_iter(q, k as nat, 0, x);
        } else {
            lemma_iter(q, (k - w - 1) as nat, 0, x);
            lemma_flip(iter(q, (k - w - 1) as nat, x) as u64, n);
        }
    }
    let (a, b) = lemma_pigeonhole(s, n);
    let i: nat = (if a <= w { a } else { a - w - 1 }) as nat;
    let j: nat = (if b <= w { b } else { b - w - 1 }) as nat;
    lemma_iter(q, i, 0, x);
    lemma_iter(q, j, 0, x);
    lemma_flip(iter(q, i, x) as u64, n);
    lemma_flip(iter(q, j, x) as u64, n);
    if a <= w && b > w {
        lemma_orbit_avoids_flips(q, i, j, x);
        assert(false);
    }
    assert(iter(q, i, x) == iter(q, j, x));
    assert(i < j);
    lemma_iter_cancel(q, i, (j - i) as nat, x);
    (j - i) as nat
}

/// The least of the first `len` wires of the orbit of `x`.
pub open spec fn wmin(q: Seq<u64>, x: int, len: nat) -> int
    decreases len,
{
    if len <= 1 {
        x
    } else {
        let a = wmin(q, x, (len - 1) as nat);
        let b = iter(q, (len - 1) as nat, x);
        if a <= b {
            a
        } else {
            b
        }
    }
}

/// The least of the first `len` wires is at most each of them, and is
/// one of them.
pub proof fn lemma_wmin(q: Seq<u64>, x: int, len: nat, j: nat) -> (at: nat)
    requires
        1 <= len,
        j < len,
    ensures
        wmin(q, x, len) <= iter(q, j, x),
        at < len,
        wmin(q, x, len) == iter(q, at, x),
    decreases len,
{
    if len <= 1 {
        0
    } else {
        let prev = lemma_wmin(q, x, (len - 1) as nat, if j < len - 1 { j } else { 0 });
        if wmin(q, x, (len - 1) as nat) <= iter(q, (len - 1) as nat, x) {
            prev
        } else {
            (len - 1) as nat
        }
    }
}

/// The least of `a + b` wires is the lesser of the least of the first
/// `a` and the least of the next `b`.
pub proof fn lemma_wmin_concat(q: Seq<u64>, x: int, a: nat, b: nat)
    requires
        is_perm(q),
        0 <= x < q.len(),
        1 <= a,
        1 <= b,
    ensures
        wmin(q, x, a + b) == (if wmin(q, x, a) <= wmin(q, iter(q, a, x), b) {
            wmin(q, x, a)
        } else {
            wmin(q, iter(q, a, x), b)
        }),
    decreases b,
{
    lemma_iter(q, a, 0, x);
    if b > 1 {
        lemma_wmin_concat(q, x, a, (b - 1) as nat);
        lemma_iter(q, a, (b - 1) as nat, x);
        assert(wmin(q, x, a + b) == (if wmin(q, x, (a + b - 1) as nat) <= iter(
            q,
            (a + b - 1) as nat,
            x,
        ) {
            wmin(q, x, (a + b - 1) as nat)
        } else {
            iter(q, (a + b - 1) as nat, x)
        }));
    } else {
        assert(wmin(q, x, a + 1) == (if wmin(q, x, a) <= iter(q, a, x) {
            wmin(q, x, a)
        } else {
            iter(q, a, x)
        }));
    }
}

/// An orbit that closes after `r` steps is at the same wire after
/// `r k + b` steps as after `b` steps.
pub proof fn lemma_wraps(q: Seq<u64>, x: int, r: nat, k: nat, b: nat)
    requires
        is_perm(q),
        0 <= x < q.len(),
        iter(q, r, x) == x,
    ensures
        iter(q, r * k + b, x) == iter(q, b, x),
    decreases k,
{
    if k > 0 {
        lemma_wraps(q, x, r, (k - 1) as nat, b);
        assert(r * k + b == r + (r * ((k - 1) as nat) + b)) by (nonlinear_arith)
            requires
                k >= 1,
        ;
        lemma_iter(q, r, r * ((k - 1) as nat) + b, x);
    } else {
        assert(r * k == 0) by (nonlinear_arith)
            requires
                k == 0,
        ;
    }
}

/// Where the orbit closes within the window, the least wire of the
/// window is the least wire of the whole orbit.
pub proof fn lemma_wmin_least(q: Seq<u64>, x: int, r: nat, len: nat, big: nat)
    requires
        is_perm(q),
        0 <= x < q.len(),
        1 <= r <= len,
        iter(q, r, x) == x,
    ensures
        wmin(q, x, len) <= iter(q, big, x),
{
    let k = big / r;
    let b = big % r;
    vstd::arithmetic::div_mod::lemma_fundamental_div_mod(big as int, r as int);
    lemma_wraps(q, x, r, k, b);
    lemma_wmin(q, x, len, b);
}

/// Wires of one orbit have the same least wire.
pub proof fn lemma_wmin_of_orbit(q: Seq<u64>, y: int, steps: nat)
    requires
        mirrored(q),
        0 <= y < q.len(),
        q.len() >= 2,
    ensures
        wmin(q, iter(q, steps, y), (q.len() / 2) as nat) == wmin(q, y, (q.len() / 2) as nat),
{
    let w = (q.len() / 2) as nat;
    let z = iter(q, steps, y);
    lemma_iter(q, steps, 0, y);
    let ry = lemma_period(q, y);
    let rz = lemma_period(q, z);
    // the least wire of z is a wire of the orbit of y
    let jz = lemma_wmin(q, z, w, 0);
    lemma_iter(q, steps, jz, y);
    lemma_wmin_least(q, y, ry, w, steps + jz);
    // y is a wire of the orbit of z
    let back = ((ry - 1) * steps) as nat;
    assert(ry * steps == steps + back) by (nonlinear_arith)
        requires
            back == (ry - 1) * steps,
    ;
    lemma_wraps(q, y, ry, steps, 0);
    lemma_iter(q, steps, back, y);
    assert(iter(q, back, z) == y);
    let jy = lemma_wmin(q, y, w, 0);
    lemma_iter(q, back, jy, z);
    lemma_wmin_least(q, z, rz, w, back + jy);
}

/// After `j` steps from the other wire of the pair of the wire that `j`
/// steps lead to from `y`, the other wire of the pair of `y` is reached.
pub proof fn lemma_mirror_steps(q: Seq<u64>, j: nat, y: int)
    requires
        mirrored(q),
        0 <= y < q.len(),
    ensures
        iter(q, j, flip(iter(q, j, y))) == flip(y),
        0 <= flip(iter(q, j, y)) < q.len(),
    decreases j,
{
    let n = q.len() as int;
    lemma_iter(q, j, 0, y);
    lemma_flip(iter(q, j, y) as u64, n);
    if j > 0 {
        lemma_mirror_steps(q, (j - 1) as nat, y);
        let z = iter(q, (j - 1) as nat, y);
        lemma_iter(q, (j - 1) as nat, 0, y);
        assert(iter(q, j, y) == q[z] as int);
        // one step from flip(q[z]) leads to flip(z)
        lemma_iter_shift(q, (j - 1) as nat, flip(q[z] as int));
        assert(q[flip(q[z] as int)] == flip(z));
    }
}

/// The least wire of the orbit of the other wire of a pair is the other
/// wire of the pair of the least wire.
pub proof fn lemma_wmin_flip(q: Seq<u64>, x: int)
    requires
        mirrored(q),
        0 <= x < q.len(),
        q.len() >= 2,
    ensures
        wmin(q, flip(x), (q.len() / 2) as nat) == flip(wmin(q, x, (q.len() / 2) as nat)),
{
    let n = q.len() as int;
    let w = (n / 2) as nat;
    let j0 = lemma_wmin(q, x, w, 0);
    let m = wmin(q, x, w);
    lemma_iter(q, j0, 0, x);
    lemma_flip(m as u64, n);
    lemma_flip(x as u64, n);
    let fm = flip(m);
    let r = lemma_period(q, m);
    let rx = lemma_period(q, x);
    // flip(x) is a wire of the orbit of flip(m)
    lemma_mirror_steps(q, j0, x);
    assert(iter(q, j0, fm) == flip(x));
    lemma_wmin_of_orbit(q, fm, j0);
    // every wire of the orbit of flip(m) is at least flip(m)
    let jf = lemma_wmin(q, fm, w, 0);
    let back = ((r - 1) * jf) as nat;
    let y = iter(q, back, m);
    lemma_iter(q, back, jf, m);
    assert(r * jf == back + jf) by (nonlinear_arith)
        requires
            back == (r - 1) * jf,
    ;
    lemma_wraps(q, m, r, jf, 0);
    assert(iter(q, jf, y) == m);
    lemma_mirror_steps(q, jf, y);
    assert(iter(q, jf, fm) == flip(y));
    // y is a wire of the orbit of x, so at least m, and not flip(m)
    lemma_iter(q, j0, back, x);
    lemma_wmin_least(q, x, rx, w, j0 + back);
    lemma_orbit_avoids_flips(q, back, 0, m);
    lemma_iter(q, back, 0, m);
    lemma_flip(y as u64, n);
    assert(flip(y) >= fm);
}

/// The state after `k` doublings: the permutation is `2^(k + 1)` steps
/// of `q`, and the least wire is that of the first `2^(k + 1)` wires of
/// the orbit.
pub proof fn lemma_cycle_state(q: Seq<u64>, k: nat)
    requires
        is_perm(q),
        q.len() <= 0x1_0000,
    ensures
        is_perm(cycle_state(q, k).p),
        cycle_state(q, k).p.len() == q.len(),
        cycle_state(q, k).c.len() == q.len(),
        forall|x: int|
            0 <= x < q.len() ==> (#[trigger] cycle_state(q, k).p[x]) == iter(
                q,
                two_pow(k + 1) as nat,
                x,
            ),
        forall|x: int|
            0 <= x < q.len() ==> (#[trigger] cycle_state(q, k).c[x]) == wmin(
                q,
                x,
                two_pow(k + 1) as nat,
            ),
        two_pow(k + 1) >= 2,
    decreases k,
{
    let n = q.len();
    let id = identity_seq(n);
    lemma_perm_16bit(q);
    lemma_two_pow_add(k, 1);
    lemma_two_pow_add(k + 1, 0);
    reveal_with_fuel(two_pow, 3);
    if k == 0 {
        let st = cycle_state(q, 0);
        lemma_inv_perm(q);
        assert(st.p == arrange(inv_perm(q), q));
        assert forall|x: int| 0 <= x < n implies (#[trigger] st.p[x]) == iter(q, 2, x) && st.p[x]
            < n by {
            lemma_arrange_by_inverse(q, q, x);
            reveal_with_fuel(iter, 3);
        }
        assert forall|x: int| 0 <= x < n implies (#[trigger] st.c[x]) == wmin(q, x, 2) by {
            reveal_with_fuel(iter, 3);
            reveal_with_fuel(wmin, 3);
        }
        assert forall|i: int, j: int| 0 <= i < n && 0 <= j < n && i != j implies st.p[i]
            != st.p[j] by {
            lemma_arrange_by_inverse(q, q, i);
            lemma_arrange_by_inverse(q, q, j);
        }
    } else {
        lemma_cycle_state(q, (k - 1) as nat);
        let prev = cycle_state(q, (k - 1) as nat);
        let st = cycle_state(q, k);
        let len = two_pow(k) as nat;
        assert(two_pow(k + 1) == 2 * two_pow(k));
        assert(len + len == two_pow(k + 1));
        lemma_perm_16bit(prev.p);
        lemma_inv_perm(prev.p);
        let pinv = inv_perm(prev.p);
        assert(st == cycle_step(prev));
        assert(st.p == arrange(pinv, prev.p));
        assert(all_16bit(prev.c)) by {
            assert forall|x: int| 0 <= x < n implies (#[trigger] prev.c[x]) < 0x1_0000 by {
                let at = lemma_wmin(q, x, len, 0);
                lemma_iter(q, at, 0, x);
            }
        }
        assert forall|x: int| 0 <= x < n implies (#[trigger] st.p[x]) == iter(
            q,
            two_pow(k + 1) as nat,
            x,
        ) && st.p[x] < n by {
            lemma_arrange_by_inverse(prev.p, prev.p, x);
            lemma_iter(q, len, len, x);
            lemma_iter(q, len + len, 0, x);
        }
        assert forall|x: int| 0 <= x < n implies (#[trigger] st.c[x]) == wmin(
            q,
            x,
            two_pow(k + 1) as nat,
        ) by {
            lemma_arrange_by_inverse(prev.p, prev.c, x);
            lemma_iter(q, len, 0, x);
            lemma_wmin_concat(q, x, len, len);
            assert(arrange(pinv, prev.c)[x] == prev.c[prev.p[x] as int]);
        }
        assert forall|i: int, j: int| 0 <= i < n && 0 <= j < n && i != j implies st.p[i]
            != st.p[j] by {
            lemma_arrange_by_inverse(prev.p, prev.p, i);
            lemma_arrange_by_inverse(prev.p, prev.p, j);
        }
    }
}

/// The exchanges of the wires of pairs that the bits `b` ask for are a
/// permutation that undoes itself and keeps every wire in its pair.
pub proof fn lemma_pair_swaps(b: Seq<u64>)
    requires
        all_01_u64(b),
        2 * b.len() <= 0x1_0000,
    ensures
        is_perm(pair_swaps(b)),
        pair_swaps(b).len() == 2 * b.len(),
        all_16bit(pair_swaps(b)),
        forall|x: int|
            0 <= x < 2 * b.len() ==> (#[trigger] pair_swaps(b)[x]) / 2 == x / 2 && pair_swaps(
                b,
            )[pair_swaps(b)[x] as int] == x && pair_swaps(b)[x] as int == (if b[x / 2] == 1 {
                flip(x)
            } else {
                x
            }),
{
    let p = pair_swaps(b);
    assert forall|x: int| 0 <= x < 2 * b.len() implies (#[trigger] p[x]) / 2 == x / 2 && p[x]
        < 2 * b.len() && p[x] as int == (if b[x / 2] == 1 {
        flip(x)
    } else {
        x
    }) by {
        assert(b[x / 2] <= 1);
    }
    assert forall|x: int| 0 <= x < 2 * b.len() implies p[(#[trigger] p[x]) as int] == x by {
        assert(b[x / 2] <= 1);
        let y = p[x] as int;
        assert(y / 2 == x / 2);
        assert(p[y] as int == (if b[y / 2] == 1 {
            flip(y)
        } else {
            y
        }));
    }
    assert forall|i: int, j: int|
        0 <= i < 2 * b.len() && 0 <= j < 2 * b.len() && i != j implies p[i] != p[j] by {
        assert(p[p[i] as int] == i);
        assert(p[p[j] as int] == j);
    }
}

/// The parts of the routing of a permutation `pi` of `2^w` wires, for
/// `w` from 2 on: the first layer `first`, the last layer `last`, and
/// the permutation `middle` in between, which keeps even wires even and
/// odd wires odd.
pub struct Routing {
    pub first: Seq<u64>,
    pub last: Seq<u64>,
    pub middle: Seq<u64>,
}

/// The parts of the routing of `pi`.
pub open spec fn routing_of(pi: Seq<u64>, w: nat) -> Routing {
    Routing {
        first: pair_swaps(first_bits(pi, w)),
        last: pair_swaps(last_bits(pi, w)),
        middle: middle_perm(pi, w),
    }
}

/// The least wire of each orbit, for a permutation of `2^w` wires.
proof fn lemma_cycle_min(pi: Seq<u64>, w: nat)
    requires
        is_perm(pi),
        2 <= w <= 13,
        pi.len() == two_pow(w),
    ensures
        mirrored(back_forth(pi)),
        cycle_min(pi, w).len() == pi.len(),
        pi.len() % 2 == 0,
        4 <= pi.len() <= 8192,
        forall|x: int|
            0 <= x < pi.len() ==> (#[trigger] cycle_min(pi, w)[x]) == wmin(
                back_forth(pi),
                x,
                (pi.len() / 2) as nat,
            ),
{
    lemma_two_pow_bound(w);
    lemma_two_pow_add((w - 1) as nat, 1);
    lemma_two_pow_add((w - 2) as nat, 2);
    reveal_with_fuel(two_pow, 3);
    assert(two_pow(w) == 2 * two_pow((w - 1) as nat));
    lemma_back_forth(pi);
    lemma_cycle_state(back_forth(pi), (w - 2) as nat);
}

/// The middle permutation keeps the parity of wires, its halves are
/// permutations, and the first layer, the middle and the last layer
/// together are `pi`.
pub proof fn lemma_middle(pi: Seq<u64>, w: nat)
    requires
        is_perm(pi),
        2 <= w <= 13,
        pi.len() == two_pow(w),
    ensures
        all_01_u64(first_bits(pi, w)),
        all_01_u64(last_bits(pi, w)),
        first_bits(pi, w).len() == pi.len() / 2,
        last_bits(pi, w).len() == pi.len() / 2,
        routing_of(pi, w).middle.len() == pi.len(),
        is_perm(middle_half(pi, w, 0)),
        is_perm(middle_half(pi, w, 1)),
        middle_half(pi, w, 0).len() == two_pow((w - 1) as nat),
        middle_half(pi, w, 1).len() == two_pow((w - 1) as nat),
        forall|j: int|
            0 <= j < pi.len() / 2 ==> (#[trigger] routing_of(pi, w).middle[2 * j]) == 2 * middle_half(
                pi,
                w,
                0,
            )[j],
        forall|j: int|
            0 <= j < pi.len() / 2 ==> (#[trigger] routing_of(pi, w).middle[2 * j + 1]) == 2
                * middle_half(pi, w, 1)[j] + 1,
        forall|x: int|
            0 <= x < pi.len() ==> (#[trigger] pi[x]) == routing_of(pi, w).first[routing_of(
                pi,
                w,
            ).middle[routing_of(pi, w).last[x] as int] as int],
{
    let n = pi.len() as int;
    let half = (n / 2) as nat;
    lemma_cycle_min(pi, w);
    lemma_back_forth(pi);
    lemma_two_pow_add((w - 1) as nat, 1);
    reveal_with_fuel(two_pow, 2);
    let q = back_forth(pi);
    let c = cycle_min(pi, w);
    let f = first_bits(pi, w);
    let big_f = pair_swaps(f);
    lemma_perm_16bit(pi);
    lemma_inv_perm(pi);
    let ipi = inv_perm(pi);
    lemma_perm_16bit(ipi);
    assert forall|j: int| 0 <= j < half implies (#[trigger] f[j]) <= 1 && f[j] as int == c[2 * j]
        % 2 by {
        lemma_flip_bits(c[2 * j]);
    }
    lemma_pair_swaps(f);
    // the first layer has the parity of the least wire of the orbit
    assert forall|x: int| 0 <= x < n implies (#[trigger] big_f[x]) % 2 == c[x] % 2 by {
        let j = x / 2;
        assert(f[j] as int == c[2 * j] % 2);
        if x % 2 == 1 {
            lemma_wmin_flip(q, 2 * j);
            assert(flip(2 * j) == x);
            let at = lemma_wmin(q, 2 * j, half, 0);
            lemma_iter(q, at, 0, 2 * j);
            lemma_flip(c[2 * j], n);
        }
    }
    let fpi = after_first(pi, w);
    assert(fpi == arrange(ipi, big_f));
    assert forall|y: int| 0 <= y < n implies (#[trigger] fpi[y]) == big_f[pi[y] as int] by {
        lemma_arrange_by_inverse(pi, big_f, y);
    }
    let l = last_bits(pi, w);
    let big_l = pair_swaps(l);
    assert forall|k: int| 0 <= k < half implies (#[trigger] l[k]) <= 1 && l[k] as int == fpi[2 * k]
        % 2 by {
        lemma_flip_bits(fpi[2 * k]);
    }
    lemma_pair_swaps(l);
    let m = middle_perm(pi, w);
    assert(m == arrange(big_l, fpi));
    assert(all_16bit(fpi)) by {
        assert forall|y: int| 0 <= y < n implies (#[trigger] fpi[y]) < 0x1_0000 by {
            assert(fpi[y] == big_f[pi[y] as int]);
        }
    }
    assert forall|z: int| 0 <= z < n implies (#[trigger] m[z]) == big_f[pi[big_l[z] as int] as int]
        by {
        let y = big_l[z] as int;
        lemma_arrange(big_l, fpi, y);
        assert(big_l[big_l[z] as int] == z);
        assert(fpi[y] == big_f[pi[y] as int]);
    }
    // the two wires of a pair go to orbits whose least wires differ in parity
    assert forall|k: int| 0 <= k < half implies c[(#[trigger] pi[2 * k + 1]) as int] % 2 != c[pi[2
        * k] as int] % 2 by {
        let x = 2 * k;
        let y = pi[x] as int;
        assert(flip(x) == x + 1);
        assert(q[flip(pi[x] as int)] == pi[flip(x)]);
        lemma_flip(pi[x], n);
        let fy = flip(y);
        lemma_wmin_of_orbit(q, fy, 1);
        reveal_with_fuel(iter, 2);
        assert(iter(q, 1, fy) == q[fy] as int);
        lemma_wmin_flip(q, y);
        let at = lemma_wmin(q, y, half, 0);
        lemma_iter(q, at, 0, y);
        lemma_flip(c[y], n);
        assert(c[pi[x + 1] as int] == flip(c[y] as int));
    }
    assert forall|z: int| 0 <= z < n implies (#[trigger] m[z]) % 2 == z % 2 && m[z] < n by {
        let k = z / 2;
        assert(m[z] == big_f[pi[big_l[z] as int] as int]);
        assert(l[k] as int == fpi[2 * k] % 2);
        assert(fpi[2 * k] == big_f[pi[2 * k] as int]);
        assert(big_f[pi[2 * k] as int] % 2 == c[pi[2 * k] as int] % 2);
        assert(big_f[pi[2 * k + 1] as int] % 2 == c[pi[2 * k + 1] as int] % 2);
        assert(c[pi[2 * k + 1] as int] % 2 != c[pi[2 * k] as int] % 2);
        assert(big_l[z] as int == (if l[z / 2] == 1 {
            flip(z)
        } else {
            z
        }));
        assert(big_f[pi[big_l[z] as int] as int] / 2 == pi[big_l[z] as int] / 2);
    }
    assert forall|i: int, j: int| 0 <= i < n && 0 <= j < n && i != j implies m[i] != m[j] by {
        assert(m[i] == big_f[pi[big_l[i] as int] as int]);
        assert(m[j] == big_f[pi[big_l[j] as int] as int]);
        assert(big_l[big_l[i] as int] == i);
        assert(big_l[big_l[j] as int] == j);
        assert(big_f[big_f[pi[big_l[i] as int] as int] as int] == pi[big_l[i] as int]);
        assert(big_f[big_f[pi[big_l[j] as int] as int] as int] == pi[big_l[j] as int]);
    }
    let q0 = middle_half(pi, w, 0);
    let q1 = middle_half(pi, w, 1);
    assert forall|j: int| 0 <= j < half implies (#[trigger] m[2 * j]) == 2 * q0[j] && q0[j] < half
        by {
        lemma_flip_bits(m[2 * j]);
        assert(m[2 * j] % 2 == (2 * j) % 2);
    }
    assert forall|j: int| 0 <= j < half implies (#[trigger] m[2 * j + 1]) == 2 * q1[j] + 1 && q1[j]
        < half by {
        lemma_flip_bits(m[2 * j + 1]);
        assert(m[2 * j + 1] % 2 == (2 * j + 1) % 2);
    }
    assert(is_perm(q0)) by {
        assert forall|i: int| 0 <= i < q0.len() implies (#[trigger] q0[i]) < q0.len() by {
            assert(m[2 * i] == 2 * q0[i] && q0[i] < half);
        }
        assert forall|i: int, j: int|
            0 <= i < q0.len() && 0 <= j < q0.len() && i != j implies q0[i] != q0[j] by {
            assert(m[2 * i] == 2 * q0[i]);
            assert(m[2 * j] == 2 * q0[j]);
        }
    }
    assert(is_perm(q1)) by {
        assert forall|i: int| 0 <= i < q1.len() implies (#[trigger] q1[i]) < q1.len() by {
            assert(m[2 * i + 1] == 2 * q1[i] + 1 && q1[i] < half);
        }
        assert forall|i: int, j: int|
            0 <= i < q1.len() && 0 <= j < q1.len() && i != j implies q1[i] != q1[j] by {
            assert(m[2 * i + 1] == 2 * q1[i] + 1);
            assert(m[2 * j + 1] == 2 * q1[j] + 1);
        }
    }
    assert forall|x: int| 0 <= x < n implies (#[trigger] pi[x]) == big_f[m[big_l[x] as int] as int]
        by {
        let z = big_l[x] as int;
        assert(m[z] == big_f[pi[big_l[z] as int] as int]);
        assert(big_l[big_l[x] as int] == x);
        assert(big_f[big_f[pi[x] as int] as int] == pi[x]);
    }
}

/// The wires after a layer of stride `s` whose control bits are the
/// entries of `cb` from `base` on.
pub open spec fn glayer(data: Seq<u16>, cb: Seq<bool>, base: int, s: int) -> Seq<u16> {
    Seq::new(
        data.len(),
        |x: int| if cb[base + layer_pair(x, s)] { data[layer_partner(x, s)] } else { data[x] },
    )
}

/// The wires after the `count` layers from layer `first` on of the
/// network on `2^w` wires with the control bits `cb`.
pub open spec fn gforward(data: Seq<u16>, cb: Seq<bool>, w: int, first: int, count: nat) -> Seq<u16>
    decreases count,
{
    if count == 0 {
        data
    } else {
        let prev = gforward(data, cb, w, first, (count - 1) as nat);
        glayer(prev, cb, (first + count - 1) * (data.len() / 2), layer_stride(w, first + count - 1))
    }
}

/// The layers keep the number of wires.
proof fn lemma_gforward_len(data: Seq<u16>, cb: Seq<bool>, w: int, first: int, count: nat)
    ensures
        gforward(data, cb, w, first, count).len() == data.len(),
    decreases count,
{
    if count > 0 {
        lemma_gforward_len(data, cb, w, first, (count - 1) as nat);
    }
}

/// The layers from `first` on after the layers before them are the
/// layers from the start.
proof fn lemma_gforward_split(data: Seq<u16>, cb: Seq<bool>, w: int, first: nat, count: nat)
    ensures
        gforward(gforward(data, cb, w, 0, first), cb, w, first as int, count) == gforward(
            data,
            cb,
            w,
            0,
            first + count,
        ),
    decreases count,
{
    lemma_gforward_len(data, cb, w, 0, first);
    if count > 0 {
        lemma_gforward_split(data, cb, w, first, (count - 1) as nat);
    }
}

/// The number of wires is a whole number of blocks of twice the stride
/// of a layer.
proof fn lemma_blocks(w: int, l: int) -> (blocks: int)
    requires
        1 <= w <= 13,
        0 <= l < 2 * w - 1,
    ensures
        1 <= layer_stride(w, l),
        two_pow(w as nat) == blocks * (2 * layer_stride(w, l)),
        blocks >= 1,
        w >= 2 && 1 <= l < 2 * w - 2 ==> layer_stride(w, l) == 2 * layer_stride(w - 1, l - 1),
        l == 0 || l == 2 * w - 2 ==> layer_stride(w, l) == 1,
{
    let e: nat = if l < w {
        l as nat
    } else {
        (2 * w - 2 - l) as nat
    };
    lemma_two_pow_add((w - 1 - e) as nat, (e + 1) as nat);
    lemma_two_pow_bound(e);
    lemma_two_pow_bound((w - 1 - e) as nat);
    reveal_with_fuel(two_pow, 2);
    two_pow((w - 1 - e) as nat)
}

/// The network with bits from a byte string is the network with these
/// bits as a sequence.
proof fn lemma_bytes_network(data: Seq<u16>, bits: Seq<u8>, w: int, k: nat)
    requires
        1 <= w <= 13,
        data.len() == two_pow(w as nat),
        k <= 2 * w - 1,
    ensures
        net_forward(data, bits, w, k) == gforward(
            data,
            bits_of(bits, cb_count(w as nat)),
            w,
            0,
            k,
        ),
    decreases k,
{
    if k > 0 {
        lemma_bytes_network(data, bits, w, (k - 1) as nat);
        let cb = bits_of(bits, cb_count(w as nat));
        let prev = net_forward(data, bits, w, (k - 1) as nat);
        crate::benes::lemma_net_len(data, bits, w, (k - 1) as nat);
        let l = k - 1;
        let s = layer_stride(w, l);
        let blocks = lemma_blocks(w, l);
        let half = data.len() as int / 2;
        lemma_cb_count(w as nat);
        lemma_two_pow_add((w - 1) as nat, 1);
        reveal_with_fuel(two_pow, 2);
        assert(two_pow(w as nat) == 2 * two_pow((w - 1) as nat));
        assert(blocks * (2 * s) == 2 * (blocks * s)) by (nonlinear_arith);
        assert(blocks * s == half);
        let a = net_layer(prev, bits, w, l);
        let b = glayer(prev, cb, l * half, s);
        assert forall|x: int| 0 <= x < data.len() implies a[x] == b[x] by {
            lemma_partner_in_range(x, s, blocks);
            let idx = l * half + layer_pair(x, s);
            assert(l * half + half <= (2 * w - 1) * half) by (nonlinear_arith)
                requires
                    l + 1 <= 2 * w - 1,
                    half >= 0,
            ;
            assert(l * half >= 0) by (nonlinear_arith)
                requires
                    l >= 0,
                    half >= 0,
            ;
            assert(0 <= idx < cb_count(w as nat));
            assert(cb[idx] == bit_at(bits, idx));
        }
        assert(a =~= b);
    }
}

/// The place of a wire in a layer of stride `2 s`, seen from the
/// network of half the size on the wires of its parity.
proof fn lemma_half_positions(y: int, par: int, s: int)
    requires
        0 <= y,
        0 <= par <= 1,
        1 <= s,
    ensures
        layer_pair(2 * y + par, 2 * s) == 2 * layer_pair(y, s) + par,
        layer_partner(2 * y + par, 2 * s) == 2 * layer_partner(y, s) + par,
{
    let x = 2 * y + par;
    let q1 = y / s;
    let r1 = y % s;
    vstd::arithmetic::div_mod::lemma_fundamental_div_mod(y, s);
    assert(y == s * q1 + r1);
    assert(x == q1 * (2 * s) + (2 * r1 + par)) by (nonlinear_arith)
        requires
            x == 2 * y + par,
            y == s * q1 + r1,
    ;
    vstd::arithmetic::div_mod::lemma_fundamental_div_mod_converse(x, 2 * s, q1, 2 * r1 + par);
    let q2 = y / (2 * s);
    let r2 = y % (2 * s);
    vstd::arithmetic::div_mod::lemma_fundamental_div_mod(y, 2 * s);
    assert(x == q2 * (4 * s) + (2 * r2 + par)) by (nonlinear_arith)
        requires
            x == 2 * y + par,
            y == (2 * s) * q2 + r2,
    ;
    vstd::arithmetic::div_mod::lemma_fundamental_div_mod_converse(x, 4 * s, q2, 2 * r2 + par);
    assert(2 * (2 * s) == 4 * s);
    assert((q2 * (2 * s)) == 2 * (q2 * s)) by (nonlinear_arith);
}

/// The control bits of the network of half the size on the wires of
/// parity `par`.
pub open spec fn half_cb(cb: Seq<bool>, w: nat, par: int) -> Seq<bool> {
    Seq::new(
        cb_count((w - 1) as nat) as nat,
        |t: int| cb[two_pow((w - 1) as nat) + 2 * t + par],
    )
}

/// The wires of parity `par`.
pub open spec fn half_wires(data: Seq<u16>, par: int) -> Seq<u16> {
    Seq::new((data.len() / 2) as nat, |j: int| data[2 * j + par])
}

/// The layers in the middle act on the wires of each parity as the
/// network of half the size does.
proof fn lemma_middle_layers(data: Seq<u16>, cb: Seq<bool>, w: nat, par: int, count: nat)
    requires
        2 <= w <= 13,
        data.len() == two_pow(w),
        0 <= par <= 1,
        count <= 2 * w - 3,
        cb.len() >= cb_count(w),
    ensures
        half_wires(gforward(data, cb, w as int, 1, count), par) == gforward(
            half_wires(data, par),
            half_cb(cb, w, par),
            w - 1,
            0,
            count,
        ),
    decreases count,
{
    let n = data.len() as int;
    let half = n / 2;
    lemma_two_pow_add((w - 1) as nat, 1);
    lemma_two_pow_add((w - 2) as nat, 1);
    reveal_with_fuel(two_pow, 2);
    assert(n == 2 * two_pow((w - 1) as nat));
    assert(half == 2 * two_pow((w - 2) as nat));
    lemma_gforward_len(data, cb, w as int, 1, count);
    lemma_gforward_len(half_wires(data, par), half_cb(cb, w, par), w - 1, 0, count);
    if count == 0 {
        assert(half_wires(data, par) =~= gforward(
            half_wires(data, par),
            half_cb(cb, w, par),
            w - 1,
            0,
            0,
        ));
    } else {
        lemma_middle_layers(data, cb, w, par, (count - 1) as nat);
        let prev = gforward(data, cb, w as int, 1, (count - 1) as nat);
        let sub_prev = gforward(
            half_wires(data, par),
            half_cb(cb, w, par),
            w - 1,
            0,
            (count - 1) as nat,
        );
        lemma_gforward_len(data, cb, w as int, 1, (count - 1) as nat);
        lemma_gforward_len(half_wires(data, par), half_cb(cb, w, par), w - 1, 0, (count - 1) as nat);
        let l = count as int;
        let s2 = layer_stride(w - 1, l - 1);
        let blocks = lemma_blocks(w as int, l);
        let sub_blocks = lemma_blocks(w - 1, l - 1);
        let s = layer_stride(w as int, l);
        assert(s == 2 * s2);
        let next = glayer(prev, cb, l * half, s);
        let sub_next = glayer(sub_prev, half_cb(cb, w, par), (l - 1) * (half / 2), s2);
        lemma_cb_count(w);
        lemma_cb_count((w - 1) as nat);
        assert(sub_blocks * (2 * s2) == 2 * (sub_blocks * s2)) by (nonlinear_arith);
        assert(sub_blocks * s2 == half / 2);
        assert forall|y: int| 0 <= y < half implies half_wires(next, par)[y] == sub_next[y] by {
            lemma_half_positions(y, par, s2);
            lemma_partner_in_range(y, s2, sub_blocks);
            let pair = layer_pair(y, s2);
            let partner = layer_partner(y, s2);
            assert(half_wires(prev, par)[y] == sub_prev[y]);
            assert(half_wires(prev, par)[partner] == sub_prev[partner]);
            let t = (l - 1) * (half / 2) + pair;
            assert((l - 1) * (half / 2) + half / 2 <= (2 * (w - 1) - 1) * (half / 2))
                by (nonlinear_arith)
                requires
                    l <= 2 * w - 3,
                    half / 2 >= 0,
            ;
            assert((l - 1) * (half / 2) >= 0) by (nonlinear_arith)
                requires
                    l >= 1,
                    half / 2 >= 0,
            ;
            assert(0 <= t < cb_count((w - 1) as nat));
            assert(half_cb(cb, w, par)[t] == cb[half + 2 * t + par]);
            assert(half + 2 * t + par == l * half + (2 * pair + par)) by (nonlinear_arith)
                requires
                    t == (l - 1) * (half / 2) + pair,
                    half == 2 * (half / 2),
            ;
        }
        assert(half_wires(next, par) =~= sub_next);
    }
}

/// Routing: the network with the control bits of the permutation `pi`
/// brings to each wire `x` what wire `pi[x]` carried.
pub proof fn lemma_routes(pi: Seq<u64>, w: nat, cb: Seq<bool>, data: Seq<u16>)
    requires
        is_perm(pi),
        1 <= w <= 13,
        pi.len() == two_pow(w),
        data.len() == pi.len(),
        cb.len() >= cb_count(w),
        forall|t: int| 0 <= t < cb_count(w) ==> (#[trigger] cb[t]) == (controlbits_seq(pi, w)[t] == 1),
    ensures
        gforward(data, cb, w as int, 0, (2 * w - 1) as nat).len() == data.len(),
        forall|x: int|
            0 <= x < pi.len() ==> (#[trigger] gforward(data, cb, w as int, 0, (2 * w - 1) as nat)[x])
                == data[pi[x] as int],
    decreases w,
{
    let n = pi.len() as int;
    lemma_cb_count(w);
    lemma_two_pow_bound(w);
    reveal_with_fuel(two_pow, 3);
    lemma_gforward_len(data, cb, w as int, 0, (2 * w - 1) as nat);
    if w == 1 {
        reveal_with_fuel(gforward, 2);
        let out = gforward(data, cb, 1, 0, 1);
        assert(layer_stride(1, 0) == 1);
        assert(controlbits_seq(pi, 1)[0] == pi[0] & 1);
        assert(cb[0] == (pi[0] & 1 == 1));
        lemma_flip_bits(pi[0]);
        assert(pi[0] != pi[1]);
        assert(pi[0] < 2 && pi[1] < 2);
        assert forall|x: int| 0 <= x < 2 implies (#[trigger] out[x]) == data[pi[x] as int] by {
            assert(layer_pair(x, 1) == 0);
            assert(layer_partner(x, 1) == flip(x));
        }
    } else {
        let half = n / 2;
        lemma_two_pow_add((w - 1) as nat, 1);
        assert(n == 2 * two_pow((w - 1) as nat));
        lemma_middle(pi, w);
        let r = routing_of(pi, w);
        let f = first_bits(pi, w);
        let l = last_bits(pi, w);
        lemma_pair_swaps(f);
        lemma_pair_swaps(l);
        let count = cb_count(w);
        let inner = cb_count((w - 1) as nat);
        assert(count == 2 * half + 2 * inner);
        let target = controlbits_seq(pi, w);
        // the first layer
        let d1 = gforward(data, cb, w as int, 0, 1);
        reveal_with_fuel(gforward, 2);
        let b0 = lemma_blocks(w as int, 0);
        assert(layer_stride(w as int, 0) == 1);
        assert(gforward(data, cb, w as int, 0, 0) == data);
        assert(d1 == glayer(data, cb, (0 + 1 - 1) * (data.len() / 2), layer_stride(w as int, 0)));
        assert((0 + 1 - 1) * (data.len() / 2) == 0) by (nonlinear_arith);
        assert(d1 == glayer(data, cb, 0, 1));
        assert forall|x: int| 0 <= x < n implies (#[trigger] d1[x]) == data[r.first[x] as int] by {
            assert(layer_pair(x, 1) == x / 2);
            assert(layer_partner(x, 1) == flip(x));
            assert(cb[x / 2] == (target[x / 2] == 1));
            assert(target[x / 2] == f[x / 2]);
            assert(f[x / 2] <= 1);
            assert(r.first[x] as int == (if f[x / 2] == 1 {
                flip(x)
            } else {
                x
            }));
        }
        // the layers in the middle
        let mid_count = (2 * w - 3) as nat;
        let d2 = gforward(d1, cb, w as int, 1, mid_count);
        lemma_gforward_len(d1, cb, w as int, 1, mid_count);
        lemma_gforward_split(data, cb, w as int, 1, mid_count);
        assert(d2 == gforward(data, cb, w as int, 0, (2 * w - 2) as nat));
        let q0 = middle_half(pi, w, 0);
        let q1 = middle_half(pi, w, 1);
        assert forall|j: int| 0 <= j < half implies (#[trigger] d2[2 * j + 0]) == d1[r.middle[2 * j
            + 0] as int] by {
            let sub_pi = middle_half(pi, w, 0);
            let sub_cb = half_cb(cb, w, 0);
            let sub_data = half_wires(d1, 0);
            lemma_middle_layers(d1, cb, w, 0, mid_count);
            assert forall|t: int| 0 <= t < inner implies (#[trigger] sub_cb[t]) == (controlbits_seq(
                sub_pi,
                (w - 1) as nat,
            )[t] == 1) by {
                let at = half + 2 * t + 0;
                assert(cb[at] == (target[at] == 1));
                assert((at - half) % 2 == 0);
                assert((at - half) / 2 == t);
            }
            lemma_routes(sub_pi, (w - 1) as nat, sub_cb, sub_data);
            let sub_out = gforward(sub_data, sub_cb, w - 1, 0, mid_count);
            assert(2 * (w - 1) - 1 == mid_count);
            assert(half_wires(d2, 0)[j] == sub_out[j]);
            assert(sub_out[j] == sub_data[sub_pi[j] as int]);
            assert(r.middle[2 * j] == 2 * q0[j]);
        }
        assert forall|j: int| 0 <= j < half implies (#[trigger] d2[2 * j + 1]) == d1[r.middle[2 * j
            + 1] as int] by {
            let sub_pi = middle_half(pi, w, 1);
            let sub_cb = half_cb(cb, w, 1);
            let sub_data = half_wires(d1, 1);
            lemma_middle_layers(d1, cb, w, 1, mid_count);
            assert forall|t: int| 0 <= t < inner implies (#[trigger] sub_cb[t]) == (controlbits_seq(
                sub_pi,
                (w - 1) as nat,
            )[t] == 1) by {
                let at = half + 2 * t + 1;
                assert(cb[at] == (target[at] == 1));
                assert((at - half) % 2 == 1);
                assert((at - half) / 2 == t);
            }
            lemma_routes(sub_pi, (w - 1) as nat, sub_cb, sub_data);
            let sub_out = gforward(sub_data, sub_cb, w - 1, 0, mid_count);
            assert(2 * (w - 1) - 1 == mid_count);
            assert(half_wires(d2, 1)[j] == sub_out[j]);
            assert(sub_out[j] == sub_data[sub_pi[j] as int]);
            assert(r.middle[2 * j + 1] == 2 * q1[j] + 1);
        }
        assert forall|z: int| 0 <= z < n implies (#[trigger] d2[z]) == d1[r.middle[z] as int] by {
            let j = z / 2;
            if z % 2 == 0 {
                assert(z == 2 * j + 0);
                assert(d2[2 * j + 0] == d1[r.middle[2 * j + 0] as int]);
            } else {
                assert(z == 2 * j + 1);
                assert(d2[2 * j + 1] == d1[r.middle[2 * j + 1] as int]);
            }
        }
        // the last layer
        let d3 = gforward(data, cb, w as int, 0, (2 * w - 1) as nat);
        let b2 = lemma_blocks(w as int, 2 * w - 2);
        assert(d3 == glayer(d2, cb, (2 * w - 2) * half, 1));
        assert((2 * w - 2) * half == count - half) by (nonlinear_arith)
            requires
                count == (2 * w - 1) * half,
        ;
        assert forall|x: int| 0 <= x < n implies (#[trigger] d3[x]) == data[pi[x] as int] by {
            assert(layer_pair(x, 1) == x / 2);
            assert(layer_partner(x, 1) == flip(x));
            let at = count - half + x / 2;
            assert(cb[at] == (target[at] == 1));
            assert(target[at] == l[x / 2]);
            let y = r.last[x] as int;
            assert(l[x / 2] <= 1);
            assert(r.last[x] as int == (if l[x / 2] == 1 {
                flip(x)
            } else {
                x
            }));
            assert(0 <= y < n);
            assert(d3[x] == d2[y]);
            assert(d2[y] == d1[r.middle[y] as int]);
            let z = r.middle[y] as int;
            assert(r.middle[y] < n) by {
                let j = y / 2;
                if y % 2 == 0 {
                    assert(r.middle[2 * j] == 2 * q0[j]);
                    assert(q0[j] < half);
                } else {
                    assert(r.middle[2 * j + 1] == 2 * q1[j] + 1);
                    assert(q1[j] < half);
                }
            }
            assert(d1[z] == data[r.first[z] as int]);
        }
    }
}

/// `pi` is a permutation of `0, 1, ..., n - 1`, for `n` the length of
/// `pi`.
pub open spec fn is_permutation(pi: Seq<u16>) -> bool {
    is_perm(widen(pi))
}

/// The control bits route: for every permutation `pi` of `2^w` wires,
/// the network with the control bits of `pi` takes the wires
/// `0, 1, ..., n - 1` to `pi`, and, run backwards, takes `pi` to these
/// wires.
pub proof fn lemma_controlbits_route(pi: Seq<u16>, w: nat, bits: Seq<u8>)
    requires
        1 <= w <= 13,
        pi.len() == two_pow(w),
        is_permutation(pi),
        bits_of(bits, cb_count(w)) == controlbits_spec(pi, w),
    ensures
        benes_spec(identity_wires(pi.len() as int), bits, w as int, false) == pi,
        benes_spec(pi, bits, w as int, true) == identity_wires(pi.len() as int),
{
    let n = pi.len() as int;
    let data = identity_wires(n);
    let cb = bits_of(bits, cb_count(w));
    lemma_two_pow_bound(w);
    lemma_bytes_network(data, bits, w as int, (2 * w - 1) as nat);
    assert forall|t: int| 0 <= t < cb_count(w) implies (#[trigger] cb[t]) == (controlbits_seq(
        widen(pi),
        w,
    )[t] == 1) by {
        assert(controlbits_spec(pi, w)[t] == (controlbits_seq(widen(pi), w)[t] == 1));
    }
    lemma_routes(widen(pi), w, cb, data);
    let out = benes_spec(data, bits, w as int, false);
    assert forall|x: int| 0 <= x < n implies out[x] == pi[x] by {
        assert(widen(pi)[x] == pi[x] as u64);
        assert(widen(pi)[x] < n);
        assert(gforward(data, cb, w as int, 0, (2 * w - 1) as nat)[x] == data[widen(pi)[x] as int]);
    }
    assert(out =~= pi);
    crate::benes::lemma_backward_after_forward(data, bits, w as int);
}

} // verus!
