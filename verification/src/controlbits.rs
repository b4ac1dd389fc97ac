//! Control bits of a Benes network for a given permutation.
//!
//! The permutation is never used as an index: values are moved to their
//! places by sorting pairs of a key and a value.

use vstd::prelude::*;
use crate::benes::{
    apply_network, benes_spec, bits01, identity_wires, lemma_two_pow_bound, pack_bits, two_pow,
};
use crate::sort::{ct_min, sort_u64, sorted_seq};
use crate::util::lemma_mask16;

verus! {

/// The key `h` and the value `l` in one number, the key in front.
pub open spec fn pack(h: u64, l: u64) -> u64 {
    (h << 16) | l
}

/// The value in a packed pair.
pub open spec fn lo16(v: u64) -> u64 {
    v & 0xFFFF
}

/// Every entry of `s` is below `2^16`.
pub open spec fn all_16bit(s: Seq<u64>) -> bool {
    forall|i: int| 0 <= i < s.len() ==> #[trigger] s[i] < 0x1_0000
}

/// The values `vals` in the order of their keys `keys`; pairs with equal
/// keys come in the order of their values. Where the keys are a
/// permutation `p` of `0..n`, this is `vals` composed with the inverse
/// of `p`.
pub open spec fn arrange(keys: Seq<u64>, vals: Seq<u64>) -> Seq<u64> {
    let sorted = sorted_seq(packed_pairs(keys, vals));
    Seq::new(keys.len(), |x: int| lo16(sorted[x]))
}

/// Each key packed with its value.
pub open spec fn packed_pairs(keys: Seq<u64>, vals: Seq<u64>) -> Seq<u64> {
    Seq::new(keys.len(), |x: int| pack(keys[x], vals[x]))
}

/// The sequence `0, 1, ..., n - 1`.
pub open spec fn identity_seq(n: nat) -> Seq<u64> {
    Seq::new(n, |x: int| x as u64)
}

/// The smaller of `a[x]` and `b[x]`, for each `x`.
pub open spec fn pointwise_min(a: Seq<u64>, b: Seq<u64>) -> Seq<u64> {
    Seq::new(a.len(), |x: int| if a[x] <= b[x] { a[x] } else { b[x] })
}

/// The index next to `x` in its pair `(2j, 2j + 1)`.
pub open spec fn flip(x: int) -> int {
    if x % 2 == 0 {
        x + 1
    } else {
        x - 1
    }
}

/// The permutation that goes back by `pi`, to the other wire of the
/// pair, forth by `pi`, and again to the other wire of the pair.
pub open spec fn back_forth(pi: Seq<u64>) -> Seq<u64> {
    arrange(
        Seq::new(pi.len(), |x: int| pi[x] ^ 1),
        Seq::new(pi.len(), |x: int| pi[flip(x)]),
    )
}

/// A permutation `p` and, for each `x`, the least element `c[x]` seen so
/// far on the cycle of `x`.
pub struct CycleState {
    pub p: Seq<u64>,
    pub c: Seq<u64>,
}

/// Doubles the part of each cycle that was looked at: `c[x]` becomes the
/// smaller of `c[x]` and `c[p[x]]`, and `p` is applied twice.
pub open spec fn cycle_step(st: CycleState) -> CycleState {
    let pinv = arrange(st.p, identity_seq(st.p.len()));
    CycleState { p: arrange(pinv, st.p), c: pointwise_min(st.c, arrange(pinv, st.c)) }
}

/// The state after `k` doublings, starting from the permutation `q`
/// applied twice and the smaller of `x` and `q[x]`.
pub open spec fn cycle_state(q: Seq<u64>, k: nat) -> CycleState
    decreases k,
{
    if k == 0 {
        let qinv = arrange(q, identity_seq(q.len()));
        CycleState { p: arrange(qinv, q), c: pointwise_min(q, identity_seq(q.len())) }
    } else {
        cycle_step(cycle_state(q, (k - 1) as nat))
    }
}

/// The least element of the cycle of each `x` under `back_forth(pi)`,
/// for a permutation `pi` of `2^w` elements.
pub open spec fn cycle_min(pi: Seq<u64>, w: nat) -> Seq<u64> {
    cycle_state(back_forth(pi), (w - 2) as nat).c
}

/// The control bits of the first layer: bit `j` says whether the wires
/// `2j` and `2j + 1` trade places.
pub open spec fn first_bits(pi: Seq<u64>, w: nat) -> Seq<u64> {
    Seq::new(pi.len() / 2, |j: int| cycle_min(pi, w)[2 * j] & 1)
}

/// The permutation that a layer of stride one with the bits `bits`
/// performs.
pub open spec fn pair_swaps(bits: Seq<u64>) -> Seq<u64> {
    Seq::new(
        2 * bits.len(),
        |x: int| if x % 2 == 0 { (x + bits[x / 2]) as u64 } else { (x - bits[x / 2]) as u64 },
    )
}

/// `pi` followed by the first layer.
pub open spec fn after_first(pi: Seq<u64>, w: nat) -> Seq<u64> {
    arrange(arrange(pi, identity_seq(pi.len())), pair_swaps(first_bits(pi, w)))
}

/// The control bits of the last layer.
pub open spec fn last_bits(pi: Seq<u64>, w: nat) -> Seq<u64> {
    Seq::new(pi.len() / 2, |k: int| after_first(pi, w)[2 * k] & 1)
}

/// The permutation that is left for the layers in the middle.
pub open spec fn middle_perm(pi: Seq<u64>, w: nat) -> Seq<u64> {
    arrange(pair_swaps(last_bits(pi, w)), after_first(pi, w))
}

/// The part of the middle permutation on the wires of parity `parity`,
/// as a permutation of half as many elements.
pub open spec fn middle_half(pi: Seq<u64>, w: nat, parity: int) -> Seq<u64> {
    Seq::new(pi.len() / 2, |j: int| middle_perm(pi, w)[2 * j + parity] >> 1)
}

/// The number of control bits of a network on `2^w` wires.
pub open spec fn cb_count(w: nat) -> int {
    (2 * w - 1) * two_pow((w - 1) as nat)
}

/// The control bits for the permutation `pi` of `2^w` elements, each as
/// 0 or 1: the first layer, then the layers of the two half-size networks
/// in the middle, bit by bit in turn, then the last layer.
pub open spec fn controlbits_seq(pi: Seq<u64>, w: nat) -> Seq<u64>
    decreases w,
{
    if w <= 1 {
        seq![pi[0] & 1]
    } else {
        let half = pi.len() / 2;
        let even = controlbits_seq(middle_half(pi, w, 0), (w - 1) as nat);
        let odd = controlbits_seq(middle_half(pi, w, 1), (w - 1) as nat);
        Seq::new(
            cb_count(w) as nat,
            |t: int|
                if t < half {
                    first_bits(pi, w)[t]
                } else if t >= cb_count(w) - half {
                    last_bits(pi, w)[t - (cb_count(w) - half)]
                } else if (t - half) % 2 == 0 {
                    even[(t - half) / 2]
                } else {
                    odd[(t - half) / 2]
                },
        )
    }
}

/// Bounds on packed pairs and their parts.
proof fn lemma_pack(h: u64, l: u64, v: u64)
    by (bit_vector)
    ensures
        h < 0x1_0000 && l < 0x1_0000 ==> pack(h, l) < 0x1_0000_0000 && lo16(pack(h, l)) == l,
        lo16(v) < 0x1_0000,
        v < 0x1_0000 ==> v ^ 1 < 0x1_0000,
        v & 1 <= 1,
        v < 0x1_0000 ==> v >> 1 < 0x8000,
{
}

/// The values `vals` in the order of their keys `keys`, by sorting.
fn arrange_exec(keys: &Vec<u64>, vals: &Vec<u64>) -> (out: Vec<u64>)
    requires
        keys@.len() == vals@.len(),
        all_16bit(keys@),
        all_16bit(vals@),
    ensures
        out@ == arrange(keys@, vals@),
        out@.len() == keys@.len(),
        all_16bit(out@),
{
    let n: usize = keys.len();
    let mut a: Vec<u64> = Vec::new();
    let mut x: usize = 0;
    while x < n
        invariant
            x <= n,
            n == keys@.len(),
            n == vals@.len(),
            all_16bit(keys@),
            all_16bit(vals@),
            a@.len() == x,
            forall|i: int| 0 <= i < x ==> a@[i] == pack(keys@[i], vals@[i]),
            forall|i: int| 0 <= i < x ==> #[trigger] a@[i] < 0x8000_0000_0000_0000,
        decreases n - x,
    {
        proof {
            lemma_pack(keys@[x as int], vals@[x as int], 0);
        }
        a.push((keys[x] << 16) | vals[x]);
        x = x + 1;
    }
    let ghost packed = a@;
    assert(packed =~= packed_pairs(keys@, vals@));
    sort_u64(&mut a);
    let mut out: Vec<u64> = Vec::new();
    x = 0;
    while x < n
        invariant
            x <= n,
            n == a@.len(),
            out@.len() == x,
            forall|i: int| 0 <= i < x ==> out@[i] == lo16(a@[i]),
            forall|i: int| 0 <= i < x ==> #[trigger] out@[i] < 0x1_0000,
        decreases n - x,
    {
        proof {
            lemma_pack(0, 0, a@[x as int]);
        }
        out.push(a[x] & 0xFFFF);
        x = x + 1;
    }
    assert(out@ =~= arrange(keys@, vals@));
    out
}

/// The sequence `0, 1, ..., n - 1`.
fn identity_exec(n: usize) -> (out: Vec<u64>)
    requires
        n <= 0x1_0000,
    ensures
        out@ == identity_seq(n as nat),
        all_16bit(out@),
{
    let mut out: Vec<u64> = Vec::new();
    let mut x: usize = 0;
    while x < n
        invariant
            x <= n <= 0x1_0000,
            out@.len() == x,
            forall|i: int| 0 <= i < x ==> out@[i] == i as u64,
        decreases n - x,
    {
        out.push(x as u64);
        x = x + 1;
    }
    assert(out@ =~= identity_seq(n as nat));
    out
}

/// The smaller of `a[x]` and `b[x]`, for each `x`.
fn pointwise_min_exec(a: &Vec<u64>, b: &Vec<u64>) -> (out: Vec<u64>)
    requires
        a@.len() == b@.len(),
        all_16bit(a@),
        all_16bit(b@),
    ensures
        out@ == pointwise_min(a@, b@),
        all_16bit(out@),
{
    let n: usize = a.len();
    let mut out: Vec<u64> = Vec::new();
    let mut x: usize = 0;
    while x < n
        invariant
            x <= n,
            n == a@.len(),
            n == b@.len(),
            all_16bit(a@),
            all_16bit(b@),
            out@.len() == x,
            forall|i: int| 0 <= i < x ==> out@[i] == (if a@[i] <= b@[i] { a@[i] } else { b@[i] }),
        decreases n - x,
    {
        out.push(ct_min(a[x], b[x]));
        x = x + 1;
    }
    assert(out@ =~= pointwise_min(a@, b@));
    out
}

/// The permutation `back_forth(pi)`.
fn back_forth_exec(pi: &Vec<u64>) -> (out: Vec<u64>)
    requires
        pi@.len() % 2 == 0,
        all_16bit(pi@),
    ensures
        out@ == back_forth(pi@),
        out@.len() == pi@.len(),
        all_16bit(out@),
{
    let n: usize = pi.len();
    let mut keys: Vec<u64> = Vec::new();
    let mut vals: Vec<u64> = Vec::new();
    let mut x: usize = 0;
    while x < n
        invariant
            x <= n,
            x % 2 == 0,
            n % 2 == 0,
            n == pi@.len(),
            all_16bit(pi@),
            keys@.len() == x,
            vals@.len() == x,
            forall|i: int| 0 <= i < x ==> keys@[i] == pi@[i] ^ 1,
            forall|i: int| 0 <= i < x ==> vals@[i] == pi@[flip(i)],
            all_16bit(keys@),
            all_16bit(vals@),
        decreases n - x,
    {
        proof {
            lemma_pack(0, 0, pi@[x as int]);
            lemma_pack(0, 0, pi@[x + 1]);
        }
        keys.push(pi[x] ^ 1);
        keys.push(pi[x + 1] ^ 1);
        vals.push(pi[x + 1]);
        vals.push(pi[x]);
        x = x + 2;
    }
    assert(keys@ =~= Seq::new(pi@.len(), |x: int| pi@[x] ^ 1));
    assert(vals@ =~= Seq::new(pi@.len(), |x: int| pi@[flip(x)]));
    arrange_exec(&keys, &vals)
}

/// The least element of the cycle of each `x` under `back_forth(pi)`.
fn cycle_min_exec(pi: &Vec<u64>, w: usize) -> (out: Vec<u64>)
    requires
        2 <= w <= 13,
        pi@.len() == two_pow(w as nat),
        all_16bit(pi@),
    ensures
        out@ == cycle_min(pi@, w as nat),
        out@.len() == pi@.len(),
        all_16bit(out@),
{
    let n: usize = pi.len();
    proof {
        lemma_two_pow_bound(w as nat);
    }
    let q: Vec<u64> = back_forth_exec(pi);
    let id: Vec<u64> = identity_exec(n);
    let qinv: Vec<u64> = arrange_exec(&q, &id);
    let mut p: Vec<u64> = arrange_exec(&qinv, &q);
    let mut c: Vec<u64> = pointwise_min_exec(&q, &id);
    let mut i: usize = 1;
    while i < w - 1
        invariant
            1 <= i <= w - 1,
            2 <= w <= 13,
            n == pi@.len(),
            id@ == identity_seq(n as nat),
            all_16bit(id@),
            p@.len() == n,
            c@.len() == n,
            all_16bit(p@),
            all_16bit(c@),
            q@ == back_forth(pi@),
            p@ == cycle_state(q@, (i - 1) as nat).p,
            c@ == cycle_state(q@, (i - 1) as nat).c,
        decreases w - 1 - i,
    {
        let pinv: Vec<u64> = arrange_exec(&p, &id);
        let cp: Vec<u64> = arrange_exec(&pinv, &c);
        let squared: Vec<u64> = arrange_exec(&pinv, &p);
        c = pointwise_min_exec(&c, &cp);
        p = squared;
        i = i + 1;
    }
    c
}

/// From the sequence `src`, the bits `src[2j] & 1` and the permutation
/// that a layer of stride one with these bits performs.
fn pair_bits(src: &Vec<u64>) -> (r: (Vec<u64>, Vec<u64>))
    requires
        src@.len() % 2 == 0,
        src@.len() <= 0x1_0000,
    ensures
        r.0@ == Seq::new(src@.len() / 2, |j: int| src@[2 * j] & 1),
        all_01_u64(r.0@),
        r.1@ == pair_swaps(r.0@),
        all_16bit(r.1@),
{
    let n: usize = src.len();
    let mut bits: Vec<u64> = Vec::new();
    let mut swaps: Vec<u64> = Vec::new();
    let mut j: usize = 0;
    while 2 * j < n
        invariant
            2 * j <= n,
            n % 2 == 0,
            n == src@.len(),
            n <= 0x1_0000,
            bits@.len() == j,
            swaps@.len() == 2 * j,
            forall|i: int| 0 <= i < j ==> bits@[i] == src@[2 * i] & 1,
            forall|i: int| 0 <= i < j ==> #[trigger] bits@[i] <= 1,
            forall|i: int| 0 <= i < j ==> swaps@[2 * i] == (2 * i + bits@[i]) as u64,
            forall|i: int| 0 <= i < j ==> swaps@[2 * i + 1] == (2 * i + 1 - bits@[i]) as u64,
        decreases n - 2 * j,
    {
        proof {
            lemma_pack(0, 0, src@[2 * j]);
        }
        let b: u64 = src[2 * j] & 1;
        bits.push(b);
        swaps.push(2 * (j as u64) + b);
        swaps.push(2 * (j as u64) + 1 - b);
        j = j + 1;
    }
    proof {
        assert(bits@ =~= Seq::new(src@.len() / 2, |j: int| src@[2 * j] & 1));
        let target = pair_swaps(bits@);
        assert forall|x: int| 0 <= x < swaps@.len() implies swaps@[x] == target[x] by {
            let i = x / 2;
            if x % 2 == 0 {
                assert(x == 2 * i);
                assert(swaps@[2 * i] == (2 * i + bits@[i]) as u64);
            } else {
                assert(x == 2 * i + 1);
                assert(swaps@[2 * i + 1] == (2 * i + 1 - bits@[i]) as u64);
            }
        }
        assert(swaps@ =~= target);
        assert forall|x: int| 0 <= x < swaps@.len() implies #[trigger] swaps@[x] < 0x1_0000 by {
            let i = x / 2;
            assert(bits@[i] <= 1);
        }
    }
    (bits, swaps)
}

/// Every entry is 0 or 1.
pub open spec fn all_01_u64(s: Seq<u64>) -> bool {
    forall|i: int| 0 <= i < s.len() ==> #[trigger] s[i] <= 1
}

/// The entries of `m` at the indices of parity `parity`, halved.
fn half_perm(m: &Vec<u64>, parity: usize) -> (out: Vec<u64>)
    requires
        parity <= 1,
        m@.len() % 2 == 0,
        all_16bit(m@),
    ensures
        out@ == Seq::new(m@.len() / 2, |j: int| m@[2 * j + parity] >> 1),
        all_16bit(out@),
{
    let n: usize = m.len();
    let mut out: Vec<u64> = Vec::new();
    let mut j: usize = 0;
    while 2 * j < n
        invariant
            2 * j <= n,
            n % 2 == 0,
            n == m@.len(),
            parity <= 1,
            all_16bit(m@),
            out@.len() == j,
            forall|i: int| 0 <= i < j ==> out@[i] == m@[2 * i + parity] >> 1,
            forall|i: int| 0 <= i < j ==> #[trigger] out@[i] < 0x1_0000,
        decreases n - 2 * j,
    {
        proof {
            lemma_pack(0, 0, m@[2 * j + parity]);
        }
        out.push(m[2 * j + parity] >> 1);
        j = j + 1;
    }
    assert(out@ =~= Seq::new(m@.len() / 2, |j: int| m@[2 * j + parity] >> 1));
    out
}

/// The number of control bits of a network on `2^w` wires, as numbers.
pub proof fn lemma_cb_count(w: nat)
    requires
        1 <= w <= 13,
    ensures
        cb_count(w) == (2 * w - 1) * two_pow((w - 1) as nat),
        1 <= cb_count(w) <= 25 * 4096,
        w >= 2 ==> cb_count(w) == 2 * two_pow((w - 1) as nat) + 2 * cb_count((w - 1) as nat),
        w >= 2 ==> two_pow(w) / 2 == two_pow((w - 1) as nat),
        w >= 2 ==> two_pow((w - 1) as nat) == 2 * two_pow((w - 2) as nat),
{
    lemma_two_pow_bound((w - 1) as nat);
    let h = two_pow((w - 1) as nat);
    assert((2 * w - 1) * h <= 25 * 4096) by (nonlinear_arith)
        requires
            1 <= w <= 13,
            1 <= h <= 4096,
    ;
    assert((2 * w - 1) * h >= 1) by (nonlinear_arith)
        requires
            1 <= w <= 13,
            1 <= h <= 4096,
    ;
    if w >= 2 {
        let q = two_pow((w - 2) as nat);
        assert(h == 2 * q);
        assert(cb_count((w - 1) as nat) == (2 * (w - 1) - 1) * q);
        assert((2 * w - 1) * (2 * q) == 2 * (2 * q) + 2 * ((2 * (w - 1) - 1) * q))
            by (nonlinear_arith);
    }
}

/// The control bits for the sequence `pi` of `2^w` numbers, one bit per
/// entry.
fn cbrecursion(pi: &Vec<u64>, w: usize) -> (out: Vec<u64>)
    requires
        1 <= w <= 13,
        pi@.len() == two_pow(w as nat),
        all_16bit(pi@),
    ensures
        out@ == controlbits_seq(pi@, w as nat),
        out@.len() == cb_count(w as nat),
        all_01_u64(out@),
    decreases w,
{
    proof {
        lemma_two_pow_bound(w as nat);
        lemma_cb_count(w as nat);
    }
    if w == 1 {
        proof {
            lemma_pack(0, 0, pi@[0]);
            reveal_with_fuel(two_pow, 2);
        }
        let mut out: Vec<u64> = Vec::new();
        out.push(pi[0] & 1);
        assert(two_pow((w - 1) as nat) == 1);
        assert(cb_count(w as nat) == 1) by (nonlinear_arith)
            requires
                w == 1,
                cb_count(w as nat) == (2 * w - 1) * two_pow((w - 1) as nat),
                two_pow((w - 1) as nat) == 1,
        ;
        assert(out@ =~= controlbits_seq(pi@, 1));
        return out;
    }
    let n: usize = pi.len();
    let half: usize = n / 2;
    let c: Vec<u64> = cycle_min_exec(pi, w);
    let (f, big_f) = pair_bits(&c);
    let id: Vec<u64> = identity_exec(n);
    let piinv: Vec<u64> = arrange_exec(pi, &id);
    let fpi: Vec<u64> = arrange_exec(&piinv, &big_f);
    let (l, big_l) = pair_bits(&fpi);
    let m: Vec<u64> = arrange_exec(&big_l, &fpi);
    let q0: Vec<u64> = half_perm(&m, 0);
    let q1: Vec<u64> = half_perm(&m, 1);
    proof {
        assert(f@ =~= first_bits(pi@, w as nat));
        assert(fpi@ == after_first(pi@, w as nat));
        assert(l@ =~= last_bits(pi@, w as nat));
        assert(m@ == middle_perm(pi@, w as nat));
        assert(q0@ =~= middle_half(pi@, w as nat, 0));
        assert(q1@ =~= middle_half(pi@, w as nat, 1));
    }
    let even: Vec<u64> = cbrecursion(&q0, w - 1);
    let odd: Vec<u64> = cbrecursion(&q1, w - 1);
    let inner: usize = even.len();
    let mut out: Vec<u64> = Vec::new();
    let mut t: usize = 0;
    while t < half
        invariant
            t <= half,
            half == f@.len(),
            out@.len() == t,
            forall|i: int| 0 <= i < t ==> out@[i] == f@[i],
        decreases half - t,
    {
        out.push(f[t]);
        t = t + 1;
    }
    t = 0;
    while t < inner
        invariant
            t <= inner,
            inner == even@.len(),
            inner == odd@.len(),
            inner <= 25 * 4096,
            half <= 4096,
            out@.len() == half + 2 * t,
            forall|i: int| 0 <= i < half ==> out@[i] == f@[i],
            forall|i: int| 0 <= i < t ==> out@[half + 2 * i] == even@[i],
            forall|i: int| 0 <= i < t ==> out@[half + 2 * i + 1] == odd@[i],
        decreases inner - t,
    {
        out.push(even[t]);
        out.push(odd[t]);
        t = t + 1;
    }
    t = 0;
    while t < half
        invariant
            t <= half,
            half == l@.len(),
            half == f@.len(),
            inner == even@.len(),
            inner == odd@.len(),
            out@.len() == half + 2 * inner + t,
            forall|i: int| 0 <= i < half ==> out@[i] == f@[i],
            forall|i: int| 0 <= i < inner ==> out@[half + 2 * i] == even@[i],
            forall|i: int| 0 <= i < inner ==> out@[half + 2 * i + 1] == odd@[i],
            forall|i: int| 0 <= i < t ==> out@[half + 2 * inner + i] == l@[i],
        decreases half - t,
    {
        out.push(l[t]);
        t = t + 1;
    }
    proof {
        let target = controlbits_seq(pi@, w as nat);
        assert(out@.len() == target.len());
        assert forall|x: int| 0 <= x < out@.len() implies out@[x] == target[x] by {
            if x < half {
            } else if x >= cb_count(w as nat) - half {
                assert(out@[half + 2 * inner + (x - (cb_count(w as nat) - half))] == l@[x - (
                cb_count(w as nat) - half)]);
            } else {
                let i = (x - half) / 2;
                if (x - half) % 2 == 0 {
                    assert(x == half + 2 * i);
                } else {
                    assert(x == half + 2 * i + 1);
                }
            }
        }
        assert(out@ =~= target);
        assert forall|x: int| 0 <= x < out@.len() implies #[trigger] out@[x] <= 1 by {
            if x < half {
                assert(f@[x] <= 1);
            } else if x >= cb_count(w as nat) - half {
                assert(l@[x - (cb_count(w as nat) - half)] <= 1);
            } else {
                let i = (x - half) / 2;
                if (x - half) % 2 == 0 {
                    assert(x == half + 2 * i);
                    assert(even@[i] <= 1);
                } else {
                    assert(x == half + 2 * i + 1);
                    assert(odd@[i] <= 1);
                }
            }
        }
    }
    out
}

/// The entries of `pi` as 64-bit numbers.
pub open spec fn widen(pi: Seq<u16>) -> Seq<u64> {
    Seq::new(pi.len(), |x: int| pi[x] as u64)
}

/// The control bits for the permutation `pi` of `2^w` elements.
pub open spec fn controlbits_spec(pi: Seq<u16>, w: nat) -> Seq<bool> {
    Seq::new(cb_count(w) as nat, |t: int| controlbits_seq(widen(pi), w)[t] == 1)
}

/// Whether the network with the control bits `bits` takes the wires
/// `0, 1, ..., 2^w - 1` to `pi`; decided without a branch on the data.
pub fn network_gives(bits: &[u8], pi: &[u16], w: usize) -> (ok: bool)
    requires
        1 <= w <= 13,
        pi@.len() == two_pow(w as nat),
        cb_count(w as nat) <= 8 * bits@.len() <= usize::MAX,
    ensures
        ok == (benes_spec(identity_wires(pi@.len() as int), bits@, w as int, false) == pi@),
{
    let n: usize = pi.len();
    proof {
        lemma_two_pow_bound(w as nat);
        lemma_cb_count(w as nat);
        if w >= 2 {
            assert(n / 2 == two_pow((w - 1) as nat));
        } else {
            reveal_with_fuel(two_pow, 2);
        }
    }
    let mut wires: Vec<u16> = Vec::new();
    let mut i: usize = 0;
    while i < n
        invariant
            i <= n <= 8192,
            wires@.len() == i,
            forall|j: int| 0 <= j < i ==> wires@[j] == j as u16,
        decreases n - i,
    {
        wires.push(i as u16);
        i = i + 1;
    }
    assert(wires@ =~= identity_wires(n as int));
    apply_network(&mut wires, bits, w, false);
    let mut diff: u16 = 0;
    i = 0;
    while i < n
        invariant
            i <= n,
            n == pi@.len(),
            n == wires@.len(),
            (diff == 0) == (forall|j: int| 0 <= j < i ==> wires@[j] == pi@[j]),
        decreases n - i,
    {
        proof {
            lemma_mask16(wires@[i as int], pi@[i as int], diff);
        }
        diff = diff | (wires[i] ^ pi[i]);
        i = i + 1;
    }
    proof {
        if diff == 0 {
            assert(wires@ =~= pi@);
        }
    }
    diff == 0
}

/// Where the network with the control bits `bits` takes the wires
/// `0, 1, ..., n - 1` to `pi`, it takes `pi` back to these wires when it
/// is run backwards, and it moves any data as `pi` says: wire `i` ends
/// with what wire `pi[i]` started with.
pub proof fn lemma_round_trip(pi: Seq<u16>, bits: Seq<u8>, w: int, data: Seq<u16>)
    requires
        1 <= w <= 13,
        pi.len() == two_pow(w as nat),
        data.len() == pi.len(),
        benes_spec(identity_wires(pi.len() as int), bits, w, false) == pi,
    ensures
        benes_spec(pi, bits, w, true) == identity_wires(pi.len() as int),
        forall|i: int|
            0 <= i < pi.len() ==> 0 <= #[trigger] pi[i] < pi.len() && benes_spec(
                data,
                bits,
                w,
                false,
            )[i] == data[pi[i] as int],
{
    let n = pi.len() as int;
    crate::benes::lemma_backward_after_forward(identity_wires(n), bits, w);
    crate::benes::lemma_network_moves(data, bits, w, false, (2 * w - 1) as nat);
    assert forall|i: int| 0 <= i < pi.len() implies 0 <= #[trigger] pi[i] < pi.len() && benes_spec(
        data,
        bits,
        w,
        false,
    )[i] == data[pi[i] as int] by {
        assert(crate::benes::net_apply(identity_wires(n), bits, w, false, (2 * w - 1) as nat)[i]
            == pi[i]);
        assert(crate::benes::net_apply(data, bits, w, false, (2 * w - 1) as nat)[i] == benes_spec(
            data,
            bits,
            w,
            false,
        )[i]);
    }
}

/// Writes to `out` the control bits of a Benes network for the
/// permutation `pi` of `n = 2^w` elements, and says whether the network
/// with these bits takes the wires `0, 1, ..., n - 1` to `pi`: it does
/// for every permutation.
pub fn controlbitsfrompermutation(out: &mut Vec<u8>, pi: &[u16], w: usize, n: usize) -> (ok: bool)
    requires
        1 <= w <= 13,
        n == two_pow(w as nat),
        pi@.len() == n,
        cb_count(w as nat) <= 8 * old(out)@.len() <= usize::MAX,
    ensures
        final(out)@.len() == old(out)@.len(),
        crate::util::bits_of(final(out)@, cb_count(w as nat)) == controlbits_spec(pi@, w as nat),
        forall|k: int|
            cb_count(w as nat) <= k < 8 * final(out)@.len() ==> !crate::util::bit_at(final(out)@, k),
        ok == (benes_spec(identity_wires(n as int), final(out)@, w as int, false) == pi@),
        crate::routing::is_permutation(pi@) ==> ok,
{
    let len: usize = out.len();
    let mut i: usize = 0;
    while i < len
        invariant
            i <= len,
            len == out@.len(),
            forall|j: int| 0 <= j < i ==> out@[j] == 0,
        decreases len - i,
    {
        out[i] = 0;
        i = i + 1;
    }
    proof {
        assert forall|k: int| 0 <= k < 8 * len implies !crate::util::bit_at(out@, k) by {
            crate::util::lemma_zero_byte(k % 8);
        }
    }
    let mut wide: Vec<u64> = Vec::new();
    i = 0;
    while i < n
        invariant
            i <= n,
            n == pi@.len(),
            wide@.len() == i,
            forall|j: int| 0 <= j < i ==> wide@[j] == pi@[j] as u64,
        decreases n - i,
    {
        wide.push(pi[i] as u64);
        i = i + 1;
    }
    assert(wide@ =~= widen(pi@));
    let bits: Vec<u64> = cbrecursion(&wide, w);
    let count: usize = bits.len();
    let mut narrow: Vec<u16> = Vec::new();
    i = 0;
    while i < count
        invariant
            i <= count,
            count == bits@.len(),
            all_01_u64(bits@),
            narrow@.len() == i,
            forall|j: int| 0 <= j < i ==> narrow@[j] == bits@[j] as u16,
            forall|j: int| 0 <= j < i ==> #[trigger] narrow@[j] <= 1,
        decreases count - i,
    {
        assert(bits@[i as int] <= 1);
        narrow.push(bits[i] as u16);
        i = i + 1;
    }
    pack_bits(out, &narrow);
    proof {
        let got = crate::util::bits_of(out@, cb_count(w as nat));
        let want = controlbits_spec(pi@, w as nat);
        assert forall|t: int| 0 <= t < cb_count(w as nat) implies got[t] == want[t] by {
            assert(bits01(out@, count as int)[t] == narrow@[t]);
        }
        assert(got =~= want);
        if crate::routing::is_permutation(pi@) {
            crate::routing::lemma_controlbits_route(pi@, w as nat, out@);
        }
    }
    network_gives(out.as_slice(), pi, w)
}

} // verus!
