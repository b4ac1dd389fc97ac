//! The Benes network: `2w - 1` layers of conditional swaps on `2^w` wires,
//! set by control bits.

use vstd::prelude::*;
use vstd::arithmetic::div_mod::lemma_fundamental_div_mod_converse;
use crate::params::Params;
use crate::util::{bit_at, get_bit, lemma_mask16, set_bit};

verus! {

/// Two to the power `e`.
pub open spec fn two_pow(e: nat) -> int
    decreases e,
{
    if e == 0 {
        1
    } else {
        2 * two_pow((e - 1) as nat)
    }
}

/// `2^(a + b) = 2^a * 2^b`, and powers of two are positive.
pub proof fn lemma_two_pow_add(a: nat, b: nat)
    ensures
        two_pow(a + b) == two_pow(a) * two_pow(b),
        two_pow(a) >= 1,
    decreases a,
{
    if a == 0 {
        assert(two_pow(0 + b) == 1 * two_pow(b));
    } else {
        lemma_two_pow_add((a - 1) as nat, b);
        assert(two_pow(a + b) == 2 * two_pow((a - 1 + b) as nat));
        assert(2 * (two_pow((a - 1) as nat) * two_pow(b)) == (2 * two_pow((a - 1) as nat)) * two_pow(
            b,
        )) by (nonlinear_arith);
    }
}

/// The wire with which wire `x` may trade places in a layer of stride
/// `s`.
pub open spec fn layer_partner(x: int, s: int) -> int {
    if (x / s) % 2 == 0 {
        x + s
    } else {
        x - s
    }
}

/// The place, among the control bits of a layer of stride `s`, of the
/// bit that governs wire `x`.
pub open spec fn layer_pair(x: int, s: int) -> int {
    (x / (2 * s)) * s + x % s
}

/// What wire `x` carries after a layer of stride `s` whose control bits
/// start at bit `base` of `bits`.
pub open spec fn layer_at(data: Seq<u16>, bits: Seq<u8>, base: int, s: int, x: int) -> u16 {
    if bit_at(bits, base + layer_pair(x, s)) {
        data[layer_partner(x, s)]
    } else {
        data[x]
    }
}

/// The wires after a layer of stride `s` whose control bits start at bit
/// `base` of `bits`.
pub open spec fn layer_spec(data: Seq<u16>, bits: Seq<u8>, base: int, s: int) -> Seq<u16> {
    Seq::new(data.len(), |x: int| layer_at(data, bits, base, s, x))
}

/// The stride of layer `l` of a network on `2^w` wires: `2^l` in the
/// first `w` layers, then down again.
pub open spec fn layer_stride(w: int, l: int) -> int {
    if l < w {
        two_pow(l as nat)
    } else {
        two_pow((2 * w - 2 - l) as nat)
    }
}

/// The wires after layer `l` of the network whose control bits are
/// `bits`.
pub open spec fn net_layer(data: Seq<u16>, bits: Seq<u8>, w: int, l: int) -> Seq<u16> {
    layer_spec(data, bits, l * (data.len() / 2), layer_stride(w, l))
}

/// The wires after the first `k` layers of the network, in order.
pub open spec fn net_forward(data: Seq<u16>, bits: Seq<u8>, w: int, k: nat) -> Seq<u16>
    decreases k,
{
    if k == 0 {
        data
    } else {
        net_layer(net_forward(data, bits, w, (k - 1) as nat), bits, w, k - 1)
    }
}

/// The wires after the last `k` layers of the network, the last layer
/// first.
pub open spec fn net_backward(data: Seq<u16>, bits: Seq<u8>, w: int, k: nat) -> Seq<u16>
    decreases k,
{
    if k == 0 {
        data
    } else {
        net_layer(net_backward(data, bits, w, (k - 1) as nat), bits, w, 2 * w - 1 - k)
    }
}

/// The wires after the whole network on `2^w` wires: all `2w - 1` layers
/// in order, or, reversed, in the opposite order.
pub open spec fn benes_spec(data: Seq<u16>, bits: Seq<u8>, w: int, rev: bool) -> Seq<u16> {
    if rev {
        net_backward(data, bits, w, (2 * w - 1) as nat)
    } else {
        net_forward(data, bits, w, (2 * w - 1) as nat)
    }
}

/// The first `n` bits of a byte string, each as 0 or 1.
pub open spec fn bits01(bytes: Seq<u8>, n: int) -> Seq<u16> {
    Seq::new(n as nat, |k: int| if bit_at(bytes, k) { 1u16 } else { 0u16 })
}

/// Every entry is 0 or 1.
pub open spec fn all_01(s: Seq<u16>) -> bool {
    forall|i: int| 0 <= i < s.len() ==> #[trigger] s[i] <= 1
}

/// The wires `0, 1, ..., n - 1`.
pub open spec fn identity_wires(n: int) -> Seq<u16> {
    Seq::new(n as nat, |i: int| i as u16)
}

/// The two wires of a pair with the stride `s`, and the place of the
/// pair among the pairs of its layer.
proof fn lemma_layer_positions(q: int, j: int, s: int)
    requires
        0 <= q,
        0 <= j < s,
    ensures
        layer_pair(q * (2 * s) + j, s) == q * s + j,
        layer_pair(q * (2 * s) + j + s, s) == q * s + j,
        layer_partner(q * (2 * s) + j, s) == q * (2 * s) + j + s,
        layer_partner(q * (2 * s) + j + s, s) == q * (2 * s) + j,
{
    let x = q * (2 * s) + j;
    assert(q * (2 * s) == (2 * q) * s) by (nonlinear_arith);
    assert(q * (2 * s) + s == (2 * q + 1) * s) by (nonlinear_arith);
    lemma_fundamental_div_mod_converse(x, 2 * s, q, j);
    lemma_fundamental_div_mod_converse(x + s, 2 * s, q, j + s);
    lemma_fundamental_div_mod_converse(x, s, 2 * q, j);
    lemma_fundamental_div_mod_converse(x + s, s, 2 * q + 1, j);
}

/// One layer of the network: for each pair of wires `(x, x + s)`, in
/// order, swaps what they carry where the next control bit is set.
fn layer(data: &mut Vec<u16>, bits: &[u8], base: usize, e: usize, Ghost(w): Ghost<nat>)
    requires
        e < w <= 13,
        old(data)@.len() == two_pow(w),
        base + old(data)@.len() / 2 <= 8 * bits@.len() <= usize::MAX,
    ensures
        final(data)@ == layer_spec(old(data)@, bits@, base as int, two_pow(e as nat)),
{
    let n: usize = data.len();
    let mut s: usize = 1;
    let mut k: usize = 0;
    while k < e
        invariant
            k <= e < 13,
            s == two_pow(k as nat),
            s <= 4096,
        decreases e - k,
    {
        proof {
            lemma_two_pow_bound((k + 1) as nat);
        }
        s = s * 2;
        k = k + 1;
    }
    proof {
        lemma_two_pow_add((w - 1 - e) as nat, (e + 1) as nat);
        lemma_two_pow_bound(w);
        lemma_two_pow_bound(e as nat);
        lemma_two_pow_bound((w - 1 - e) as nat);
        assert(two_pow((e + 1) as nat) == 2 * two_pow(e as nat));
    }
    let ghost blocks: int = two_pow((w - 1 - e) as nat);
    assert(n == blocks * (2 * s));
    let ghost d0 = data@;
    let mut index: usize = base;
    let mut i: usize = 0;
    let ghost mut q: int = 0;
    while i < n
        invariant
            n == data@.len(),
            n == d0.len(),
            n <= 8192,
            1 <= s <= 4096,
            n == blocks * (2 * s),
            0 <= q <= blocks,
            i == q * (2 * s),
            index == base + q * s,
            base + n / 2 <= 8 * bits@.len() <= usize::MAX,
            forall|x: int| 0 <= x < i ==> data@[x] == layer_at(d0, bits@, base as int, s as int, x),
            forall|x: int| i <= x < n ==> data@[x] == d0[x],
        decreases n - i,
    {
        proof {
            assert((q + 1) * (2 * s) <= blocks * (2 * s)) by (nonlinear_arith)
                requires
                    q < blocks,
                    s >= 1,
            ;
            assert((q + 1) * (2 * s) == q * (2 * s) + 2 * s) by (nonlinear_arith);
            assert((q + 1) * s == q * s + s) by (nonlinear_arith);
            assert(blocks * (2 * s) == 2 * (blocks * s)) by (nonlinear_arith);
            assert((q + 1) * s <= blocks * s) by (nonlinear_arith)
                requires
                    q < blocks,
                    s >= 1,
            ;
        }
        let mut j: usize = 0;
        while j < s
            invariant
                j <= s,
                n == data@.len(),
                n == d0.len(),
                n <= 8192,
                1 <= s <= 4096,
                0 <= q,
                i == q * (2 * s),
                i + 2 * s <= n,
                index == base + q * s + j,
                base + q * s + s <= base + n / 2,
                base + n / 2 <= 8 * bits@.len() <= usize::MAX,
                forall|x: int|
                    0 <= x < i ==> data@[x] == layer_at(d0, bits@, base as int, s as int, x),
                forall|x: int|
                    i <= x < i + j ==> data@[x] == layer_at(d0, bits@, base as int, s as int, x),
                forall|x: int|
                    i + s <= x < i + s + j ==> data@[x] == layer_at(
                        d0,
                        bits@,
                        base as int,
                        s as int,
                        x,
                    ),
                forall|x: int| i + j <= x < i + s ==> data@[x] == d0[x],
                forall|x: int| i + s + j <= x < n ==> data@[x] == d0[x],
            decreases s - j,
        {
            let c: u8 = get_bit(bits, index);
            let mask: u16 = (0u16).wrapping_sub(c as u16);
            let lo: u16 = data[i + j];
            let hi: u16 = data[i + j + s];
            let d: u16 = (lo ^ hi) & mask;
            proof {
                lemma_mask16(lo ^ hi, 0, 0);
                lemma_mask16(lo, 0, 0);
                lemma_mask16(hi, 0, 0);
                lemma_mask16(lo, hi, 0);
                lemma_layer_positions(q, j as int, s as int);
            }
            data[i + j] = lo ^ d;
            data[i + j + s] = hi ^ d;
            index = index + 1;
            j = j + 1;
        }
        i = i + 2 * s;
        proof {
            q = q + 1;
        }
    }
    assert(data@ =~= layer_spec(d0, bits@, base as int, s as int));
}

/// Powers of two up to `2^13`, as numbers.
pub proof fn lemma_two_pow_bound(e: nat)
    ensures
        e <= 13 ==> 1 <= two_pow(e) <= 8192,
        e <= 12 ==> two_pow(e) <= 4096,
        two_pow(12) == 4096,
        two_pow(13) == 8192,
        e >= 1 ==> two_pow(e) % 2 == 0,
    decreases e,
{
    reveal_with_fuel(two_pow, 14);
    if e > 0 {
        lemma_two_pow_bound((e - 1) as nat);
    }
}

/// Runs the network on the wires `data`: all `2w - 1` layers in order,
/// or, where `rev` is set, in the opposite order.
pub fn apply_network(data: &mut Vec<u16>, bits: &[u8], w: usize, rev: bool)
    requires
        1 <= w <= 13,
        old(data)@.len() == two_pow(w as nat),
        (2 * w - 1) * (old(data)@.len() / 2) <= 8 * bits@.len() <= usize::MAX,
    ensures
        final(data)@ == benes_spec(old(data)@, bits@, w as int, rev),
        final(data)@.len() == old(data)@.len(),
{
    let n: usize = data.len();
    let half: usize = n / 2;
    let count: usize = 2 * w - 1;
    let ghost d0 = data@;
    proof {
        lemma_two_pow_bound(w as nat);
    }
    let mut k: usize = 0;
    while k < count
        invariant
            k <= count,
            count == 2 * w - 1,
            1 <= w <= 13,
            n == two_pow(w as nat),
            n <= 8192,
            half == n / 2,
            data@.len() == n,
            d0.len() == n,
            count * half <= 8 * bits@.len() <= usize::MAX,
            !rev ==> data@ == net_forward(d0, bits@, w as int, k as nat),
            rev ==> data@ == net_backward(d0, bits@, w as int, k as nat),
        decreases count - k,
    {
        let l: usize = if rev {
            count - 1 - k
        } else {
            k
        };
        let e: usize = if l < w {
            l
        } else {
            2 * w - 2 - l
        };
        proof {
            assert(l * half + half <= count * half) by (nonlinear_arith)
                requires
                    l < count,
                    half >= 0,
            ;
        }
        layer(data, bits, l * half, e, Ghost(w as nat));
        k = k + 1;
    }
}

/// The first `n` bits of `bytes`, one per entry, each 0 or 1.
pub fn unpack_bits(bytes: &[u8], n: usize) -> (out: Vec<u16>)
    requires
        n <= 8 * bytes@.len(),
    ensures
        out@ == bits01(bytes@, n as int),
        all_01(out@),
{
    let mut out: Vec<u16> = Vec::new();
    let mut k: usize = 0;
    while k < n
        invariant
            k <= n,
            n <= 8 * bytes@.len(),
            out@.len() == k,
            forall|i: int| 0 <= i < k ==> out@[i] == (if bit_at(bytes@, i) { 1u16 } else { 0u16 }),
        decreases n - k,
    {
        let b: u8 = get_bit(bytes, k);
        out.push(b as u16);
        k = k + 1;
    }
    assert(out@ =~= bits01(bytes@, n as int));
    out
}

/// Writes the entries of `data`, each 0 or 1, to the first bits of
/// `bytes`.
pub fn pack_bits(bytes: &mut Vec<u8>, data: &Vec<u16>)
    requires
        data@.len() <= 8 * old(bytes)@.len(),
        all_01(data@),
    ensures
        final(bytes)@.len() == old(bytes)@.len(),
        bits01(final(bytes)@, data@.len() as int) == data@,
        forall|j: int|
            data@.len() <= j < 8 * old(bytes)@.len() ==> bit_at(final(bytes)@, j) == bit_at(
                old(bytes)@,
                j,
            ),
{
    let n: usize = data.len();
    let mut k: usize = 0;
    while k < n
        invariant
            k <= n,
            n == data@.len(),
            n <= 8 * bytes@.len(),
            bytes@.len() == old(bytes)@.len(),
            all_01(data@),
            forall|i: int| 0 <= i < k ==> bit_at(bytes@, i) == (data@[i] == 1),
            forall|j: int| k <= j < 8 * bytes@.len() ==> bit_at(bytes@, j) == bit_at(old(bytes)@, j),
        decreases n - k,
    {
        let v: u16 = data[k];
        set_bit(bytes, k, v as u8);
        k = k + 1;
    }
    assert(bits01(bytes@, n as int) =~= data@);
}

/// Every layer keeps entries that are 0 or 1.
pub proof fn lemma_net_keeps_01(data: Seq<u16>, bits: Seq<u8>, w: int, rev: bool, k: nat)
    requires
        1 <= w <= 13,
        data.len() == two_pow(w as nat),
        all_01(data),
        k <= 2 * w - 1,
    ensures
        !rev ==> all_01(net_forward(data, bits, w, k)) && net_forward(data, bits, w, k).len()
            == data.len(),
        rev ==> all_01(net_backward(data, bits, w, k)) && net_backward(data, bits, w, k).len()
            == data.len(),
    decreases k,
{
    if k > 0 {
        lemma_net_keeps_01(data, bits, w, rev, (k - 1) as nat);
        let l: int = if rev {
            2 * w - 1 - k
        } else {
            k - 1
        };
        let prev = if rev {
            net_backward(data, bits, w, (k - 1) as nat)
        } else {
            net_forward(data, bits, w, (k - 1) as nat)
        };
        let e: nat = if l < w {
            l as nat
        } else {
            (2 * w - 2 - l) as nat
        };
        let s = two_pow(e);
        assert(layer_stride(w, l) == s);
        lemma_two_pow_add((w - 1 - e) as nat, (e + 1) as nat);
        lemma_two_pow_bound(e);
        let blocks = two_pow((w - 1 - e) as nat);
        lemma_two_pow_bound((w - 1 - e) as nat);
        let next = net_layer(prev, bits, w, l);
        assert forall|x: int| 0 <= x < next.len() implies #[trigger] next[x] <= 1 by {
            lemma_partner_in_range(x, s, blocks);
        }
    }
}

/// The partner of a wire is a wire.
pub proof fn lemma_partner_in_range(x: int, s: int, blocks: int)
    requires
        1 <= s,
        0 <= x < blocks * (2 * s),
    ensures
        0 <= layer_partner(x, s) < blocks * (2 * s),
        0 <= layer_pair(x, s) < blocks * s,
        layer_partner(layer_partner(x, s), s) == x,
        layer_pair(layer_partner(x, s), s) == layer_pair(x, s),
{
    let q = x / (2 * s);
    let r = x % (2 * s);
    vstd::arithmetic::div_mod::lemma_fundamental_div_mod(x, 2 * s);
    assert(x == (2 * s) * q + r);
    assert(0 <= r < 2 * s);
    assert(q >= 0 && q < blocks) by (nonlinear_arith)
        requires
            x == (2 * s) * q + r,
            0 <= r < 2 * s,
            0 <= x < blocks * (2 * s),
            s >= 1,
    ;
    assert((2 * s) * q == q * (2 * s)) by (nonlinear_arith);
    assert((q + 1) * (2 * s) <= blocks * (2 * s)) by (nonlinear_arith)
        requires
            q < blocks,
            s >= 1,
    ;
    assert((q + 1) * (2 * s) == q * (2 * s) + 2 * s) by (nonlinear_arith);
    assert((q + 1) * s <= blocks * s) by (nonlinear_arith)
        requires
            q < blocks,
            s >= 1,
    ;
    assert((q + 1) * s == q * s + s) by (nonlinear_arith);
    assert(q * s >= 0) by (nonlinear_arith)
        requires
            q >= 0,
            s >= 1,
    ;
    if r < s {
        lemma_layer_positions(q, r, s);
    } else {
        lemma_layer_positions(q, r - s, s);
    }
}

/// The number of wires is a whole number of blocks of twice the stride
/// of a layer.
proof fn lemma_layer_blocks(w: int, l: int) -> (blocks: int)
    requires
        1 <= w <= 13,
        0 <= l < 2 * w - 1,
    ensures
        1 <= layer_stride(w, l),
        two_pow(w as nat) == blocks * (2 * layer_stride(w, l)),
        blocks >= 1,
{
    let e: nat = if l < w {
        l as nat
    } else {
        (2 * w - 2 - l) as nat
    };
    lemma_two_pow_add((w - 1 - e) as nat, (e + 1) as nat);
    lemma_two_pow_bound(e);
    lemma_two_pow_bound((w - 1 - e) as nat);
    two_pow((w - 1 - e) as nat)
}

/// A layer undoes itself.
pub proof fn lemma_layer_involution(data: Seq<u16>, bits: Seq<u8>, w: int, l: int)
    requires
        1 <= w <= 13,
        0 <= l < 2 * w - 1,
        data.len() == two_pow(w as nat),
    ensures
        net_layer(net_layer(data, bits, w, l), bits, w, l) == data,
        net_layer(data, bits, w, l).len() == data.len(),
{
    let s = layer_stride(w, l);
    let blocks = lemma_layer_blocks(w, l);
    let once = net_layer(data, bits, w, l);
    let twice = net_layer(once, bits, w, l);
    assert forall|x: int| 0 <= x < data.len() implies twice[x] == data[x] by {
        lemma_partner_in_range(x, s, blocks);
    }
    assert(twice =~= data);
}

/// The first `k` layers keep the number of wires.
pub proof fn lemma_net_len(data: Seq<u16>, bits: Seq<u8>, w: int, k: nat)
    ensures
        net_forward(data, bits, w, k).len() == data.len(),
        net_backward(data, bits, w, k).len() == data.len(),
    decreases k,
{
    if k > 0 {
        lemma_net_len(data, bits, w, (k - 1) as nat);
    }
}

/// The last `j` layers, run backwards, undo the last `j` of all layers
/// run forwards.
proof fn lemma_backward_undoes(data: Seq<u16>, bits: Seq<u8>, w: int, j: nat)
    requires
        1 <= w <= 13,
        data.len() == two_pow(w as nat),
        j <= 2 * w - 1,
    ensures
        net_backward(net_forward(data, bits, w, (2 * w - 1) as nat), bits, w, j) == net_forward(
            data,
            bits,
            w,
            (2 * w - 1 - j) as nat,
        ),
    decreases j,
{
    if j > 0 {
        lemma_backward_undoes(data, bits, w, (j - 1) as nat);
        let l = 2 * w - 1 - j;
        let below = net_forward(data, bits, w, l as nat);
        lemma_net_len(data, bits, w, l as nat);
        lemma_layer_involution(below, bits, w, l);
        assert(net_forward(data, bits, w, (l + 1) as nat) == net_layer(below, bits, w, l));
    }
}

/// Whatever the control bits are, the network run backwards undoes the
/// network run forwards.
pub proof fn lemma_backward_after_forward(data: Seq<u16>, bits: Seq<u8>, w: int)
    requires
        1 <= w <= 13,
        data.len() == two_pow(w as nat),
    ensures
        benes_spec(benes_spec(data, bits, w, false), bits, w, true) == data,
{
    lemma_backward_undoes(data, bits, w, (2 * w - 1) as nat);
}

/// What the network, run forwards, does to the wires from the state
/// after `k` layers of the network run backwards on `data`.
proof fn lemma_forward_redoes(data: Seq<u16>, bits: Seq<u8>, w: int, k: nat, j: nat)
    requires
        1 <= w <= 13,
        data.len() == two_pow(w as nat),
        k <= 2 * w - 1,
        j <= k,
    ensures
        net_forward_from(net_backward(data, bits, w, k), bits, w, (2 * w - 1 - k) as nat, j)
            == net_backward(data, bits, w, (k - j) as nat),
    decreases j,
{
    if j > 0 {
        lemma_forward_redoes(data, bits, w, k, (j - 1) as nat);
        let l = 2 * w - 1 - k + (j - 1);
        let above = net_backward(data, bits, w, (k - j) as nat);
        lemma_net_len(data, bits, w, (k - j) as nat);
        lemma_layer_involution(above, bits, w, l);
        assert(net_backward(data, bits, w, (k - j + 1) as nat) == net_layer(
            above,
            bits,
            w,
            2 * w - 1 - (k - j + 1),
        ));
    }
}

/// The wires after the `j` layers from layer `first` on, in order.
pub open spec fn net_forward_from(data: Seq<u16>, bits: Seq<u8>, w: int, first: nat, j: nat) -> Seq<
    u16,
>
    decreases j,
{
    if j == 0 {
        data
    } else {
        net_layer(net_forward_from(data, bits, w, first, (j - 1) as nat), bits, w, first + j - 1)
    }
}

/// The layers from the first on are the first layers.
proof fn lemma_forward_from_zero(data: Seq<u16>, bits: Seq<u8>, w: int, j: nat)
    ensures
        net_forward_from(data, bits, w, 0, j) == net_forward(data, bits, w, j),
    decreases j,
{
    if j > 0 {
        lemma_forward_from_zero(data, bits, w, (j - 1) as nat);
    }
}

/// Whatever the control bits are, the network run forwards undoes the
/// network run backwards.
pub proof fn lemma_forward_after_backward(data: Seq<u16>, bits: Seq<u8>, w: int)
    requires
        1 <= w <= 13,
        data.len() == two_pow(w as nat),
    ensures
        benes_spec(benes_spec(data, bits, w, true), bits, w, false) == data,
{
    let k = (2 * w - 1) as nat;
    lemma_forward_redoes(data, bits, w, k, k);
    lemma_forward_from_zero(net_backward(data, bits, w, k), bits, w, k);
}

/// The wires after `k` layers of the network, from the first layer on
/// or, reversed, from the last.
pub open spec fn net_apply(data: Seq<u16>, bits: Seq<u8>, w: int, rev: bool, k: nat) -> Seq<u16> {
    if rev {
        net_backward(data, bits, w, k)
    } else {
        net_forward(data, bits, w, k)
    }
}

/// The network moves what the wires carry and changes nothing of it:
/// wire `i` ends with what the wire started with that the network takes
/// to `i` from the wires `0, 1, ..., n - 1`.
pub proof fn lemma_network_moves(data: Seq<u16>, bits: Seq<u8>, w: int, rev: bool, k: nat)
    requires
        1 <= w <= 13,
        data.len() == two_pow(w as nat),
        k <= 2 * w - 1,
    ensures
        net_apply(data, bits, w, rev, k).len() == data.len(),
        net_apply(identity_wires(data.len() as int), bits, w, rev, k).len() == data.len(),
        forall|i: int|
            0 <= i < data.len() ==> 0 <= (#[trigger] net_apply(
                identity_wires(data.len() as int),
                bits,
                w,
                rev,
                k,
            )[i]) < data.len(),
        forall|i: int|
            0 <= i < data.len() ==> (#[trigger] net_apply(data, bits, w, rev, k)[i]) == data[net_apply(
                identity_wires(data.len() as int),
                bits,
                w,
                rev,
                k,
            )[i] as int],
    decreases k,
{
    let n = data.len() as int;
    let ids = identity_wires(n);
    lemma_two_pow_bound(w as nat);
    if k > 0 {
        lemma_network_moves(data, bits, w, rev, (k - 1) as nat);
        let l: int = if rev {
            2 * w - 1 - k
        } else {
            k - 1
        };
        let s = layer_stride(w, l);
        let blocks = lemma_layer_blocks(w, l);
        let prev_ids = net_apply(ids, bits, w, rev, (k - 1) as nat);
        let prev = net_apply(data, bits, w, rev, (k - 1) as nat);
        let next_ids = net_apply(ids, bits, w, rev, k);
        let next = net_apply(data, bits, w, rev, k);
        assert(next_ids == net_layer(prev_ids, bits, w, l));
        assert(next == net_layer(prev, bits, w, l));
        assert forall|i: int| 0 <= i < n implies 0 <= #[trigger] next_ids[i] < n && next[i]
            == data[next_ids[i] as int] by {
            lemma_partner_in_range(i, s, blocks);
            let q = layer_partner(i, s);
            assert(0 <= prev_ids[q] < n);
            assert(0 <= prev_ids[i] < n);
            assert(prev[q] == data[prev_ids[q] as int]);
            assert(prev[i] == data[prev_ids[i] as int]);
        }
    }
}

/// Applies the network with the control bits `bits` to the `2^m` bits of
/// `r`, forwards or, where `rev` is set, backwards.
pub fn apply_benes(p: &Params, r: &mut Vec<u8>, bits: &[u8], rev: bool)
    requires
        p.wf(),
        8 * old(r)@.len() == p.spec_field_size(),
        bits@.len() == p.spec_cond_bytes(),
    ensures
        final(r)@.len() == old(r)@.len(),
        bits01(final(r)@, p.spec_field_size()) == benes_spec(
            bits01(old(r)@, p.spec_field_size()),
            bits@,
            p.gfbits as int,
            rev,
        ),
{
    let n: usize = p.field_size();
    let w: usize = p.gfbits;
    proof {
        p.lemma_sizes();
        lemma_two_pow_bound(w as nat);
    }
    let mut data: Vec<u16> = unpack_bits(r.as_slice(), n);
    let ghost d0 = data@;
    proof {
        if w == 12 {
            assert((2 * w - 1) * (d0.len() / 2) == 23 * 2048);
        } else {
            assert((2 * w - 1) * (d0.len() / 2) == 25 * 4096);
        }
    }
    apply_network(&mut data, bits, w, rev);
    proof {
        lemma_net_keeps_01(d0, bits@, w as int, rev, (2 * w - 1) as nat);
    }
    pack_bits(r, &data);
}

} // verus!
