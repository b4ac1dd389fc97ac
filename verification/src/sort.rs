//! Sorting of 64-bit numbers by a network of compare-exchange steps whose
//! positions do not depend on the data.

use vstd::prelude::*;
use vstd::relations::{sorted_by, total_ordering};
use vstd::seq_lib::{lemma_sorted_unique, to_multiset_update};

verus! {

/// The order by which the network sorts.
pub open spec fn leq_u64() -> spec_fn(u64, u64) -> bool {
    |a: u64, b: u64| a <= b
}

/// `s` in increasing order.
pub open spec fn sorted_seq(s: Seq<u64>) -> Seq<u64> {
    s.sort_by(leq_u64())
}

/// Every entry of `s` is below `2^63`.
pub open spec fn all_below_2_63(s: Seq<u64>) -> bool {
    forall|i: int| 0 <= i < s.len() ==> #[trigger] s[i] < 0x8000_0000_0000_0000
}

/// `s` is in increasing order.
pub open spec fn is_sorted(s: Seq<u64>) -> bool {
    forall|i: int, j: int| 0 <= i <= j < s.len() ==> s[i] <= s[j]
}

/// The top bit of a word, and the exchange of two words by a mask.
proof fn lemma_minmax(a: u64, b: u64, v: u64)
    by (bit_vector)
    ensures
        v >= 0x8000_0000_0000_0000 ==> v >> 63 == 1,
        v < 0x8000_0000_0000_0000 ==> v >> 63 == 0,
        a ^ (0xFFFF_FFFF_FFFF_FFFFu64 & (a ^ b)) == b,
        b ^ (0xFFFF_FFFF_FFFF_FFFFu64 & (a ^ b)) == a,
        a ^ (0u64 & (a ^ b)) == a,
        b ^ (0u64 & (a ^ b)) == b,
{
}

/// `leq_u64` is a total order.
pub proof fn lemma_leq_total()
    ensures
        total_ordering(leq_u64()),
{
}

/// A sequence in increasing order with the entries of `s` is `sorted_seq(s)`.
pub proof fn lemma_sorted_is_sorted_seq(s: Seq<u64>, r: Seq<u64>)
    requires
        is_sorted(r),
        r.to_multiset() == s.to_multiset(),
    ensures
        r == sorted_seq(s),
{
    lemma_leq_total();
    s.lemma_sort_by_ensures(leq_u64());
    assert(sorted_by(r, leq_u64()));
    lemma_sorted_unique(r, sorted_seq(s), leq_u64());
}

/// `sorted_seq(s)` is in increasing order and has the entries of `s`.
pub proof fn lemma_sorted_seq_props(s: Seq<u64>)
    ensures
        is_sorted(sorted_seq(s)),
        sorted_seq(s).to_multiset() == s.to_multiset(),
        sorted_seq(s).len() == s.len(),
{
    lemma_leq_total();
    s.lemma_sort_by_ensures(leq_u64());
    let r = sorted_seq(s);
    assert(sorted_by(r, leq_u64()));
    assert forall|i: int, j: int| 0 <= i <= j < r.len() implies r[i] <= r[j] by {
        if i < j {
            assert(leq_u64()(r[i], r[j]));
        }
    }
    r.to_multiset_ensures();
    s.to_multiset_ensures();
}

/// Puts the smaller of `x[i]` and `x[j]` at `i` and the larger at `j`.
fn minmax(x: &mut Vec<u64>, i: usize, j: usize)
    requires
        i < j < old(x)@.len(),
        all_below_2_63(old(x)@),
    ensures
        final(x)@.len() == old(x)@.len(),
        final(x)@ == old(x)@.update(
            i as int,
            if old(x)@[i as int] <= old(x)@[j as int] {
                old(x)@[i as int]
            } else {
                old(x)@[j as int]
            },
        ).update(
            j as int,
            if old(x)@[i as int] <= old(x)@[j as int] {
                old(x)@[j as int]
            } else {
                old(x)@[i as int]
            },
        ),
        final(x)@.to_multiset() == old(x)@.to_multiset(),
        all_below_2_63(final(x)@),
{
    let a: u64 = x[i];
    let b: u64 = x[j];
    let mut c: u64 = b.wrapping_sub(a);
    proof {
        lemma_minmax(a, b, c);
    }
    c = c >> 63;
    c = (0u64).wrapping_sub(c);
    c = c & (a ^ b);
    x[i] = a ^ c;
    x[j] = b ^ c;
    proof {
        broadcast use vstd::multiset::group_multiset_axioms;

        let s0 = old(x)@;
        let lo = if a <= b { a } else { b };
        let hi = if a <= b { b } else { a };
        let s1 = s0.update(i as int, lo);
        to_multiset_update(s0, i as int, lo);
        to_multiset_update(s1, j as int, hi);
        assert(x@ =~= s1.update(j as int, hi));
        assert(s1[j as int] == b);
        s0.to_multiset_ensures();
        assert(s0.contains(a)) by {
            assert(s0[i as int] == a);
        }
        assert(s0.contains(b)) by {
            assert(s0[j as int] == b);
        }
        assert(x@.to_multiset() =~= s0.to_multiset());
    }
}

/// The smaller of `a` and `b`, chosen by a mask instead of a branch.
pub fn ct_min(a: u64, b: u64) -> (r: u64)
    requires
        a < 0x8000_0000_0000_0000,
        b < 0x8000_0000_0000_0000,
    ensures
        r == (if a <= b { a } else { b }),
{
    let mut c: u64 = b.wrapping_sub(a);
    proof {
        lemma_minmax(a, b, c);
    }
    c = c >> 63;
    c = (0u64).wrapping_sub(c);
    c = c & (a ^ b);
    a ^ c
}

/// Sorts `x` into increasing order.
pub fn sort_u64(x: &mut Vec<u64>)
    requires
        all_below_2_63(old(x)@),
    ensures
        final(x)@ == sorted_seq(old(x)@),
        final(x)@.len() == old(x)@.len(),
        is_sorted(final(x)@),
        final(x)@.to_multiset() == old(x)@.to_multiset(),
        all_below_2_63(final(x)@),
{
    let n: usize = x.len();
    if n >= 2 {
        let mut done: usize = 0;
        while done < n - 1
            invariant
                2 <= n,
                n == x@.len(),
                done <= n - 1,
                all_below_2_63(x@),
                x@.to_multiset() == old(x)@.to_multiset(),
                forall|i: int, j: int| n - done <= i <= j < n ==> x@[i] <= x@[j],
                forall|i: int, j: int| 0 <= i < n - done <= j < n ==> x@[i] <= x@[j],
            decreases n - 1 - done,
        {
            let mut j: usize = 0;
            while j < n - 1 - done
                invariant
                    2 <= n,
                    n == x@.len(),
                    done < n - 1,
                    j <= n - 1 - done,
                    all_below_2_63(x@),
                    x@.to_multiset() == old(x)@.to_multiset(),
                    forall|a: int, b: int| n - done <= a <= b < n ==> x@[a] <= x@[b],
                    forall|a: int, b: int| 0 <= a < n - done <= b < n ==> x@[a] <= x@[b],
                    forall|a: int| 0 <= a <= j ==> x@[a] <= x@[j as int],
                decreases n - 1 - done - j,
            {
                minmax(x, j, j + 1);
                j = j + 1;
            }
            done = done + 1;
        }
    }
    proof {
        assert(is_sorted(x@)) by {
            assert forall|i: int, j: int| 0 <= i <= j < x@.len() implies x@[i] <= x@[j] by {
                if n >= 2 {
                    if i == 0 && j > 0 {
                        assert(n - (n - 1) <= j);
                    }
                }
            }
        }
        lemma_sorted_is_sorted_seq(old(x)@, x@);
    }
}

} // verus!
