//! Bit-set view of `u64` masks: bit `i` of a mask stands for vertex `i`.
use vstd::prelude::*;

verus! {

use vstd::std_specs::bits::{u64_trailing_zeros, axiom_u64_trailing_zeros};

/// Bit `i` of `m` is set.
pub open spec fn has_bit(m: u64, i: int) -> bool {
    0 <= i < 64 && (m >> (i as u64)) & 1u64 == 1u64
}

pub proof fn lemma_bit_zero(k: int)
    ensures
        !has_bit(0u64, k),
{
    if 0 <= k < 64 {
        let j = k as u64;
        assert((0u64 >> j) & 1u64 == 0u64) by (bit_vector);
    }
}

pub proof fn lemma_bit_or_single(m: u64, j: u64, k: int)
    requires
        j < 64,
    ensures
        has_bit(m | (1u64 << j), k) <==> (has_bit(m, k) || k == j),
{
    if 0 <= k < 64 {
        let i = k as u64;
        assert((((m | (1u64 << j)) >> i) & 1u64 == 1u64) <==> (((m >> i) & 1u64 == 1u64) || i == j))
            by (bit_vector) requires j < 64, i < 64;
    }
}

pub proof fn lemma_bit_and_not(m: u64, x: u64, k: int)
    ensures
        has_bit(m & !x, k) <==> (has_bit(m, k) && !has_bit(x, k)),
{
    if 0 <= k < 64 {
        let i = k as u64;
        assert((((m & !x) >> i) & 1u64 == 1u64) <==> (((m >> i) & 1u64 == 1u64) && !((x >> i)
            & 1u64 == 1u64))) by (bit_vector) requires i < 64;
    }
}

pub proof fn lemma_bit_and(m: u64, x: u64, k: int)
    ensures
        has_bit(m & x, k) <==> (has_bit(m, k) && has_bit(x, k)),
{
    if 0 <= k < 64 {
        let i = k as u64;
        assert((((m & x) >> i) & 1u64 == 1u64) <==> (((m >> i) & 1u64 == 1u64) && ((x >> i)
            & 1u64 == 1u64))) by (bit_vector) requires i < 64;
    }
}

/// Two masks with the same bits are equal.
pub proof fn lemma_bits_ext(a: u64, b: u64)
    requires
        forall|k: int| 0 <= k < 64 ==> has_bit(a, k) == has_bit(b, k),
    ensures
        a == b,
{
    if a != b {
        let x = a ^ b;
        assert(x != 0) by (bit_vector) requires a != b, x == a ^ b;
        axiom_u64_trailing_zeros(x);
        let t = u64_trailing_zeros(x) as u64;
        assert(t < 64);
        assert((x >> t) & 1u64 == 1u64);
        assert(((a >> t) & 1u64 == 1u64) != ((b >> t) & 1u64 == 1u64)) by (bit_vector)
            requires x == a ^ b, (x >> t) & 1u64 == 1u64, t < 64;
        assert(has_bit(a, t as int) != has_bit(b, t as int));
    }
}

/// A nonzero mask has a lowest set bit; clearing it removes exactly that bit.
pub proof fn lemma_pop_lowest(m: u64)
    requires
        m != 0,
    ensures
        (u64_trailing_zeros(m) as int) < 64,
        has_bit(m, u64_trailing_zeros(m) as int),
        forall|k: int| 0 <= k < u64_trailing_zeros(m) ==> !#[trigger] has_bit(m, k),
        forall|k: int|
            #[trigger] has_bit(m & ((m - 1) as u64), k) <==> (has_bit(m, k) && k
                != u64_trailing_zeros(m)),
        m & ((m - 1) as u64) < m,
{
    axiom_u64_trailing_zeros(m);
    let t = u64_trailing_zeros(m) as u64;
    assert(t < 64);
    assert forall|k: int| 0 <= k < u64_trailing_zeros(m) implies !#[trigger] has_bit(m, k) by {
        let j = k as u64;
        assert((m >> j) & 1u64 == 0u64);
    }
    let low = m & (((1u64 << t) - 1) as u64);
    assert forall|k: int| 0 <= k < 64 implies has_bit(low, k) == has_bit(0u64, k) by {
        let j = k as u64;
        lemma_bit_zero(k);
        assert((((m & (((1u64 << t) - 1) as u64)) >> j) & 1u64 == 1u64) <==> (((m >> j) & 1u64
            == 1u64) && j < t)) by (bit_vector) requires t < 64, j < 64;
        if j < t {
            assert(!has_bit(m, k));
        }
    }
    lemma_bits_ext(low, 0u64);
    assert forall|k: int|
        #[trigger] has_bit(m & ((m - 1) as u64), k) <==> (has_bit(m, k) && k
            != u64_trailing_zeros(m)) by {
        if 0 <= k < 64 {
            let j = k as u64;
            assert((((m & ((m - 1) as u64)) >> j) & 1u64 == 1u64) <==> (((m >> j) & 1u64 == 1u64)
                && j != t)) by (bit_vector)
                requires
                    m != 0,
                    t < 64,
                    (m >> t) & 1u64 == 1u64,
                    m & (((1u64 << t) - 1) as u64) == 0,
                    j < 64,
            ;
        }
    }
    assert(m & ((m - 1) as u64) < m) by (bit_vector) requires m != 0;
}

} // verus!
