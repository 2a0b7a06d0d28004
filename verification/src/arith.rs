//! Facts about division that sector and cluster addressing rests on.

use vstd::arithmetic::div_mod;
use vstd::arithmetic::mul;
use vstd::prelude::*;

verus! {

/// A quotient and a remainder are recovered from the number they make up.
pub proof fn lemma_split(q: int, r: int, d: int)
    requires
        0 <= r < d,
    ensures
        (q * d + r) / d == q,
        (q * d + r) % d == r,
{
    mul::lemma_mul_is_commutative(q, d);
    div_mod::lemma_fundamental_div_mod_converse(q * d + r, d, q, r);
}

/// A stream offset names the same sector whether it is divided into clusters
/// first or into sectors first.
pub proof fn lemma_stream_offset(offset: int, size: int, per: int)
    requires
        0 <= offset,
        0 < size,
        0 < per,
    ensures
        offset / (size * per) == offset / size / per,
        offset % (size * per) / size == offset / size % per,
        offset % (size * per) % size == offset % size,
        0 <= offset / size % per < per,
        0 <= offset % size < size,
        offset == size * (offset / size) + offset % size,
        0 < size * per,
        0 <= offset / size,
{
    div_mod::lemma_div_denominator(offset, size, per);
    div_mod::lemma_mod_breakdown(offset, size, per);
    div_mod::lemma_fundamental_div_mod(offset, size);
    div_mod::lemma_fundamental_div_mod(offset / size, per);
    let s = offset / size % per;
    let r = offset % size;
    assert(0 < size * per) by (nonlinear_arith)
        requires
            0 < size,
            0 < per,
    ;
    assert(0 <= offset / size) by (nonlinear_arith)
        requires
            0 <= offset,
            0 < size,
    ;
    mul::lemma_mul_is_commutative(size, s);
    lemma_split(s, r, size);
}

/// Bytes that follow an offset within its sector have the same sector.
pub proof fn lemma_same_sector(offset: int, more: int, size: int)
    requires
        0 <= offset,
        0 <= more,
        0 < size,
        offset % size + more < size,
    ensures
        (offset + more) / size == offset / size,
        (offset + more) % size == offset % size + more,
{
    div_mod::lemma_fundamental_div_mod(offset, size);
    mul::lemma_mul_is_commutative(size, offset / size);
    lemma_split(offset / size, offset % size + more, size);
}

/// Multiplying by a common factor keeps an order.
pub proof fn lemma_scaled(a: int, b: int, d: int)
    requires
        a <= b,
        0 <= d,
    ensures
        a * d <= b * d,
{
    mul::lemma_mul_inequality(a, b, d);
}

} // verus!
