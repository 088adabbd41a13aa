//! The structure of the transform matrix (§8.6.4.2).

use crate::tables;
use vstd::prelude::*;

verus! {

/// An entry of the transform goes by its angle alone, the column's odd multiple of
/// the row's frequency: entries whose angles are the same up to a turn, or mirror
/// each other, are equal; half a turn apart they are opposite.
pub proof fn lemma_dct_by_angle(k: int, n: int, j: int, m: int)
    requires
        1 <= k < 32,
        1 <= j < 32,
        0 <= n < 32,
        0 <= m < 32,
    ensures
        ({
            let p = (2 * n + 1) * k;
            let q = (2 * m + 1) * j;
            &&& (p - q) % 128 == 0 || (p + q) % 128 == 0 ==> tables::dct_at(k, n)
                == tables::dct_at(j, m)
            &&& (p - q) % 128 == 64 || (p + q) % 128 == 64 ==> tables::dct_at(k, n)
                == -tables::dct_at(j, m)
        }),
{
    let p = (2 * n + 1) * k;
    let q = (2 * m + 1) * j;
    lemma_angles(p, q);
    if (p - q) % 128 == 0 || (p + q) % 128 == 0 {
        lemma_same_cosine(p % 128, q % 128);
    }
    if (p - q) % 128 == 64 || (p + q) % 128 == 64 {
        lemma_opposite_cosine(p % 128, q % 128);
    }
}

/// Angles within a turn.
proof fn lemma_angles(p: int, q: int)
    ensures
        0 <= p % 128 < 128,
        0 <= q % 128 < 128,
        (p - q) % 128 == 0 ==> p % 128 == q % 128,
        (p + q) % 128 == 0 ==> p % 128 + q % 128 == 128 || p % 128 + q % 128 == 0,
        (p - q) % 128 == 64 ==> p % 128 - q % 128 == 64 || q % 128 - p % 128 == 64,
        (p + q) % 128 == 64 ==> p % 128 + q % 128 == 64 || p % 128 + q % 128 == 192,
{
}

proof fn lemma_same_cosine(a: int, b: int)
    requires
        0 <= a < 128,
        0 <= b < 128,
        a == b || a + b == 128,
    ensures
        tables::dct_cos(a) == tables::dct_cos(b),
{
}

proof fn lemma_opposite_cosine(a: int, b: int)
    requires
        0 <= a < 128,
        0 <= b < 128,
        a - b == 64 || b - a == 64 || a + b == 64 || a + b == 192,
    ensures
        tables::dct_cos(a) == -tables::dct_cos(b),
{
    assert(tables::DCT_BASE@[32] == 0);
}

/// After the first row, which is constant, the first column is positive and never
/// rises from row to row.
pub proof fn lemma_dct_first_column(k: int, n: int)
    requires
        1 <= k < 31,
        0 <= n < 32,
    ensures
        tables::dct_at(k, 0) >= tables::dct_at(k + 1, 0) > 0,
        tables::dct_at(0, n) == 64,
{
    assert((2 * 0 + 1) * k == k) by (nonlinear_arith);
    assert((2 * 0 + 1) * (k + 1) == k + 1) by (nonlinear_arith);
    assert(tables::DCT_BASE@[k] >= tables::DCT_BASE@[k + 1] > 0);
}

} // verus!
