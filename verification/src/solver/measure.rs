//! The measure by which the search is known to end: the counts of slots
//! still to try, level by level, read as the digits of one number.

use vstd::prelude::*;

verus! {

/// The weight of one unit at position `k`: the product of the radices
/// behind it.
pub open spec fn unit(radix: Seq<nat>, k: int) -> nat
    decreases radix.len() - k,
{
    if k >= radix.len() || k < 0 {
        1
    } else {
        radix[k] * unit(radix, k + 1)
    }
}

/// The number that the digits from position `k` on spell.
pub open spec fn weight(digits: Seq<nat>, radix: Seq<nat>, k: int) -> nat
    decreases radix.len() - k,
{
    if k >= radix.len() || k < 0 {
        0
    } else {
        digits[k] * unit(radix, k + 1) + weight(digits, radix, k + 1)
    }
}

/// Every digit is below its radix.
pub open spec fn bounded(digits: Seq<nat>, radix: Seq<nat>) -> bool {
    &&& digits.len() == radix.len()
    &&& forall|k: int| 0 <= k < radix.len() ==> #[trigger] digits[k] < radix[k]
}

/// The digits from a position on spell less than one unit of the position
/// before.
pub proof fn lemma_weight_bound(digits: Seq<nat>, radix: Seq<nat>, k: int)
    requires
        bounded(digits, radix),
        0 <= k,
    ensures
        weight(digits, radix, k) < unit(radix, k),
        unit(radix, k) >= 1,
    decreases radix.len() - k,
{
    if k < radix.len() {
        lemma_weight_bound(digits, radix, k + 1);
        let m = unit(radix, k + 1);
        let a = digits[k];
        let r = radix[k];
        assert(a * m + m <= r * m) by (nonlinear_arith)
            requires
                a < r,
                m >= 1,
        ;
        assert(r * m >= 1) by (nonlinear_arith)
            requires
                r >= 1,
                m >= 1,
        ;
    }
}

/// Digits that agree up to a position where one is lower spell a lower
/// number.
pub proof fn lemma_weight_lex(a: Seq<nat>, b: Seq<nat>, radix: Seq<nat>, p: int, k: int)
    requires
        bounded(a, radix),
        bounded(b, radix),
        0 <= k <= p < radix.len(),
        forall|j: int| k <= j < p ==> a[j] == b[j],
        b[p] < a[p],
    ensures
        weight(b, radix, k) < weight(a, radix, k),
    decreases p - k,
{
    if k == p {
        lemma_weight_bound(b, radix, p + 1);
        let m = unit(radix, p + 1);
        let x = a[p];
        let y = b[p];
        assert(y * m + m <= x * m) by (nonlinear_arith)
            requires
                y < x,
                m >= 1,
        ;
    } else {
        lemma_weight_lex(a, b, radix, p, k + 1);
    }
}

/// Digits that are nowhere higher spell no higher number.
pub proof fn lemma_weight_le(a: Seq<nat>, b: Seq<nat>, radix: Seq<nat>, k: int)
    requires
        a.len() == radix.len(),
        b.len() == radix.len(),
        0 <= k,
        forall|j: int| k <= j < radix.len() ==> b[j] <= a[j],
    ensures
        weight(b, radix, k) <= weight(a, radix, k),
    decreases radix.len() - k,
{
    if k < radix.len() {
        lemma_weight_le(a, b, radix, k + 1);
        let m = unit(radix, k + 1);
        let x = a[k];
        let y = b[k];
        assert(y * m <= x * m) by (nonlinear_arith)
            requires
                y <= x,
        ;
    }
}

} // verus!
