//! Library-wide laws: fee monotonicity, and coverage of the target by a
//! selection's effective value.

use vstd::prelude::*;
use vstd::arithmetic::div_mod::{
    lemma_div_is_ordered, lemma_div_multiples_vanish, lemma_fundamental_div_mod,
    lemma_fundamental_div_mod_converse_div,
};
use vstd::arithmetic::mul::{
    lemma_mul_inequality, lemma_mul_inequality_converse, lemma_mul_is_associative,
    lemma_mul_is_commutative, lemma_mul_is_distributive_add, lemma_mul_is_distributive_add_other_way,
};
use vstd::arithmetic::power2::{lemma_pow2_pos, pow2};
use crate::types::{CoinSelectionOpt, FeeRate, OutputGroup};
use crate::utils::{
    ceil_div, fee_ceil, rate_fee, sum_effective, sum_fees, sum_values,
    sum_weights,
};

verus! {

/// Rounded-up division is monotone across fractions: if `a/b <= c/d` as
/// rationals, the rounded quotients are ordered the same way.
proof fn lemma_ceil_div_cross(a: nat, b: nat, c: nat, d: nat)
    requires
        0 < b,
        0 < d,
        a * d <= c * b,
    ensures
        ceil_div(a, b) <= ceil_div(c, d),
{
    let q = ceil_div(c, d) as int;
    // c never exceeds d * ceil(c / d)
    lemma_fundamental_div_mod(c + d - 1, d as int);
    assert(c <= d * q);
    // so a * d <= (d * q) * b, and cancelling d leaves a <= q * b
    lemma_mul_inequality(c as int, d * q, b as int);
    assert((d * q) * b == (q * b) * (d as int)) by {
        lemma_mul_is_associative(d as int, q, b as int);
        lemma_mul_is_associative(q, b as int, d as int);
        lemma_mul_is_commutative(d as int, q * (b as int));
        lemma_mul_is_commutative(d as int, b as int);
        lemma_mul_is_associative(q, d as int, b as int);
    }
    lemma_mul_is_commutative(a as int, d as int);
    lemma_mul_inequality_converse(a as int, q * (b as int), d as int);
    // a <= q * b gives ceil(a / b) <= q
    lemma_div_is_ordered(a + b - 1, q * (b as int) + b - 1, b as int);
    lemma_fundamental_div_mod_converse_div(q * (b as int) + b - 1, b as int, q, b - 1);
}

/// Fee monotonicity: the fee never shrinks when the weight grows or when
/// the rate grows. A rate `n1 / 2^s1` is at most `n2 / 2^s2` exactly when
/// `n1 * 2^s2 <= n2 * 2^s1`.
pub proof fn lemma_fee_monotonic(w1: nat, w2: nat, r1: FeeRate, r2: FeeRate)
    requires
        w1 <= w2,
        r1 is Rate,
        r2 is Rate,
        (r1->num as nat) * pow2(r2->shift as nat) <= (r2->num as nat) * pow2(r1->shift as nat),
    ensures
        rate_fee(w1, r1) <= rate_fee(w2, r2),
{
    let n1 = r1->num as nat;
    let s1 = r1->shift as nat;
    let n2 = r2->num as nat;
    let s2 = r2->shift as nat;
    lemma_pow2_pos(s1);
    lemma_pow2_pos(s2);
    crate::utils::lemma_rate_fee_monotonic_weight(w1, w2, r1);
    // cross-multiplied, w2*n1*2^s2 <= w2*n2*2^s1
    assert((w2 * n1) * pow2(s2) <= (w2 * n2) * pow2(s1)) by {
        lemma_mul_inequality(n1 * pow2(s2) as int, n2 * pow2(s1) as int, w2 as int);
        lemma_mul_is_associative(w2 as int, n1 as int, pow2(s2) as int);
        lemma_mul_is_associative(w2 as int, n2 as int, pow2(s1) as int);
        lemma_mul_is_commutative((n1 * pow2(s2)) as int, w2 as int);
        lemma_mul_is_commutative((n2 * pow2(s1)) as int, w2 as int);
    }
    lemma_ceil_div_cross(w2 * n1, pow2(s1), w2 * n2, pow2(s2));
}

/// Two fees rounded separately exceed the fee of the combined weight by at
/// most one unit.
proof fn lemma_fee_pair(w1: nat, w2: nat, num: nat, shift: nat)
    ensures
        fee_ceil(w1, num, shift) + fee_ceil(w2, num, shift) <= fee_ceil(w1 + w2, num, shift) + 1,
{
    let d = pow2(shift) as int;
    lemma_pow2_pos(shift);
    let a = (w1 * num) as int;
    let b = (w2 * num) as int;
    assert((w1 + w2) * num == a + b) by {
        lemma_mul_is_distributive_add_other_way(num as int, w1 as int, w2 as int);
    }
    let ca = ceil_div(w1 * num, pow2(shift)) as int;
    let cb = ceil_div(w2 * num, pow2(shift)) as int;
    // each rounded fee stays within one unit of the exact quotient
    lemma_fundamental_div_mod(a + d - 1, d);
    lemma_fundamental_div_mod(b + d - 1, d);
    assert(d * ca <= a + d - 1);
    assert(d * cb <= b + d - 1);
    // so d*(ca + cb - 1) <= a + b + d - 2, and dividing by d bounds the sum
    assert(d * (ca + cb - 1) <= a + b + d - 2) by {
        lemma_mul_is_distributive_add(d, ca, cb - 1);
        lemma_mul_is_distributive_add(d, cb, -1);
    }
    lemma_div_is_ordered(d * (ca + cb - 1), a + b + d - 1, d);
    lemma_mul_is_commutative(d, ca + cb - 1);
    lemma_div_multiples_vanish(ca + cb - 1, d);
}

/// The fees of the selected inputs, priced one by one, exceed the fee of
/// their combined weight by at most one unit per input beyond the first.
proof fn lemma_fees_subadditive(inputs: Seq<OutputGroup>, sel: Seq<usize>, rate: FeeRate)
    requires
        rate is Rate,
        sel.len() > 0,
    ensures
        sum_fees(inputs, sel, rate) <= rate_fee(sum_weights(inputs, sel), rate) + sel.len() - 1,
    decreases sel.len(),
{
    let num = rate->num as nat;
    let shift = rate->shift as nat;
    if sel.len() == 1 {
        assert(sum_fees(inputs, sel.drop_last(), rate) == 0);
        assert(sum_weights(inputs, sel.drop_last()) == 0);
    } else {
        lemma_fees_subadditive(inputs, sel.drop_last(), rate);
        lemma_fee_pair(
            sum_weights(inputs, sel.drop_last()),
            inputs[sel.last() as int].weight as nat,
            num,
            shift,
        );
    }
}

/// An input is worth at least its value less its own fee.
proof fn lemma_sum_effective_lower(inputs: Seq<OutputGroup>, sel: Seq<usize>, rate: FeeRate)
    ensures
        sum_effective(inputs, sel, rate) + sum_fees(inputs, sel, rate) >= sum_values(inputs, sel),
    decreases sel.len(),
{
    if sel.len() > 0 {
        lemma_sum_effective_lower(inputs, sel.drop_last(), rate);
    }
}

/// Coverage: a selection whose raw value covers the target, the minimum
/// change and the fee of its combined weight also covers the target in
/// effective value, provided the minimum change absorbs the per-input
/// rounding (one fee unit per selected input beyond the first). Without
/// that slack the law can fail: many inputs, each rounded up by almost a
/// whole fee unit, can eat a zero minimum change.
pub proof fn lemma_effective_coverage(
    inputs: Seq<OutputGroup>,
    sel: Seq<usize>,
    opt: CoinSelectionOpt,
)
    requires
        opt.target_feerate is Rate,
        sum_values(inputs, sel) >= opt.target_value + opt.min_change_value + rate_fee(
            sum_weights(inputs, sel),
            opt.target_feerate,
        ),
        opt.min_change_value + 1 >= sel.len(),
    ensures
        sum_effective(inputs, sel, opt.target_feerate) >= opt.target_value,
{
    if sel.len() == 0 {
    } else {
        lemma_fees_subadditive(inputs, sel, opt.target_feerate);
        lemma_sum_effective_lower(inputs, sel, opt.target_feerate);
    }
}

} // verus!
