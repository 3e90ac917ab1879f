//! The arithmetic substrate: overflow-checked addition, fee computation,
//! effective values, and the waste metric.
//!
//! Every algorithm prices inputs through these helpers, so their results are
//! commensurable.

use vstd::prelude::*;
use vstd::arithmetic::div_mod::{
    lemma_basic_div, lemma_fundamental_div_mod, lemma_fundamental_div_mod_converse_div,
    lemma_div_denominator, lemma_div_multiples_vanish,
};
use vstd::arithmetic::mul::{
    lemma_mul_inequality, lemma_mul_is_commutative, lemma_mul_is_distributive_add_other_way,
    lemma_mul_strict_upper_bound,
};
use vstd::arithmetic::power2::{
    lemma_pow2_adds, lemma_pow2_pos, lemma_pow2_strictly_increases, lemma2_to64, pow2,
};
use crate::types::{CoinSelectionOpt, ExcessStrategy, FeeRate, OutputGroup, SelectionError, WasteMetric};

verus! {

/// `ceil(a / b)` on the mathematical integers.
pub open spec fn ceil_div(a: nat, b: nat) -> nat
    recommends
        0 < b,
{
    ((a + b - 1) / b as int) as nat
}

/// The fee a weight incurs at the rate `num / 2^shift`: the product rounded
/// up to the next whole fee unit.
pub open spec fn fee_ceil(weight: nat, num: nat, shift: nat) -> nat {
    ceil_div(weight * num, pow2(shift))
}

/// The fee a weight incurs at a (finite, non-negative) rate.
pub open spec fn rate_fee(weight: nat, rate: FeeRate) -> nat
    recommends
        rate is Rate,
{
    fee_ceil(weight, rate->num as nat, rate->shift as nat)
}

/// The fee at a rate when it fits in 64 bits, and `fallback` otherwise.
/// The search algorithms substitute a fallback fee rather than abort when a
/// single weight prices beyond 64 bits.
pub open spec fn fee_or(weight: nat, rate: FeeRate, fallback: nat) -> nat
    recommends
        rate is Rate,
{
    if rate_fee(weight, rate) <= u64::MAX {
        rate_fee(weight, rate)
    } else {
        fallback
    }
}

/// An input's value minus the fee its own weight incurs, saturating at zero.
pub open spec fn effective_value_spec(group: OutputGroup, rate: FeeRate) -> nat
    recommends
        rate is Rate,
        rate_fee(group.weight as nat, rate) <= u64::MAX,
{
    if group.value as nat >= rate_fee(group.weight as nat, rate) {
        (group.value - rate_fee(group.weight as nat, rate)) as nat
    } else {
        0
    }
}

/// Overflow-checked addition; every accumulation in the library goes through
/// this, so a silent wrap cannot occur.
pub fn sum(a: u64, b: u64) -> (r: Result<u64, SelectionError>)
    ensures
        match r {
            Ok(s) => s == a + b,
            Err(e) => a + b > u64::MAX && e == SelectionError::ArithmeticOverflow,
        },
{
    if a > u64::MAX - b {
        Err(SelectionError::ArithmeticOverflow)
    } else {
        Ok(a + b)
    }
}

/// `2^e` as a 128-bit value.
fn pow2_u128(e: u32) -> (r: u128)
    requires
        e < 128,
    ensures
        r == pow2(e as nat),
{
    proof {
        vstd::arithmetic::power2::lemma2_to64();
    }
    let mut r: u128 = 1;
    let mut i: u32 = 0;
    while i < e
        invariant
            i <= e,
            e < 128,
            r == pow2(i as nat),
        decreases e - i,
    {
        proof {
            lemma_pow2_adds(i as nat, 1);
            lemma2_to64();
            lemma_pow2_128();
            if i + 1 < 128 {
                lemma_pow2_strictly_increases((i + 1) as nat, 128);
            }
        }
        r = r * 2;
        i = i + 1;
    }
    r
}

/// `pow2(128)` and a few large powers of two, concretely.
proof fn lemma_pow2_128()
    ensures
        pow2(128) == 0x100000000000000000000000000000000,
        pow2(88) == 0x10000000000000000000000,
        pow2(24) == 0x1000000,
        pow2(32) == 0x100000000,
        pow2(64) == 0x10000000000000000,
{
    lemma2_to64();
    lemma_pow2_adds(64, 64);
    lemma_pow2_adds(64, 24);
}

/// `pow2` is monotone.
proof fn lemma_pow2_le(e1: nat, e2: nat)
    requires
        e1 <= e2,
    ensures
        pow2(e1) <= pow2(e2),
{
    if e1 < e2 {
        lemma_pow2_strictly_increases(e1, e2);
    }
}

/// `ceil(p / d) == p / d + (1 if p % d > 0 else 0)` for positive `d`.
proof fn lemma_ceil_div_structure(p: nat, d: nat)
    requires
        0 < d,
    ensures
        p as int % (d as int) == 0 ==> ceil_div(p, d) == p as int / (d as int),
        p as int % (d as int) != 0 ==> ceil_div(p, d) == p as int / (d as int) + 1,
{
    let pi: int = p as int;
    let di: int = d as int;
    let q: int = pi / di;
    let rem: int = pi % di;
    lemma_fundamental_div_mod(pi, di);
    assert(pi == di * q + rem);
    if rem == 0 {
        assert(pi + di - 1 == q * di + (di - 1)) by {
            lemma_mul_is_commutative(di, q);
        }
        lemma_fundamental_div_mod_converse_div(pi + di - 1, di, q, di - 1);
    } else {
        assert(pi + di - 1 == (q + 1) * di + (rem - 1)) by {
            lemma_mul_is_distributive_add_other_way(di, q, 1);
            lemma_mul_is_commutative(di, q);
        }
        lemma_fundamental_div_mod_converse_div(pi + di - 1, di, q + 1, rem - 1);
    }
}

/// Computes `⌈weight × rate⌉`: the fee the given weight incurs now.
///
/// Fails with `InvalidFeeRate` when the rate is negative, infinite or NaN,
/// and with `ArithmeticOverflow` when the fee does not fit in 64 bits. A
/// zero rate is a valid zero fee.
pub fn calculate_fee(weight: u64, rate: &FeeRate) -> (r: Result<u64, SelectionError>)
    requires
        rate.wf(),
    ensures
        match r {
            Ok(f) => rate is Rate && f == rate_fee(weight as nat, *rate) && rate_fee(
                weight as nat,
                *rate,
            ) <= u64::MAX,
            Err(e) => (e == SelectionError::InvalidFeeRate && rate is Invalid) || (e
                == SelectionError::ArithmeticOverflow && rate is Rate && rate_fee(
                weight as nat,
                *rate,
            ) > u64::MAX),
        },
{
    match rate {
        FeeRate::Invalid => Err(SelectionError::InvalidFeeRate),
        FeeRate::Rate { num, shift } => {
            let num: u128 = *num;
            let shift: u32 = *shift;
            let ghost d = pow2(shift as nat);
            proof {
                lemma_pow2_pos(shift as nat);
            }
            if weight == 0 || num == 0 {
                proof {
                    assert(weight as nat * num as nat == 0) by {
                        vstd::arithmetic::mul::lemma_mul_by_zero_is_zero(weight as int);
                        vstd::arithmetic::mul::lemma_mul_by_zero_is_zero(num as int);
                    }
                    lemma_basic_div(d - 1, d as int);
                }
                Ok(0)
            } else if shift == 0 {
                // fee == weight * num exactly
                assert(d == 1) by {
                    assert(pow2(0) == 1) by {
                        lemma2_to64();
                    }
                }
                let w128 = weight as u128;
                let limit = u128::MAX / w128;
                proof {
                    lemma_fundamental_div_mod(u128::MAX as int, w128 as int);
                }
                if num > limit {
                    proof {
                        lemma_mul_inequality(limit + 1, num as int, w128 as int);
                        lemma_mul_is_distributive_add_other_way(w128 as int, limit as int, 1);
                        lemma_mul_is_commutative(limit + 1, w128 as int);
                        lemma_mul_is_commutative(num as int, w128 as int);
                        lemma_mul_is_commutative(limit as int, w128 as int);
                        assert(weight * num > u128::MAX);
                        assert(fee_ceil(weight as nat, num as nat, 0) == weight * num) by {
                            assert((weight * num + 1 - 1) / 1int == weight * num);
                        }
                    }
                    Err(SelectionError::ArithmeticOverflow)
                } else {
                    proof {
                        lemma_mul_inequality(num as int, limit as int, w128 as int);
                        lemma_mul_is_commutative(num as int, w128 as int);
                        lemma_mul_is_commutative(limit as int, w128 as int);
                        assert(weight * num <= u128::MAX);
                    }
                    let p = w128 * num;
                    proof {
                        assert(fee_ceil(weight as nat, num as nat, 0) == p) by {
                            assert((p + 1 - 1) / 1int == p as int);
                        }
                    }
                    if p > u64::MAX as u128 {
                        Err(SelectionError::ArithmeticOverflow)
                    } else {
                        Ok(p as u64)
                    }
                }
            } else {
                // normal form: num < 2^24, so the product fits well inside 128 bits
                proof {
                    lemma_pow2_128();
                    lemma_mul_strict_upper_bound(
                        weight as int,
                        0x10000000000000000,
                        num as int,
                        0x1000000,
                    );
                }
                let p = (weight as u128) * num;
                assert(p < 0x10000000000000000000000);
                if shift >= 88 {
                    // p < 2^88 <= 2^shift, and p > 0: the fee rounds up to 1
                    proof {
                        lemma_pow2_le(88, shift as nat);
                        vstd::arithmetic::mul::lemma_mul_strictly_positive(
                            weight as int,
                            num as int,
                        );
                        lemma_fundamental_div_mod_converse_div(p + d - 1, d as int, 1, p - 1);
                        assert(fee_ceil(weight as nat, num as nat, shift as nat) == 1);
                    }
                    Ok(1)
                } else {
                    let dd = pow2_u128(shift);
                    let q = p / dd;
                    let rem = p % dd;
                    proof {
                        lemma_ceil_div_structure(p as nat, d);
                    }
                    let f = if rem > 0 {
                        q + 1
                    } else {
                        q
                    };
                    assert(f == fee_ceil(weight as nat, num as nat, shift as nat));
                    if f > u64::MAX as u128 {
                        Err(SelectionError::ArithmeticOverflow)
                    } else {
                        Ok(f as u64)
                    }
                }
            }
        },
    }
}

/// A selection is a list of indices into the caller's inputs: each in
/// range, no index twice.
pub open spec fn valid_selection(sel: Seq<usize>, n: nat) -> bool {
    &&& forall|i: int| 0 <= i < sel.len() ==> (#[trigger] sel[i]) < n
    &&& forall|i: int, j: int| 0 <= i < j < sel.len() ==> sel[i] != sel[j]
}

/// Total value of the selected inputs.
pub open spec fn sum_values(inputs: Seq<OutputGroup>, sel: Seq<usize>) -> nat
    decreases sel.len(),
{
    if sel.len() == 0 {
        0
    } else {
        sum_values(inputs, sel.drop_last()) + inputs[sel.last() as int].value as nat
    }
}

/// Total weight of the selected inputs.
pub open spec fn sum_weights(inputs: Seq<OutputGroup>, sel: Seq<usize>) -> nat
    decreases sel.len(),
{
    if sel.len() == 0 {
        0
    } else {
        sum_weights(inputs, sel.drop_last()) + inputs[sel.last() as int].weight as nat
    }
}

/// An input's effective value as the exact matcher accounts it: the fee of
/// its weight, or `fallback` where that fee exceeds 64 bits, subtracted from
/// its value, saturating at zero.
pub open spec fn bnb_effective(group: OutputGroup, rate: FeeRate, fallback: nat) -> nat
    recommends
        rate is Rate,
{
    let f = fee_or(group.weight as nat, rate, fallback);
    if group.value as nat >= f {
        (group.value as nat - f) as nat
    } else {
        0
    }
}

/// Total effective value of the selected inputs, as the exact matcher
/// accounts it.
pub open spec fn sum_bnb_effective(
    inputs: Seq<OutputGroup>,
    sel: Seq<usize>,
    rate: FeeRate,
    fallback: nat,
) -> nat
    decreases sel.len(),
{
    if sel.len() == 0 {
        0
    } else {
        sum_bnb_effective(inputs, sel.drop_last(), rate, fallback) + bnb_effective(
            inputs[sel.last() as int],
            rate,
            fallback,
        )
    }
}

/// Total effective value of the selected inputs.
pub open spec fn sum_effective(inputs: Seq<OutputGroup>, sel: Seq<usize>, rate: FeeRate) -> nat
    decreases sel.len(),
{
    if sel.len() == 0 {
        0
    } else {
        sum_effective(inputs, sel.drop_last(), rate) + effective_value_spec(
            inputs[sel.last() as int],
            rate,
        )
    }
}

/// Total of the fees the selected inputs' own weights incur, one by one.
pub open spec fn sum_fees(inputs: Seq<OutputGroup>, sel: Seq<usize>, rate: FeeRate) -> nat
    decreases sel.len(),
{
    if sel.len() == 0 {
        0
    } else {
        sum_fees(inputs, sel.drop_last(), rate) + rate_fee(
            inputs[sel.last() as int].weight as nat,
            rate,
        )
    }
}

/// Appending one index adds that input's value to the total.
pub proof fn lemma_sum_values_push(inputs: Seq<OutputGroup>, sel: Seq<usize>, i: usize)
    ensures
        sum_values(inputs, sel.push(i)) == sum_values(inputs, sel) + inputs[i as int].value,
{
    assert(sel.push(i).drop_last() =~= sel);
    assert(sel.push(i).last() == i);
}

/// Appending one index adds that input's weight to the total.
pub proof fn lemma_sum_weights_push(inputs: Seq<OutputGroup>, sel: Seq<usize>, i: usize)
    ensures
        sum_weights(inputs, sel.push(i)) == sum_weights(inputs, sel) + inputs[i as int].weight,
{
    assert(sel.push(i).drop_last() =~= sel);
    assert(sel.push(i).last() == i);
}

/// Appending one index adds that input's effective value to the total.
pub proof fn lemma_sum_bnb_effective_push(
    inputs: Seq<OutputGroup>,
    sel: Seq<usize>,
    rate: FeeRate,
    fallback: nat,
    i: usize,
)
    ensures
        sum_bnb_effective(inputs, sel.push(i), rate, fallback) == sum_bnb_effective(
            inputs,
            sel,
            rate,
            fallback,
        ) + bnb_effective(inputs[i as int], rate, fallback),
{
    assert(sel.push(i).drop_last() =~= sel);
    assert(sel.push(i).last() == i);
}

/// Each input is worth at least its effective value, so a selection's value
/// covers its effective total.
pub proof fn lemma_sum_values_ge_bnb_effective(
    inputs: Seq<OutputGroup>,
    sel: Seq<usize>,
    rate: FeeRate,
    fallback: nat,
)
    ensures
        sum_values(inputs, sel) >= sum_bnb_effective(inputs, sel, rate, fallback),
    decreases sel.len(),
{
    if sel.len() > 0 {
        lemma_sum_values_ge_bnb_effective(inputs, sel.drop_last(), rate, fallback);
    }
}

/// Subtraction on the naturals, saturating at zero.
pub open spec fn sat_sub(a: nat, b: nat) -> nat {
    if a >= b {
        (a - b) as nat
    } else {
        0
    }
}

/// An exact copy of an index list.
pub fn clone_indices(v: &Vec<usize>) -> (r: Vec<usize>)
    ensures
        r@ == v@,
{
    let mut r: Vec<usize> = Vec::new();
    let mut k: usize = 0;
    while k < v.len()
        invariant
            k <= v@.len(),
            r@ == v@.subrange(0, k as int),
        decreases v@.len() - k,
    {
        r.push(v[k]);
        proof {
            assert(v@.subrange(0, k + 1) =~= v@.subrange(0, k as int).push(v@[k as int]));
        }
        k = k + 1;
    }
    proof {
        assert(v@.subrange(0, v@.len() as int) =~= v@);
    }
    r
}

/// A selection's total value is bounded by one maximal value per index.
pub proof fn lemma_sum_values_bound(inputs: Seq<OutputGroup>, sel: Seq<usize>)
    ensures
        sum_values(inputs, sel) <= sel.len() * (u64::MAX as nat),
    decreases sel.len(),
{
    if sel.len() == 0 {
    } else {
        lemma_sum_values_bound(inputs, sel.drop_last());
        assert((sel.len() - 1) * (u64::MAX as nat) + u64::MAX == sel.len() * (
        u64::MAX as nat)) by {
            lemma_mul_is_distributive_add_other_way(u64::MAX as int, sel.len() - 1, 1);
        }
    }
}

/// Concatenating two selections adds their totals.
pub proof fn lemma_sum_concat(inputs: Seq<OutputGroup>, s1: Seq<usize>, s2: Seq<usize>)
    ensures
        sum_values(inputs, s1 + s2) == sum_values(inputs, s1) + sum_values(inputs, s2),
        sum_weights(inputs, s1 + s2) == sum_weights(inputs, s1) + sum_weights(inputs, s2),
    decreases s2.len(),
{
    if s2.len() == 0 {
        assert(s1 + s2 =~= s1);
    } else {
        assert((s1 + s2).drop_last() =~= s1 + s2.drop_last());
        assert((s1 + s2).last() == s2.last());
        lemma_sum_concat(inputs, s1, s2.drop_last());
    }
}

/// The amount a selection must reach before its own fee: the target, the
/// larger of the base-weight fee and the absolute fee floor, and the minimum
/// worthwhile change.
pub open spec fn adjusted_target(opt: CoinSelectionOpt) -> nat
    recommends
        opt.target_feerate is Rate,
{
    let bf = rate_fee(opt.base_weight as nat, opt.target_feerate);
    let floor = if bf >= opt.min_absolute_fee {
        bf
    } else {
        opt.min_absolute_fee as nat
    };
    (opt.target_value + floor + opt.min_change_value) as nat
}

/// A zero weight incurs no fee.
pub proof fn lemma_rate_fee_zero(rate: FeeRate)
    ensures
        rate_fee(0, rate) == 0,
{
    let shift = rate->shift as nat;
    lemma_pow2_pos(shift);
    assert((0 as nat) * (rate->num as nat) == 0) by {
        vstd::arithmetic::mul::lemma_mul_by_zero_is_zero(rate->num as int);
    }
    lemma_basic_div(pow2(shift) - 1, pow2(shift) as int);
}

/// A heavier weight never incurs a smaller fee at the same rate.
pub proof fn lemma_rate_fee_monotonic_weight(w1: nat, w2: nat, rate: FeeRate)
    requires
        w1 <= w2,
    ensures
        rate_fee(w1, rate) <= rate_fee(w2, rate),
{
    let num = rate->num as nat;
    let shift = rate->shift as nat;
    lemma_pow2_pos(shift);
    lemma_mul_inequality(w1 as int, w2 as int, num as int);
    vstd::arithmetic::div_mod::lemma_div_is_ordered(
        w1 * num + pow2(shift) - 1,
        w2 * num + pow2(shift) - 1,
        pow2(shift) as int,
    );
}

/// Value of every input together.
pub open spec fn total_value(inputs: Seq<OutputGroup>) -> nat
    decreases inputs.len(),
{
    if inputs.len() == 0 {
        0
    } else {
        total_value(inputs.drop_last()) + inputs.last().value as nat
    }
}

/// Weight of every input together.
pub open spec fn total_weight(inputs: Seq<OutputGroup>) -> nat
    decreases inputs.len(),
{
    if inputs.len() == 0 {
        0
    } else {
        total_weight(inputs.drop_last()) + inputs.last().weight as nat
    }
}

/// Removing one position from a selection removes exactly that input's
/// value and weight from the totals.
pub proof fn lemma_sum_remove(inputs: Seq<OutputGroup>, sel: Seq<usize>, k: int)
    requires
        0 <= k < sel.len(),
    ensures
        sum_values(inputs, sel) == sum_values(inputs, sel.remove(k)) + inputs[sel[k] as int].value,
        sum_weights(inputs, sel) == sum_weights(inputs, sel.remove(k)) + inputs[sel[k] as int].weight,
    decreases sel.len(),
{
    if k == sel.len() - 1 {
        assert(sel.remove(k) =~= sel.drop_last());
    } else {
        let s = sel.drop_last();
        assert(sel.remove(k).drop_last() =~= s.remove(k));
        assert(sel.remove(k).last() == sel.last());
        lemma_sum_remove(inputs, s, k);
        assert(s[k] == sel[k]);
    }
}

/// Two input sequences that agree at every selected position give a
/// selection the same totals.
pub proof fn lemma_sum_agree(inputs1: Seq<OutputGroup>, inputs2: Seq<OutputGroup>, sel: Seq<usize>)
    requires
        forall|t: int|
            0 <= t < sel.len() ==> (#[trigger] sel[t]) < inputs1.len() && sel[t] < inputs2.len()
                && inputs1[sel[t] as int] == inputs2[sel[t] as int],
    ensures
        sum_values(inputs1, sel) == sum_values(inputs2, sel),
        sum_weights(inputs1, sel) == sum_weights(inputs2, sel),
    decreases sel.len(),
{
    if sel.len() > 0 {
        assert(forall|t: int| 0 <= t < sel.drop_last().len() ==> sel.drop_last()[t] == sel[t]);
        lemma_sum_agree(inputs1, inputs2, sel.drop_last());
    }
}

/// A selection of `n` distinct in-range indices over `n` inputs hits every
/// value below `n`.
pub proof fn lemma_selection_onto(sel: Seq<usize>, n: nat, v: usize)
    requires
        valid_selection(sel, n),
        sel.len() == n,
        n <= usize::MAX,
        (v as nat) < n,
    ensures
        exists|k: int| 0 <= k < sel.len() && sel[k] == v,
{
    broadcast use vstd::seq_lib::seq_to_set_is_finite;
    broadcast use vstd::set::group_set_axioms;

    let ints = sel.map_values(|u: usize| u as int);
    assert(ints.no_duplicates()) by {
        assert forall|i: int, j: int|
            0 <= i < ints.len() && 0 <= j < ints.len() && i != j implies ints[i] != ints[j] by {
            if i < j {
                assert(sel[i] != sel[j]);
            } else {
                assert(sel[j] != sel[i]);
            }
        }
    }
    ints.unique_seq_to_set();
    vstd::set_lib::lemma_int_range(0, n as int);
    assert(ints.to_set().subset_of(vstd::set_lib::set_int_range(0, n as int))) by {
        assert forall|e: int| ints.to_set().contains(e) implies vstd::set_lib::set_int_range(
            0,
            n as int,
        ).contains(e) by {
            assert(ints.contains(e));
            let t = choose|t: int| 0 <= t < ints.len() && ints[t] == e;
            assert(sel[t] < n);
        }
    }
    vstd::set_lib::lemma_subset_equality(
        ints.to_set(),
        vstd::set_lib::set_int_range(0, n as int),
    );
    assert(vstd::set_lib::set_int_range(0, n as int).contains(v as int));
    assert(ints.to_set().contains(v as int));
    assert(ints.contains(v as int));
    let k = choose|k: int| 0 <= k < ints.len() && ints[k] == v as int;
    assert(sel[k] == v);
}

/// A selection of distinct in-range indices never accumulates more value or
/// weight than the whole input list holds.
pub proof fn lemma_selection_le_total(inputs: Seq<OutputGroup>, sel: Seq<usize>)
    requires
        valid_selection(sel, inputs.len()),
        inputs.len() <= usize::MAX,
    ensures
        sum_values(inputs, sel) <= total_value(inputs),
        sum_weights(inputs, sel) <= total_weight(inputs),
    decreases inputs.len(),
{
    let n = inputs.len();
    if n == 0 {
        if sel.len() > 0 {
            assert(sel[0] < 0);
        }
    } else {
        let lastv: usize = (n - 1) as usize;
        if sel.contains(lastv) {
            let k = choose|k: int| 0 <= k < sel.len() && sel[k] == lastv;
            lemma_sum_remove(inputs, sel, k);
            let rest = sel.remove(k);
            assert(valid_selection(rest, (n - 1) as nat)) by {
                assert forall|i: int| 0 <= i < rest.len() implies (#[trigger] rest[i]) < n - 1 by {
                    let orig = if i < k {
                        i
                    } else {
                        i + 1
                    };
                    assert(rest[i] == sel[orig]);
                    assert(sel[orig] != sel[k]);
                }
                assert forall|i: int, j: int|
                    0 <= i < j < rest.len() implies rest[i] != rest[j] by {
                    let oi = if i < k {
                        i
                    } else {
                        i + 1
                    };
                    let oj = if j < k {
                        j
                    } else {
                        j + 1
                    };
                    assert(rest[i] == sel[oi]);
                    assert(rest[j] == sel[oj]);
                }
            }
            lemma_selection_le_total(inputs.drop_last(), rest);
            assert forall|t: int|
                0 <= t < rest.len() implies (#[trigger] rest[t]) < inputs.len() && rest[t]
                < inputs.drop_last().len() && inputs[rest[t] as int] == inputs.drop_last()[rest[t] as int] by {
                assert(rest[t] < n - 1);
            }
            lemma_sum_agree(inputs, inputs.drop_last(), rest);
            assert(inputs[sel[k] as int] == inputs.last());
        } else {
            assert(valid_selection(sel, (n - 1) as nat)) by {
                assert forall|i: int| 0 <= i < sel.len() implies (#[trigger] sel[i]) < n - 1 by {
                    assert(sel[i] != lastv);
                }
            }
            lemma_selection_le_total(inputs.drop_last(), sel);
            assert forall|t: int|
                0 <= t < sel.len() implies (#[trigger] sel[t]) < inputs.len() && sel[t]
                < inputs.drop_last().len() && inputs[sel[t] as int] == inputs.drop_last()[sel[t] as int] by {
                assert(sel[t] < n - 1);
            }
            lemma_sum_agree(inputs, inputs.drop_last(), sel);
        }
    }
}

/// A selection that uses each of the `n` inputs once accumulates exactly
/// the totals of the whole input list.
pub proof fn lemma_selection_total(inputs: Seq<OutputGroup>, sel: Seq<usize>)
    requires
        valid_selection(sel, inputs.len()),
        sel.len() == inputs.len(),
        inputs.len() <= usize::MAX,
    ensures
        sum_values(inputs, sel) == total_value(inputs),
        sum_weights(inputs, sel) == total_weight(inputs),
    decreases inputs.len(),
{
    let n = inputs.len();
    if n > 0 {
        let last: usize = (n - 1) as usize;
        lemma_selection_onto(sel, n, last);
        let k = choose|k: int| 0 <= k < sel.len() && sel[k] == last;
        lemma_sum_remove(inputs, sel, k);
        let rest = sel.remove(k);
        assert(valid_selection(rest, (n - 1) as nat)) by {
            assert forall|i: int| 0 <= i < rest.len() implies (rest[i]) < n - 1 by {
                let orig = if i < k {
                    i
                } else {
                    i + 1
                };
                assert(rest[i] == sel[orig]);
                assert(sel[orig] != last);
            }
            assert forall|i: int, j: int| 0 <= i < j < rest.len() implies rest[i] != rest[j] by {
                let oi = if i < k {
                    i
                } else {
                    i + 1
                };
                let oj = if j < k {
                    j
                } else {
                    j + 1
                };
                assert(rest[i] == sel[oi]);
                assert(rest[j] == sel[oj]);
            }
        }
        lemma_selection_total(inputs.drop_last(), rest);
        assert forall|t: int|
            0 <= t < rest.len() implies (#[trigger] rest[t]) < inputs.len() && rest[t]
            < inputs.drop_last().len() && inputs[rest[t] as int] == inputs.drop_last()[rest[t] as int] by {
            assert(rest[t] < n - 1);
        }
        lemma_sum_agree(inputs, inputs.drop_last(), rest);
        assert(inputs[sel[k] as int] == inputs.last());
    }
}

/// Surplus of a selection's value over the target and the current fee; it
/// may be negative.
pub open spec fn excess_of(opt: CoinSelectionOpt, total_value: nat, fee: nat) -> int {
    total_value - opt.target_value - fee
}

/// Whether a change output is created: surplus goes to change and reaches
/// the minimum worthwhile amount.
pub open spec fn has_change(opt: CoinSelectionOpt, total_value: nat, fee: nat) -> bool {
    opt.excess_strategy is ToChange && excess_of(opt, total_value, fee) >= opt.min_change_value
}

/// The long-term cost of the selected weight, `weight × long_term_feerate`,
/// scaled by `2^32` and rounded down. Zero when no long-term rate is given
/// (an invalid one counts as not given).
pub open spec fn long_term_component(weight: nat, ltf: Option<FeeRate>) -> nat {
    match ltf {
        Option::None => 0,
        Option::Some(rate) => match rate {
            FeeRate::Invalid => 0,
            FeeRate::Rate { num, shift } => (weight * (num as nat) * pow2(32)) / pow2(shift as nat),
        },
    }
}

/// The waste of a selection, scaled by `2^32`: the current fee, minus what
/// the same weight would cost at the long-term rate, plus the change cost if
/// change is created and the (possibly negative) excess otherwise.
pub open spec fn waste_ideal(opt: CoinSelectionOpt, total_value: nat, total_weight: nat, fee: nat) -> int {
    let extra: int = if has_change(opt, total_value, fee) {
        opt.change_cost as int
    } else {
        excess_of(opt, total_value, fee)
    };
    (fee + extra) * pow2(32) - long_term_component(total_weight, opt.long_term_feerate)
}

/// The waste score that is actually stored: the scaled waste, clamped to
/// `i128::MIN` once it falls below `-2^125` (possible only under an
/// astronomically large long-term rate).
pub open spec fn waste_spec(opt: CoinSelectionOpt, total_value: nat, total_weight: nat, fee: nat) -> int {
    if waste_ideal(opt, total_value, total_weight, fee) < -0x20000000000000000000000000000000 {
        i128::MIN as int
    } else {
        waste_ideal(opt, total_value, total_weight, fee)
    }
}

/// Computes the waste of a selection with the given totals and fee; lower is
/// better, and the result may be negative.
pub fn calculate_waste(
    options: &CoinSelectionOpt,
    total_value: u64,
    total_weight: u64,
    fee: u64,
) -> (w: WasteMetric)
    requires
        options.wf(),
    ensures
        w.0 == waste_spec(*options, total_value as nat, total_weight as nat, fee as nat),
{
    proof {
        lemma_pow2_128();
    }
    let excess: i128 = total_value as i128 - options.target_value as i128 - fee as i128;
    let chg: bool = match options.excess_strategy {
        ExcessStrategy::ToChange => excess >= options.min_change_value as i128,
        _ => false,
    };
    let extra: i128 = if chg {
        options.change_cost as i128
    } else {
        excess
    };
    let base: i128 = (fee as i128 + extra) * 0x100000000i128;
    let ghost lt = long_term_component(total_weight as nat, options.long_term_feerate);
    // The long-term component: either exactly `t`, or known to exceed any
    // magnitude the rest of the computation can reach.
    let mut huge: bool = false;
    let mut t: u128 = 0;
    match &options.long_term_feerate {
        Option::None => {},
        Option::Some(FeeRate::Invalid) => {},
        Option::Some(FeeRate::Rate { num, shift }) => {
            let num: u128 = *num;
            let shift: u32 = *shift;
            proof {
                lemma_pow2_pos(shift as nat);
            }
            if total_weight == 0 || num == 0 {
                proof {
                    assert(total_weight as nat * num as nat == 0) by {
                        vstd::arithmetic::mul::lemma_mul_by_zero_is_zero(total_weight as int);
                        vstd::arithmetic::mul::lemma_mul_by_zero_is_zero(num as int);
                    }
                    assert((0 as nat) * pow2(32) == 0) by {
                        vstd::arithmetic::mul::lemma_mul_by_zero_is_zero(pow2(32) as int);
                    }
                    lemma_basic_div(0, pow2(shift as nat) as int);
                }
            } else if shift == 0 {
                assert(pow2(shift as nat) == 1) by {
                    lemma2_to64();
                }
                let w128 = total_weight as u128;
                let limit = u128::MAX / w128;
                proof {
                    lemma_fundamental_div_mod(u128::MAX as int, w128 as int);
                }
                if num > limit {
                    proof {
                        lemma_mul_inequality(limit + 1, num as int, w128 as int);
                        lemma_mul_is_distributive_add_other_way(w128 as int, limit as int, 1);
                        lemma_mul_is_commutative(limit + 1, w128 as int);
                        lemma_mul_is_commutative(num as int, w128 as int);
                        lemma_mul_is_commutative(limit as int, w128 as int);
                        assert(total_weight as int * num as int > u128::MAX);
                        lemma_mul_inequality(
                            0x100000000000000000000000000000000int,
                            total_weight as int * num as int,
                            pow2(32) as int,
                        );
                        lemma_div_multiples_vanish(
                            (total_weight as nat * num as nat * pow2(32)) as int,
                            1,
                        );
                        assert(lt > base + 0x20000000000000000000000000000000);
                    }
                    huge = true;
                } else {
                    proof {
                        lemma_mul_inequality(num as int, limit as int, w128 as int);
                        lemma_mul_is_commutative(num as int, w128 as int);
                        lemma_mul_is_commutative(limit as int, w128 as int);
                        assert(w128 as int * num as int <= u128::MAX);
                    }
                    let p = w128 * num;
                    if p > 0xffffffffffffffffffffffff {
                        // p · 2^32 exceeds 128 bits, so the component dwarfs `base`
                        proof {
                            lemma_mul_inequality(
                                0x1000000000000000000000000,
                                p as int,
                                pow2(32) as int,
                            );
                            lemma_div_multiples_vanish((p as nat * pow2(32)) as int, 1);
                            assert(lt > base + 0x20000000000000000000000000000000);
                        }
                        huge = true;
                    } else {
                        t = p * 0x100000000u128;
                        proof {
                            lemma_div_multiples_vanish((p as nat * pow2(32)) as int, 1);
                            assert(t == lt);
                        }
                    }
                }
            } else {
                // normal form: num < 2^24, so p < 2^88
                proof {
                    lemma_mul_strict_upper_bound(
                        total_weight as int,
                        0x10000000000000000,
                        num as int,
                        0x1000000,
                    );
                }
                let p = (total_weight as u128) * num;
                assert(p < 0x10000000000000000000000);
                if shift <= 32 {
                    let m = pow2_u128(32 - shift);
                    proof {
                        lemma_pow2_le((32 - shift) as nat, 32);
                        lemma_mul_inequality(m as int, pow2(32) as int, p as int);
                        lemma_mul_is_commutative(m as int, p as int);
                        lemma_mul_is_commutative(pow2(32) as int, p as int);
                        vstd::arithmetic::mul::lemma_mul_upper_bound(
                            p as int,
                            0x10000000000000000000000,
                            pow2(32) as int,
                            0x100000000,
                        );
                    }
                    t = p * m;
                    proof {
                        // p·2^32 == (p·2^(32−shift))·2^shift, so dividing by 2^shift is exact
                        lemma_pow2_adds((32 - shift) as nat, shift as nat);
                        vstd::arithmetic::mul::lemma_mul_is_associative(
                            p as int,
                            m as int,
                            pow2(shift as nat) as int,
                        );
                        lemma_div_multiples_vanish(
                            (p * m) as int,
                            pow2(shift as nat) as int,
                        );
                        lemma_mul_is_commutative(
                            pow2(shift as nat) as int,
                            (p * m) as int,
                        );
                        assert(t == lt);
                    }
                } else {
                    // dividing by 2^shift loses the 32 scale bits and then some
                    proof {
                        lemma_pow2_adds(32, (shift - 32) as nat);
                        lemma_div_denominator(
                            (p as nat * pow2(32)) as int,
                            pow2(32) as int,
                            pow2((shift - 32) as nat) as int,
                        );
                        lemma_mul_is_commutative(p as int, pow2(32) as int);
                        lemma_div_multiples_vanish(p as int, pow2(32) as int);
                        lemma_pow2_pos((shift - 32) as nat);
                        assert(lt == p as nat / pow2((shift - 32) as nat));
                    }
                    if shift - 32 >= 88 {
                        proof {
                            lemma_pow2_le(88, (shift - 32) as nat);
                            lemma_basic_div(p as int, pow2((shift - 32) as nat) as int);
                        }
                        t = 0;
                    } else {
                        let d2 = pow2_u128(shift - 32);
                        t = p / d2;
                    }
                    assert(t == lt);
                }
            }
        },
    }
    if huge {
        return WasteMetric(i128::MIN);
    }
    // waste = base − t, clamped below at −2^125 → i128::MIN
    let threshold: u128 = if base >= 0 {
        (base as u128) + 0x20000000000000000000000000000000u128
    } else {
        0x20000000000000000000000000000000u128 - ((-base) as u128)
    };
    assert(threshold == base + 0x20000000000000000000000000000000);
    if t > threshold {
        WasteMetric(i128::MIN)
    } else {
        WasteMetric(base - t as i128)
    }
}

/// An input's value minus the fee its weight incurs, saturating at zero.
pub fn effective_value(output: &OutputGroup, rate: &FeeRate) -> (r: Result<u64, SelectionError>)
    requires
        rate.wf(),
    ensures
        match r {
            Ok(v) => rate is Rate && rate_fee(output.weight as nat, *rate) <= u64::MAX && v
                == effective_value_spec(*output, *rate),
            Err(e) => (e == SelectionError::InvalidFeeRate && rate is Invalid) || (e
                == SelectionError::ArithmeticOverflow && rate is Rate && rate_fee(
                output.weight as nat,
                *rate,
            ) > u64::MAX),
        },
{
    match calculate_fee(output.weight, rate) {
        Err(e) => Err(e),
        Ok(fee) => Ok(
            if output.value >= fee {
                output.value - fee
            } else {
                0
            },
        ),
    }
}

} // verus!
