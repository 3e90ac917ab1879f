//! A randomised knapsack approximation: many trials over shuffled input
//! orders, each greedily covering the target and then shedding inputs it
//! can do without, keeping the trial that wastes least.

use vstd::prelude::*;
use crate::types::{CoinSelectionOpt, OutputGroup, SelectionError, SelectionOutput, WasteMetric};
use crate::utils::{
    adjusted_target, calculate_fee, calculate_waste, lemma_rate_fee_monotonic_weight,
    lemma_rate_fee_zero, lemma_selection_le_total, lemma_selection_total, lemma_sum_remove,
    lemma_sum_values_push, lemma_sum_weights_push, rate_fee, sum, sum_values, sum_weights,
    total_value, total_weight, valid_selection, waste_spec,
};

verus! {

/// How many shuffled orders one call explores.
pub const KNAPSACK_TRIALS: u32 = 100000;

/// The seed behind [`select_coin_knapsack`]; any fixed seed keeps the
/// function deterministic.
pub const KNAPSACK_DEFAULT_SEED: u64 = 0x9E3779B97F4A7C15;

/// A small xorshift-style generator; the seed pins the whole sequence, so
/// selection stays a pure function of its arguments.
struct Rng {
    state: u64,
}

impl Rng {
    fn next_value(&mut self) -> u64 {
        let mut x = self.state;
        x = x ^ (x >> 12);
        x = x ^ (x << 25);
        x = x ^ (x >> 27);
        if x == 0 {
            x = 0x6A09E667F3BCC909;
        }
        self.state = x;
        ((x as u128 * 0x2545F4914F6CDD1Du128) % 0x10000000000000000u128) as u64
    }
}

/// Swapping two positions keeps a selection valid.
proof fn lemma_swap_valid(s1: Seq<usize>, s2: Seq<usize>, i: int, j: int, n: nat)
    requires
        valid_selection(s1, n),
        0 <= i < s1.len(),
        0 <= j < s1.len(),
        s2 == s1.update(i, s1[j]).update(j, s1[i]),
    ensures
        valid_selection(s2, n),
        s2.len() == s1.len(),
{
    assert forall|a: int, b: int| 0 <= a < b < s2.len() implies s2[a] != s2[b] by {
        let fa: int = if a == j {
            i
        } else if a == i {
            j
        } else {
            a
        };
        let fb: int = if b == j {
            i
        } else if b == i {
            j
        } else {
            b
        };
        assert(s2[a] == s1[fa]);
        assert(s2[b] == s1[fb]);
    }
    assert forall|a: int| 0 <= a < s2.len() implies (s2[a]) < n by {
        if a == j {
            assert(s2[a] == s1[i]);
        } else if a == i {
            assert(s2[a] == s1[j]);
        } else {
            assert(s2[a] == s1[a]);
        }
    }
}

/// Removing one position keeps a selection valid.
proof fn lemma_remove_valid(s: Seq<usize>, k: int, n: nat)
    requires
        valid_selection(s, n),
        0 <= k < s.len(),
    ensures
        valid_selection(s.remove(k), n),
{
    let r = s.remove(k);
    assert forall|a: int, b: int| 0 <= a < b < r.len() implies r[a] != r[b] by {
        let oa: int = if a < k {
            a
        } else {
            a + 1
        };
        let ob: int = if b < k {
            b
        } else {
            b + 1
        };
        assert(r[a] == s[oa]);
        assert(r[b] == s[ob]);
    }
    assert forall|a: int| 0 <= a < r.len() implies (r[a]) < n by {
        let oa: int = if a < k {
            a
        } else {
            a + 1
        };
        assert(r[a] == s[oa]);
    }
}

/// Knapsack selection with the library's fixed seed.
pub fn select_coin_knapsack(inputs: &[OutputGroup], options: &CoinSelectionOpt) -> (r: Result<
    SelectionOutput,
    SelectionError,
>)
    requires
        options.wf(),
    ensures
        match r {
            Ok(out) => {
                &&& options.target_feerate is Rate
                &&& valid_selection(out.selected_inputs@, inputs@.len())
                &&& rate_fee(sum_weights(inputs@, out.selected_inputs@), options.target_feerate)
                    <= u64::MAX
                &&& sum_values(inputs@, out.selected_inputs@) >= adjusted_target(*options)
                    + rate_fee(sum_weights(inputs@, out.selected_inputs@), options.target_feerate)
                &&& out.waste.0 == waste_spec(
                    *options,
                    sum_values(inputs@, out.selected_inputs@),
                    sum_weights(inputs@, out.selected_inputs@),
                    rate_fee(sum_weights(inputs@, out.selected_inputs@), options.target_feerate),
                )
            },
            Err(e) => match e {
                SelectionError::InvalidFeeRate => options.target_feerate is Invalid,
                SelectionError::InsufficientFunds => options.target_feerate is Rate
                    && adjusted_target(*options) <= u64::MAX && adjusted_target(*options)
                    + rate_fee(total_weight(inputs@), options.target_feerate) <= u64::MAX
                    && total_value(inputs@) < adjusted_target(*options) + rate_fee(
                    total_weight(inputs@),
                    options.target_feerate,
                ),
                SelectionError::ArithmeticOverflow => total_value(inputs@) > u64::MAX
                    || total_weight(inputs@) > u64::MAX || (options.target_feerate is Rate && (
                rate_fee(options.base_weight as nat, options.target_feerate) > u64::MAX
                    || adjusted_target(*options) > u64::MAX || rate_fee(
                    total_weight(inputs@),
                    options.target_feerate,
                ) > u64::MAX || adjusted_target(*options) + rate_fee(
                    total_weight(inputs@),
                    options.target_feerate,
                ) > u64::MAX)),
                _ => false,
            },
        },
        // success is owed once the whole input list covers the requirement
        ({
            &&& options.target_feerate is Rate
            &&& total_value(inputs@) <= u64::MAX
            &&& total_weight(inputs@) <= u64::MAX
            &&& rate_fee(options.base_weight as nat, options.target_feerate) <= u64::MAX
            &&& adjusted_target(*options) <= u64::MAX
            &&& rate_fee(total_weight(inputs@), options.target_feerate) <= u64::MAX
            &&& adjusted_target(*options) + rate_fee(total_weight(inputs@), options.target_feerate)
                <= u64::MAX
            &&& total_value(inputs@) >= adjusted_target(*options) + rate_fee(
                total_weight(inputs@),
                options.target_feerate,
            )
        }) ==> r is Ok,
{
    select_coin_knapsack_with_seed(inputs, options, KNAPSACK_DEFAULT_SEED)
}

/// Knapsack selection from an explicit seed, for callers and tests that
/// want to pin or vary the explored orders.
pub fn select_coin_knapsack_with_seed(
    inputs: &[OutputGroup],
    options: &CoinSelectionOpt,
    seed: u64,
) -> (r: Result<SelectionOutput, SelectionError>)
    requires
        options.wf(),
    ensures
        match r {
            Ok(out) => {
                &&& options.target_feerate is Rate
                &&& valid_selection(out.selected_inputs@, inputs@.len())
                &&& rate_fee(sum_weights(inputs@, out.selected_inputs@), options.target_feerate)
                    <= u64::MAX
                &&& sum_values(inputs@, out.selected_inputs@) >= adjusted_target(*options)
                    + rate_fee(sum_weights(inputs@, out.selected_inputs@), options.target_feerate)
                &&& out.waste.0 == waste_spec(
                    *options,
                    sum_values(inputs@, out.selected_inputs@),
                    sum_weights(inputs@, out.selected_inputs@),
                    rate_fee(sum_weights(inputs@, out.selected_inputs@), options.target_feerate),
                )
            },
            Err(e) => match e {
                SelectionError::InvalidFeeRate => options.target_feerate is Invalid,
                SelectionError::InsufficientFunds => options.target_feerate is Rate
                    && adjusted_target(*options) <= u64::MAX && adjusted_target(*options)
                    + rate_fee(total_weight(inputs@), options.target_feerate) <= u64::MAX
                    && total_value(inputs@) < adjusted_target(*options) + rate_fee(
                    total_weight(inputs@),
                    options.target_feerate,
                ),
                SelectionError::ArithmeticOverflow => total_value(inputs@) > u64::MAX
                    || total_weight(inputs@) > u64::MAX || (options.target_feerate is Rate && (
                rate_fee(options.base_weight as nat, options.target_feerate) > u64::MAX
                    || adjusted_target(*options) > u64::MAX || rate_fee(
                    total_weight(inputs@),
                    options.target_feerate,
                ) > u64::MAX || adjusted_target(*options) + rate_fee(
                    total_weight(inputs@),
                    options.target_feerate,
                ) > u64::MAX)),
                _ => false,
            },
        },
        // success is owed once the whole input list covers the requirement
        ({
            &&& options.target_feerate is Rate
            &&& total_value(inputs@) <= u64::MAX
            &&& total_weight(inputs@) <= u64::MAX
            &&& rate_fee(options.base_weight as nat, options.target_feerate) <= u64::MAX
            &&& adjusted_target(*options) <= u64::MAX
            &&& rate_fee(total_weight(inputs@), options.target_feerate) <= u64::MAX
            &&& adjusted_target(*options) + rate_fee(total_weight(inputs@), options.target_feerate)
                <= u64::MAX
            &&& total_value(inputs@) >= adjusted_target(*options) + rate_fee(
                total_weight(inputs@),
                options.target_feerate,
            )
        }) ==> r is Ok,
{
    let n = inputs.len();
    let base_fee = match calculate_fee(options.base_weight, &options.target_feerate) {
        Ok(v) => v,
        Err(err) => {
            return Err(err);
        },
    };
    let floor = if base_fee >= options.min_absolute_fee {
        base_fee
    } else {
        options.min_absolute_fee
    };
    let with_mc = match sum(options.target_value, options.min_change_value) {
        Ok(v) => v,
        Err(err) => {
            return Err(err);
        },
    };
    let target = match sum(with_mc, floor) {
        Ok(v) => v,
        Err(err) => {
            return Err(err);
        },
    };
    assert(target == adjusted_target(*options));
    proof {
        lemma_rate_fee_zero(options.target_feerate);
    }

    let mut rng = Rng { state: if seed == 0 { 0x243F6A8885A308D3 } else { seed } };
    let mut perm: Vec<usize> = Vec::new();
    let mut k: usize = 0;
    while k < n
        invariant
            k <= n,
            n == inputs@.len(),
            perm@.len() == k,
            forall|t: int| 0 <= t < k ==> (#[trigger] perm@[t]) == t,
        decreases n - k,
    {
        perm.push(k);
        k = k + 1;
    }
    assert(valid_selection(perm@, n as nat));

    let mut best_found: bool = false;
    let mut best_sel: Vec<usize> = Vec::new();
    let mut best_val: u64 = 0;
    let mut best_wt: u64 = 0;
    let mut best_waste: i128 = 0;
    let mut trial: u32 = 0;
    let mut insufficient: bool = false;
    while trial < KNAPSACK_TRIALS && !insufficient
        invariant
            options.wf(),
            options.target_feerate is Rate,
            n == inputs@.len(),
            target == adjusted_target(*options),
            rate_fee(0, options.target_feerate) == 0,
            perm@.len() == n,
            valid_selection(perm@, n as nat),
            best_found ==> {
                &&& valid_selection(best_sel@, n as nat)
                &&& best_val == sum_values(inputs@, best_sel@)
                &&& best_wt == sum_weights(inputs@, best_sel@)
                &&& rate_fee(best_wt as nat, options.target_feerate) <= u64::MAX
                &&& best_val >= target + rate_fee(best_wt as nat, options.target_feerate)
                &&& best_waste == waste_spec(
                    *options,
                    best_val as nat,
                    best_wt as nat,
                    rate_fee(best_wt as nat, options.target_feerate),
                )
            },
            insufficient ==> target + rate_fee(total_weight(inputs@), options.target_feerate)
                <= u64::MAX && total_value(inputs@) < target + rate_fee(
                total_weight(inputs@),
                options.target_feerate,
            ),
            trial > 0 ==> best_found || insufficient,
        decreases KNAPSACK_TRIALS - trial,
    {
        // shuffle
        let mut i: usize = n;
        while i > 1
            invariant
                i <= n,
                n == inputs@.len(),
                perm@.len() == n,
                valid_selection(perm@, n as nat),
            decreases i,
        {
            i = i - 1;
            let roll = rng.next_value();
            let j = (roll % (i as u64 + 1)) as usize;
            let ghost before = perm@;
            let pi = perm[i];
            let pj = perm[j];
            perm[i] = pj;
            perm[j] = pi;
            proof {
                lemma_swap_valid(before, perm@, i as int, j as int, n as nat);
            }
        }

        // accumulate in shuffled order until covered
        let mut sel: Vec<usize> = Vec::new();
        let mut acc_value: u64 = 0;
        let mut acc_weight: u64 = 0;
        let mut est: u64 = 0;
        let mut covered: bool = false;
        let mut p: usize = 0;
        if target == 0 {
            covered = true;
        }
        while p < n && !covered
            invariant
                options.wf(),
                options.target_feerate is Rate,
                n == inputs@.len(),
                target == adjusted_target(*options),
                rate_fee(0, options.target_feerate) == 0,
                perm@.len() == n,
                valid_selection(perm@, n as nat),
                p <= n,
                sel@.len() == p,
                forall|t: int| 0 <= t < p ==> (#[trigger] sel@[t]) == perm@[t],
                valid_selection(sel@, n as nat),
                acc_value == sum_values(inputs@, sel@),
                acc_weight == sum_weights(inputs@, sel@),
                est == rate_fee(acc_weight as nat, options.target_feerate),
                covered ==> acc_value >= target + est,
                !covered ==> target > 0,
                (!covered && p > 0) ==> target + est <= u64::MAX && acc_value < target + est,
            decreases n - p,
        {
            let idx = perm[p];
            let g = inputs[idx];
            proof {
                assert forall|t: int| 0 <= t < sel@.len() implies (#[trigger] sel@[t]) != idx by {
                    assert(sel@[t] == perm@[t]);
                    assert(perm@[t] != perm@[p as int]);
                }
            }
            let ghost prev_sel = sel@;
            acc_value = match sum(acc_value, g.value) {
                Ok(v) => v,
                Err(err) => {
                    proof {
                        lemma_knapsack_extend(inputs@, prev_sel, idx, n as nat);
                    }
                    return Err(err);
                },
            };
            acc_weight = match sum(acc_weight, g.weight) {
                Ok(v) => v,
                Err(err) => {
                    proof {
                        lemma_knapsack_extend(inputs@, prev_sel, idx, n as nat);
                    }
                    return Err(err);
                },
            };
            sel.push(idx);
            proof {
                lemma_sum_values_push(inputs@, prev_sel, idx);
                lemma_sum_weights_push(inputs@, prev_sel, idx);
                lemma_selection_le_total(inputs@, sel@);
            }
            est = match calculate_fee(acc_weight, &options.target_feerate) {
                Ok(v) => v,
                Err(err) => {
                    proof {
                        lemma_rate_fee_monotonic_weight(
                            acc_weight as nat,
                            total_weight(inputs@),
                            options.target_feerate,
                        );
                    }
                    return Err(err);
                },
            };
            let needed = match sum(target, est) {
                Ok(v) => v,
                Err(err) => {
                    proof {
                        lemma_rate_fee_monotonic_weight(
                            acc_weight as nat,
                            total_weight(inputs@),
                            options.target_feerate,
                        );
                    }
                    return Err(err);
                },
            };
            if acc_value >= needed {
                covered = true;
            }
            p = p + 1;
        }

        if !covered {
            proof {
                lemma_selection_total(inputs@, sel@);
            }
            insufficient = true;
        } else {
            // shed inputs the selection can do without
            let mut pos: usize = 0;
            while pos < sel.len()
                invariant
                    options.wf(),
                    options.target_feerate is Rate,
                    n == inputs@.len(),
                    target == adjusted_target(*options),
                    pos <= sel@.len(),
                    valid_selection(sel@, n as nat),
                    acc_value == sum_values(inputs@, sel@),
                    acc_weight == sum_weights(inputs@, sel@),
                    est == rate_fee(acc_weight as nat, options.target_feerate),
                    acc_value >= target + est,
                decreases sel@.len() - pos,
            {
                let idx = sel[pos];
                let g = inputs[idx];
                let ghost before_rm = sel@;
                proof {
                    lemma_sum_remove(inputs@, before_rm, pos as int);
                }
                let mut removed = false;
                if acc_value - g.value >= target {
                    match calculate_fee(acc_weight - g.weight, &options.target_feerate) {
                        Ok(new_est) => {
                            match sum(target, new_est) {
                                Ok(needed) => {
                                    if acc_value - g.value >= needed {
                                        acc_value = acc_value - g.value;
                                        acc_weight = acc_weight - g.weight;
                                        est = new_est;
                                        let dropped = sel.remove(pos);
                                        proof {
                                            lemma_remove_valid(before_rm, pos as int, n as nat);
                                        }
                                        removed = true;
                                    }
                                },
                                Err(_) => {},
                            }
                        },
                        Err(_) => {},
                    }
                }
                if !removed {
                    pos = pos + 1;
                }
            }
            let waste = calculate_waste(options, acc_value, acc_weight, est);
            if !best_found || waste.0 < best_waste {
                best_found = true;
                best_val = acc_value;
                best_wt = acc_weight;
                best_waste = waste.0;
                best_sel = sel;
            }
        }
        trial = trial + 1;
    }

    if best_found {
        Ok(SelectionOutput { selected_inputs: best_sel, waste: WasteMetric(best_waste) })
    } else {
        // the trial budget is positive, so some trial ran, and a trial that
        // records nothing has walked the whole list without covering it
        assert(insufficient);
        Err(SelectionError::InsufficientFunds)
    }
}

/// A selection extended by one fresh index still sums below the totals.
proof fn lemma_knapsack_extend(inputs: Seq<OutputGroup>, sel: Seq<usize>, idx: usize, n: nat)
    requires
        valid_selection(sel, n),
        n == inputs.len(),
        n <= usize::MAX,
        (idx as nat) < n,
        forall|t: int| 0 <= t < sel.len() ==> (#[trigger] sel[t]) != idx,
    ensures
        sum_values(inputs, sel) + inputs[idx as int].value > u64::MAX ==> total_value(inputs)
            > u64::MAX,
        sum_weights(inputs, sel) + inputs[idx as int].weight > u64::MAX ==> total_weight(inputs)
            > u64::MAX,
{
    lemma_sum_values_push(inputs, sel, idx);
    lemma_sum_weights_push(inputs, sel, idx);
    assert(valid_selection(sel.push(idx), n)) by {
        assert(forall|t: int| 0 <= t < sel.len() ==> sel.push(idx)[t] == sel[t]);
    }
    lemma_selection_le_total(inputs, sel.push(idx));
}

} // verus!
