//! Lowest-larger selection: prefer the largest candidates that do not
//! exceed the target by themselves, then fall back to the larger ones.

use vstd::prelude::*;
use crate::sorting::{lemma_perm_all, lemma_perm_distinct_idx, sort_entries, SortEntry};
use crate::types::{CoinSelectionOpt, OutputGroup, SelectionError, SelectionOutput};
use crate::utils::{
    adjusted_target, calculate_fee, calculate_waste, effective_value, lemma_rate_fee_monotonic_weight,
    lemma_rate_fee_zero, lemma_selection_le_total, lemma_selection_total, lemma_sum_values_push,
    lemma_sum_weights_push, rate_fee, sum, sum_values, sum_weights, total_value, total_weight,
    valid_selection, waste_spec,
};

verus! {

/// Selects by effective value: sorts ascending, walks the largest inputs
/// whose value alone does not pass the target in reverse, then continues
/// with the larger ones, until the accumulated value covers the adjusted
/// target plus the accumulated fee.
pub fn select_coin_lowestlarger(inputs: &[OutputGroup], options: &CoinSelectionOpt) -> (r: Result<
    SelectionOutput,
    SelectionError,
>)
    requires
        options.wf(),
    ensures
        match r {
            Ok(out) => {
                &&& options.target_feerate is Rate
                &&& valid_selection(out.selected_inputs@, inputs@.len())
                &&& rate_fee(sum_weights(inputs@, out.selected_inputs@), options.target_feerate)
                    <= u64::MAX
                &&& sum_values(inputs@, out.selected_inputs@) >= adjusted_target(*options)
                    + rate_fee(sum_weights(inputs@, out.selected_inputs@), options.target_feerate)
                &&& out.waste.0 == waste_spec(
                    *options,
                    sum_values(inputs@, out.selected_inputs@),
                    sum_weights(inputs@, out.selected_inputs@),
                    rate_fee(sum_weights(inputs@, out.selected_inputs@), options.target_feerate),
                )
            },
            Err(e) => match e {
                SelectionError::InvalidFeeRate => options.target_feerate is Invalid,
                SelectionError::InsufficientFunds => options.target_feerate is Rate
                    && adjusted_target(*options) <= u64::MAX && adjusted_target(*options)
                    + rate_fee(total_weight(inputs@), options.target_feerate) <= u64::MAX
                    && total_value(inputs@) < adjusted_target(*options) + rate_fee(
                    total_weight(inputs@),
                    options.target_feerate,
                ),
                SelectionError::ArithmeticOverflow => total_value(inputs@) > u64::MAX
                    || total_weight(inputs@) > u64::MAX || (options.target_feerate is Rate && (
                rate_fee(options.base_weight as nat, options.target_feerate) > u64::MAX
                    || adjusted_target(*options) > u64::MAX || rate_fee(
                    total_weight(inputs@),
                    options.target_feerate,
                ) > u64::MAX || adjusted_target(*options) + rate_fee(
                    total_weight(inputs@),
                    options.target_feerate,
                ) > u64::MAX || adjusted_target(*options) + options.min_absolute_fee
                    > u64::MAX)),
                _ => false,
            },
        },
        // success is owed once the whole input list covers the requirement
        ({
            &&& options.target_feerate is Rate
            &&& total_value(inputs@) <= u64::MAX
            &&& total_weight(inputs@) <= u64::MAX
            &&& rate_fee(options.base_weight as nat, options.target_feerate) <= u64::MAX
            &&& adjusted_target(*options) <= u64::MAX
            &&& rate_fee(total_weight(inputs@), options.target_feerate) <= u64::MAX
            &&& adjusted_target(*options) + rate_fee(total_weight(inputs@), options.target_feerate)
                <= u64::MAX
            &&& adjusted_target(*options) + options.min_absolute_fee <= u64::MAX
            &&& total_value(inputs@) >= adjusted_target(*options) + rate_fee(
                total_weight(inputs@),
                options.target_feerate,
            )
        }) ==> r is Ok,
{
    let n = inputs.len();
    let base_fees = match calculate_fee(options.base_weight, &options.target_feerate) {
        Ok(v) => v,
        Err(err) => {
            return Err(err);
        },
    };
    let floor = if base_fees >= options.min_absolute_fee {
        base_fees
    } else {
        options.min_absolute_fee
    };
    let with_change = match sum(options.target_value, options.min_change_value) {
        Ok(v) => v,
        Err(err) => {
            return Err(err);
        },
    };
    let target = match sum(with_change, floor) {
        Ok(v) => v,
        Err(err) => {
            return Err(err);
        },
    };
    assert(target == adjusted_target(*options));

    // sort ascending by effective value; inputs whose fee alone overflows
    // sort after every priced one
    let mut entries: Vec<SortEntry> = Vec::new();
    let mut k: usize = 0;
    while k < n
        invariant
            options.wf(),
            k <= n,
            n == inputs@.len(),
            entries@.len() == k,
            forall|t: int| 0 <= t < k ==> (#[trigger] entries@[t]).idx == t,
        decreases n - k,
    {
        let g = inputs[k];
        let entry = match effective_value(&g, &options.target_feerate) {
            Ok(eff) => SortEntry { key: 0, key2: eff, idx: k as u64 },
            Err(_) => SortEntry { key: 1, key2: 0, idx: k as u64 },
        };
        entries.push(entry);
        k = k + 1;
    }
    let ghost unsorted = entries@;
    sort_entries(&mut entries);
    proof {
        lemma_perm_all(unsorted, entries@, |e: SortEntry| e.idx < n);
        lemma_perm_distinct_idx(unsorted, entries@);
    }

    // the boundary below which an input's own value stays within the target
    // plus its own fee
    let mut lo: usize = 0;
    let mut hi: usize = n;
    while lo < hi
        invariant
            options.wf(),
            lo <= hi <= n,
            n == inputs@.len(),
            entries@.len() == n,
            forall|t: int| 0 <= t < n ==> (#[trigger] entries@[t]).idx < n,
        decreases hi - lo,
    {
        let mid = lo + (hi - lo) / 2;
        let g = inputs[entries[mid].idx as usize];
        let mut pred = false;
        match calculate_fee(g.weight, &options.target_feerate) {
            Ok(fee) => match sum(target, fee) {
                Ok(tf) => {
                    pred = g.value <= tf;
                },
                Err(_) => {},
            },
            Err(_) => {},
        }
        if pred {
            lo = mid + 1;
        } else {
            hi = mid;
        }
    }
    let index = lo;

    let mut selected: Vec<usize> = Vec::new();
    let ghost mut pos: Seq<int> = Seq::empty();
    let mut acc_value: u64 = 0;
    let mut acc_weight: u64 = 0;
    let mut est: u64 = 0;
    let mut covered: bool = false;
    proof {
        lemma_rate_fee_zero(options.target_feerate);
    }

    // largest-first through the inputs at or below the boundary
    let mut q: usize = index;
    while q > 0 && !covered
        invariant
            options.wf(),
            options.target_feerate is Rate,
            n == inputs@.len(),
            entries@.len() == n,
            forall|t: int| 0 <= t < n ==> (#[trigger] entries@[t]).idx < n,
            forall|a: int, b: int| 0 <= a < b < n ==> entries@[a].idx != entries@[b].idx,
            q <= index <= n,
            target == adjusted_target(*options),
            pos.len() == selected@.len(),
            forall|t: int|
                0 <= t < pos.len() ==> q <= (#[trigger] pos[t]) < index && selected@[t] as u64
                    == entries@[pos[t]].idx,
            forall|a: int, b: int| 0 <= a < b < pos.len() ==> pos[a] != pos[b],
            valid_selection(selected@, n as nat),
            acc_value == sum_values(inputs@, selected@),
            acc_weight == sum_weights(inputs@, selected@),
            est == rate_fee(acc_weight as nat, options.target_feerate),
            covered ==> acc_value >= target + est,
            !covered ==> pos.len() == index - q,
        decreases q,
    {
        q = q - 1;
        let e = entries[q];
        let idx = e.idx as usize;
        let g = inputs[idx];
        proof {
            assert forall|t: int| 0 <= t < selected@.len() implies (#[trigger] selected@[t])
                != idx by {
                assert(selected@[t] as u64 == entries@[pos[t]].idx);
                assert(entries@[pos[t]].idx != entries@[q as int].idx);
            }
        }
        let ghost prev_sel = selected@;
        acc_value = match sum(acc_value, g.value) {
            Ok(v) => v,
            Err(err) => {
                proof {
                    lemma_extend_overflow(inputs@, prev_sel, idx, n as nat);
                }
                return Err(err);
            },
        };
        acc_weight = match sum(acc_weight, g.weight) {
            Ok(v) => v,
            Err(err) => {
                proof {
                    lemma_extend_overflow(inputs@, prev_sel, idx, n as nat);
                }
                return Err(err);
            },
        };
        selected.push(idx);
        proof {
            pos = pos.push(q as int);
            lemma_sum_values_push(inputs@, prev_sel, idx);
            lemma_sum_weights_push(inputs@, prev_sel, idx);
            lemma_selection_le_total(inputs@, selected@);
        }
        est = match calculate_fee(acc_weight, &options.target_feerate) {
            Ok(v) => v,
            Err(err) => {
                proof {
                    lemma_rate_fee_monotonic_weight(
                        acc_weight as nat,
                        total_weight(inputs@),
                        options.target_feerate,
                    );
                }
                return Err(err);
            },
        };
        let needed = match sum(target, est) {
            Ok(v) => v,
            Err(err) => {
                proof {
                    lemma_rate_fee_monotonic_weight(
                        acc_weight as nat,
                        total_weight(inputs@),
                        options.target_feerate,
                    );
                }
                return Err(err);
            },
        };
        if acc_value >= needed {
            covered = true;
        }
    }

    // then the larger inputs, smallest first
    let mut p: usize = index;
    while p < n && !covered
        invariant
            options.wf(),
            options.target_feerate is Rate,
            n == inputs@.len(),
            entries@.len() == n,
            forall|t: int| 0 <= t < n ==> (#[trigger] entries@[t]).idx < n,
            forall|a: int, b: int| 0 <= a < b < n ==> entries@[a].idx != entries@[b].idx,
            index <= p <= n,
            target == adjusted_target(*options),
            pos.len() == selected@.len(),
            forall|t: int|
                0 <= t < pos.len() ==> 0 <= (#[trigger] pos[t]) < p && selected@[t] as u64
                    == entries@[pos[t]].idx,
            forall|a: int, b: int| 0 <= a < b < pos.len() ==> pos[a] != pos[b],
            valid_selection(selected@, n as nat),
            acc_value == sum_values(inputs@, selected@),
            acc_weight == sum_weights(inputs@, selected@),
            est == rate_fee(acc_weight as nat, options.target_feerate),
            covered ==> acc_value >= target + est,
            !covered ==> pos.len() == p,
        decreases n - p,
    {
        let e = entries[p];
        let idx = e.idx as usize;
        let g = inputs[idx];
        proof {
            assert forall|t: int| 0 <= t < selected@.len() implies (#[trigger] selected@[t])
                != idx by {
                assert(selected@[t] as u64 == entries@[pos[t]].idx);
                assert(entries@[pos[t]].idx != entries@[p as int].idx);
            }
        }
        let ghost prev_sel = selected@;
        acc_value = match sum(acc_value, g.value) {
            Ok(v) => v,
            Err(err) => {
                proof {
                    lemma_extend_overflow(inputs@, prev_sel, idx, n as nat);
                }
                return Err(err);
            },
        };
        acc_weight = match sum(acc_weight, g.weight) {
            Ok(v) => v,
            Err(err) => {
                proof {
                    lemma_extend_overflow(inputs@, prev_sel, idx, n as nat);
                }
                return Err(err);
            },
        };
        selected.push(idx);
        proof {
            pos = pos.push(p as int);
            lemma_sum_values_push(inputs@, prev_sel, idx);
            lemma_sum_weights_push(inputs@, prev_sel, idx);
            lemma_selection_le_total(inputs@, selected@);
        }
        est = match calculate_fee(acc_weight, &options.target_feerate) {
            Ok(v) => v,
            Err(err) => {
                proof {
                    lemma_rate_fee_monotonic_weight(
                        acc_weight as nat,
                        total_weight(inputs@),
                        options.target_feerate,
                    );
                }
                return Err(err);
            },
        };
        let floored_est = if est >= options.min_absolute_fee {
            est
        } else {
            options.min_absolute_fee
        };
        let needed = match sum(target, floored_est) {
            Ok(v) => v,
            Err(err) => {
                proof {
                    lemma_selection_le_total(inputs@, selected@);
                    lemma_rate_fee_monotonic_weight(
                        acc_weight as nat,
                        total_weight(inputs@),
                        options.target_feerate,
                    );
                }
                return Err(err);
            },
        };
        if acc_value >= needed {
            covered = true;
        }
        p = p + 1;
    }

    let final_needed = match sum(target, est) {
        Ok(v) => v,
        Err(err) => {
            proof {
                lemma_selection_le_total(inputs@, selected@);
                lemma_rate_fee_monotonic_weight(
                    acc_weight as nat,
                    total_weight(inputs@),
                    options.target_feerate,
                );
            }
            return Err(err);
        },
    };
    if acc_value < final_needed {
        proof {
            lemma_selection_total(inputs@, selected@);
        }
        Err(SelectionError::InsufficientFunds)
    } else {
        let waste = calculate_waste(options, acc_value, acc_weight, est);
        Ok(SelectionOutput { selected_inputs: selected, waste })
    }
}

/// Overflow while adding one more input means the whole list overflows.
proof fn lemma_extend_overflow(inputs: Seq<OutputGroup>, sel: Seq<usize>, idx: usize, n: nat)
    requires
        valid_selection(sel, n),
        n == inputs.len(),
        n <= usize::MAX,
        (idx as nat) < n,
        forall|t: int| 0 <= t < sel.len() ==> (#[trigger] sel[t]) != idx,
    ensures
        sum_values(inputs, sel) + inputs[idx as int].value > u64::MAX ==> total_value(inputs)
            > u64::MAX,
        sum_weights(inputs, sel) + inputs[idx as int].weight > u64::MAX ==> total_weight(inputs)
            > u64::MAX,
{
    lemma_sum_values_push(inputs, sel, idx);
    lemma_sum_weights_push(inputs, sel, idx);
    assert(valid_selection(sel.push(idx), n)) by {
        assert(forall|t: int| 0 <= t < sel.len() ==> sel.push(idx)[t] == sel[t]);
    }
    lemma_selection_le_total(inputs, sel.push(idx));
}

} // verus!
