//! First-in, first-out selection: spend the oldest candidates first.

use vstd::prelude::*;
use crate::sorting::{
    lemma_perm_all, lemma_perm_distinct_idx, sort_entries, SortEntry,
};
use crate::types::{CoinSelectionOpt, OutputGroup, SelectionError, SelectionOutput};
use crate::utils::{
    calculate_fee, calculate_waste, lemma_rate_fee_monotonic_weight, lemma_selection_total,
    lemma_sum_values_push, lemma_sum_weights_push, rate_fee, sum, sum_values, sum_weights,
    total_value, total_weight, valid_selection, waste_spec,
};

verus! {

/// The sort key age gives an input: its creation sequence, with untracked
/// inputs after every tracked one.
pub open spec fn fifo_key(group: OutputGroup) -> u64 {
    match group.creation_sequence {
        Option::Some(s) => s as u64,
        Option::None => u64::MAX,
    }
}

/// The larger of the fee a weight incurs and the absolute fee floor.
pub open spec fn fee_floor(opt: CoinSelectionOpt, weight: nat) -> nat
    recommends
        opt.target_feerate is Rate,
{
    let f = rate_fee(weight, opt.target_feerate);
    if f >= opt.min_absolute_fee {
        f
    } else {
        opt.min_absolute_fee as nat
    }
}

/// The amount a running selection of the given weight must reach: the
/// target, the floored fee of the whole transaction so far, and the minimum
/// worthwhile change.
pub open spec fn fifo_required(opt: CoinSelectionOpt, acc_weight: nat) -> nat
    recommends
        opt.target_feerate is Rate,
{
    (opt.target_value + fee_floor(opt, (acc_weight + opt.base_weight) as nat)
        + opt.min_change_value) as nat
}

/// Selects inputs oldest first (by creation sequence, untracked last, ties
/// by position) until the accumulated value covers the target, the fee so
/// far and the minimum change.
pub fn select_coin_fifo(inputs: &[OutputGroup], options: &CoinSelectionOpt) -> (r: Result<
    SelectionOutput,
    SelectionError,
>)
    requires
        options.wf(),
    ensures
        match r {
            Ok(out) => {
                &&& options.target_feerate is Rate
                &&& valid_selection(out.selected_inputs@, inputs@.len())
                &&& sum_values(inputs@, out.selected_inputs@) >= fifo_required(
                    *options,
                    sum_weights(inputs@, out.selected_inputs@),
                )
                &&& out.waste.0 == waste_spec(
                    *options,
                    sum_values(inputs@, out.selected_inputs@),
                    sum_weights(inputs@, out.selected_inputs@),
                    rate_fee(
                        (sum_weights(inputs@, out.selected_inputs@) + options.base_weight) as nat,
                        options.target_feerate,
                    ),
                )
            },
            Err(e) => match e {
                SelectionError::InvalidFeeRate => options.target_feerate is Invalid,
                SelectionError::InsufficientFunds => inputs@.len() == 0 || (
                options.target_feerate is Rate && fifo_required(*options, total_weight(inputs@))
                    <= u64::MAX && total_value(inputs@) < fifo_required(
                    *options,
                    total_weight(inputs@),
                )),
                SelectionError::ArithmeticOverflow => total_value(inputs@) > u64::MAX
                    || total_weight(inputs@) + options.base_weight > u64::MAX || (
                options.target_feerate is Rate && (rate_fee(
                    (total_weight(inputs@) + options.base_weight) as nat,
                    options.target_feerate,
                ) > u64::MAX || fifo_required(*options, total_weight(inputs@)) > u64::MAX)),
                _ => false,
            },
        },
        // success is owed once the whole input list covers its own requirement
        ({
            &&& inputs@.len() > 0
            &&& options.target_feerate is Rate
            &&& total_value(inputs@) <= u64::MAX
            &&& total_weight(inputs@) + options.base_weight <= u64::MAX
            &&& rate_fee(
                (total_weight(inputs@) + options.base_weight) as nat,
                options.target_feerate,
            ) <= u64::MAX
            &&& fifo_required(*options, total_weight(inputs@)) <= u64::MAX
            &&& total_value(inputs@) >= fifo_required(*options, total_weight(inputs@))
        }) ==> r is Ok,
{
    let n = inputs.len();
    // order the candidates oldest first
    let mut entries: Vec<SortEntry> = Vec::new();
    let mut k: usize = 0;
    while k < n
        invariant
            k <= n,
            n == inputs@.len(),
            entries@.len() == k,
            forall|t: int|
                0 <= t < k ==> (#[trigger] entries@[t]).idx == t && entries@[t].key == fifo_key(
                    inputs@[t],
                ),
        decreases n - k,
    {
        let g = inputs[k];
        let key: u64 = match g.creation_sequence {
            Option::Some(s) => s as u64,
            Option::None => u64::MAX,
        };
        entries.push(SortEntry { key, key2: 0, idx: k as u64 });
        k = k + 1;
    }
    let ghost unsorted = entries@;
    sort_entries(&mut entries);
    proof {
        lemma_perm_all(
            unsorted,
            entries@,
            |e: SortEntry| e.idx < n && e.key == fifo_key(inputs@[e.idx as int]),
        );
        lemma_perm_distinct_idx(unsorted, entries@);
    }

    let mut selected: Vec<usize> = Vec::new();
    let mut acc_value: u64 = 0;
    let mut acc_weight: u64 = 0;
    let mut last_fee: u64 = 0;
    let mut covered: bool = false;
    let mut p: usize = 0;
    while p < n && !covered
        invariant
            options.wf(),
            n == inputs@.len(),
            entries@.len() == n,
            forall|t: int|
                0 <= t < n ==> (#[trigger] entries@[t]).idx < n,
            forall|a: int, b: int| 0 <= a < b < n ==> entries@[a].idx != entries@[b].idx,
            p <= n,
            selected@.len() == p,
            forall|t: int| 0 <= t < p ==> (#[trigger] selected@[t]) as u64 == entries@[t].idx,
            valid_selection(selected@, n as nat),
            acc_value == sum_values(inputs@, selected@),
            acc_weight == sum_weights(inputs@, selected@),
            covered ==> {
                &&& options.target_feerate is Rate
                &&& acc_value >= fifo_required(*options, acc_weight as nat)
                &&& rate_fee((acc_weight + options.base_weight) as nat, options.target_feerate)
                    <= u64::MAX
                &&& last_fee == rate_fee(
                    (acc_weight + options.base_weight) as nat,
                    options.target_feerate,
                )
            },
            (!covered && p > 0) ==> {
                &&& options.target_feerate is Rate
                &&& fifo_required(*options, acc_weight as nat) <= u64::MAX
                &&& acc_value < fifo_required(*options, acc_weight as nat)
            },
        decreases n - p,
    {
        let e = entries[p];
        let idx = e.idx as usize;
        let g = inputs[idx];
        proof {
            assert forall|t: int| 0 <= t < selected@.len() implies (#[trigger] selected@[t])
                != idx by {
                assert(selected@[t] as u64 == entries@[t].idx);
                assert(entries@[t].idx != entries@[p as int].idx);
            }
        }
        let ghost prev_sel = selected@;
        acc_value = match sum(acc_value, g.value) {
            Ok(v) => v,
            Err(err) => {
                proof {
                    lemma_overflow_totals(inputs@, selected@, idx, n as nat);
                }
                return Err(err);
            },
        };
        acc_weight = match sum(acc_weight, g.weight) {
            Ok(v) => v,
            Err(err) => {
                proof {
                    lemma_overflow_totals(inputs@, prev_sel, idx, n as nat);
                }
                return Err(err);
            },
        };
        selected.push(idx);
        proof {
            lemma_sum_values_push(inputs@, prev_sel, idx);
            lemma_sum_weights_push(inputs@, prev_sel, idx);
            crate::utils::lemma_selection_le_total(inputs@, selected@);
        }
        let weight_with_base = match sum(acc_weight, options.base_weight) {
            Ok(v) => v,
            Err(err) => {
                return Err(err);
            },
        };
        let fee = match calculate_fee(weight_with_base, &options.target_feerate) {
            Ok(v) => v,
            Err(err) => {
                proof {
                    if options.target_feerate is Rate {
                        lemma_rate_fee_monotonic_weight(
                            (acc_weight + options.base_weight) as nat,
                            (total_weight(inputs@) + options.base_weight) as nat,
                            options.target_feerate,
                        );
                    }
                }
                return Err(err);
            },
        };
        last_fee = fee;
        let floored = if fee >= options.min_absolute_fee {
            fee
        } else {
            options.min_absolute_fee
        };
        let with_target = match sum(options.target_value, floored) {
            Ok(v) => v,
            Err(err) => {
                proof {
                    lemma_required_monotonic(*options, acc_weight as nat, total_weight(inputs@));
                }
                return Err(err);
            },
        };
        let threshold = match sum(with_target, options.min_change_value) {
            Ok(v) => v,
            Err(err) => {
                proof {
                    lemma_required_monotonic(*options, acc_weight as nat, total_weight(inputs@));
                }
                return Err(err);
            },
        };
        if acc_value >= threshold {
            covered = true;
        }
        p = p + 1;
    }
    if covered {
        let waste = calculate_waste(options, acc_value, acc_weight, last_fee);
        Ok(SelectionOutput { selected_inputs: selected, waste })
    } else {
        proof {
            if p == n && n > 0 {
                lemma_selection_total(inputs@, selected@);
            }
        }
        Err(SelectionError::InsufficientFunds)
    }
}

/// Overflow while adding one more input means the whole list overflows.
proof fn lemma_overflow_totals(inputs: Seq<OutputGroup>, sel: Seq<usize>, idx: usize, n: nat)
    requires
        valid_selection(sel, n),
        n == inputs.len(),
        n <= usize::MAX,
        (idx as nat) < n,
        forall|t: int| 0 <= t < sel.len() ==> (#[trigger] sel[t]) != idx,
        sum_values(inputs, sel) + inputs[idx as int].value > u64::MAX || sum_weights(inputs, sel)
            + inputs[idx as int].weight > u64::MAX,
    ensures
        sum_values(inputs, sel) + inputs[idx as int].value > u64::MAX ==> total_value(inputs)
            > u64::MAX,
        sum_weights(inputs, sel) + inputs[idx as int].weight > u64::MAX ==> total_weight(inputs)
            > u64::MAX,
{
    lemma_sum_values_push(inputs, sel, idx);
    lemma_sum_weights_push(inputs, sel, idx);
    assert(valid_selection(sel.push(idx), n)) by {
        assert(forall|t: int| 0 <= t < sel.len() ==> sel.push(idx)[t] == sel[t]);
    }
    crate::utils::lemma_selection_le_total(inputs, sel.push(idx));
}

/// A heavier running selection never lowers the requirement.
proof fn lemma_required_monotonic(opt: CoinSelectionOpt, w1: nat, w2: nat)
    requires
        w1 <= w2,
    ensures
        fifo_required(opt, w1) <= fifo_required(opt, w2),
{
    lemma_rate_fee_monotonic_weight(
        (w1 + opt.base_weight) as nat,
        (w2 + opt.base_weight) as nat,
        opt.target_feerate,
    );
}

} // verus!
