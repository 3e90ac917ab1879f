//! The meta-selector: run every algorithm on the same inputs and keep the
//! result with the least change, breaking ties by waste and then by input
//! count.

use vstd::prelude::*;
use crate::algorithms::bnb::select_coin_bnb;
use crate::algorithms::fifo::select_coin_fifo;
use crate::algorithms::knapsack::select_coin_knapsack;
use crate::algorithms::leastchange::select_coin_bnb_leastchange;
use crate::algorithms::lowestlarger::select_coin_lowestlarger;
use crate::types::{CoinSelectionOpt, OutputGroup, SelectionError, SelectionOutput};
use crate::utils::{
    lemma_sum_values_bound, lemma_sum_values_ge_bnb_effective, rate_fee,
    sum_values, sum_weights, total_value, total_weight,
    valid_selection,
};

verus! {

/// A candidate the meta-selector may return: a valid selection whose value
/// covers the target and the minimum change.
pub open spec fn good_result(
    inputs: Seq<OutputGroup>,
    opt: CoinSelectionOpt,
    c: (SelectionOutput, u128),
) -> bool {
    &&& valid_selection(c.0.selected_inputs@, inputs.len())
    &&& sum_values(inputs, c.0.selected_inputs@) >= opt.target_value + opt.min_change_value
    &&& (rate_fee(sum_weights(inputs, c.0.selected_inputs@), opt.target_feerate) <= u64::MAX
        ==> sum_values(inputs, c.0.selected_inputs@) >= opt.target_value + opt.min_change_value
        + rate_fee(sum_weights(inputs, c.0.selected_inputs@), opt.target_feerate))
}

/// The order the meta-selector minimises over candidate results: change
/// first, then waste, then the number of selected inputs.
pub open spec fn cand_le(a: (SelectionOutput, u128), b: (SelectionOutput, u128)) -> bool {
    ||| a.1 < b.1
    ||| (a.1 == b.1 && a.0.waste.0 < b.0.waste.0)
    ||| (a.1 == b.1 && a.0.waste.0 == b.0.waste.0 && a.0.selected_inputs@.len()
        <= b.0.selected_inputs@.len())
}

/// Strictly better under the same order.
pub open spec fn cand_lt(a: (SelectionOutput, u128), b: (SelectionOutput, u128)) -> bool {
    ||| a.1 < b.1
    ||| (a.1 == b.1 && a.0.waste.0 < b.0.waste.0)
    ||| (a.1 == b.1 && a.0.waste.0 == b.0.waste.0 && a.0.selected_inputs@.len()
        < b.0.selected_inputs@.len())
}

fn cand_lt_exec(a: &(SelectionOutput, u128), b: &(SelectionOutput, u128)) -> (r: bool)
    ensures
        r == cand_lt(*a, *b),
{
    a.1 < b.1 || (a.1 == b.1 && (a.0.waste.0 < b.0.waste.0 || (a.0.waste.0 == b.0.waste.0
        && a.0.selected_inputs.len() < b.0.selected_inputs.len())))
}

/// The position of the best candidate: no candidate is better, and every
/// earlier one is strictly worse, so equals keep the earliest entry.
pub fn best_index(results: &Vec<(SelectionOutput, u128)>) -> (r: usize)
    requires
        results@.len() > 0,
    ensures
        r < results@.len(),
        forall|j: int| 0 <= j < results@.len() ==> cand_le(results@[r as int], #[trigger] results@[j]),
        forall|j: int| 0 <= j < r ==> cand_lt(results@[r as int], #[trigger] results@[j]),
{
    let mut best: usize = 0;
    let mut i: usize = 1;
    while i < results.len()
        invariant
            best < i <= results@.len(),
            forall|j: int| 0 <= j < i ==> cand_le(results@[best as int], #[trigger] results@[j]),
            forall|j: int| 0 <= j < best ==> cand_lt(results@[best as int], #[trigger] results@[j]),
        decreases results@.len() - i,
    {
        if cand_lt_exec(&results[i], &results[best]) {
            best = i;
        }
        i = i + 1;
    }
    best
}

/// The total value behind a selection, wide enough that it cannot overflow.
fn selection_amount(inputs: &[OutputGroup], sel: &Vec<usize>) -> (r: u128)
    requires
        valid_selection(sel@, inputs@.len()),
    ensures
        r == sum_values(inputs@, sel@),
{
    let mut acc: u128 = 0;
    let mut t: usize = 0;
    while t < sel.len()
        invariant
            t <= sel@.len(),
            valid_selection(sel@, inputs@.len()),
            acc == sum_values(inputs@, sel@.subrange(0, t as int)),
        decreases sel@.len() - t,
    {
        let idx = sel[t];
        proof {
            lemma_sum_values_bound(inputs@, sel@.subrange(0, t as int));
            assert(sel@.subrange(0, t as int).len() * (u64::MAX as nat) <= (u64::MAX as nat) * (
            u64::MAX as nat)) by {
                vstd::arithmetic::mul::lemma_mul_upper_bound(
                    sel@.subrange(0, t as int).len() as int,
                    u64::MAX as int,
                    u64::MAX as int,
                    u64::MAX as int,
                );
            }
            assert(sel@.subrange(0, t + 1) =~= sel@.subrange(0, t as int).push(sel@[t as int]));
            crate::utils::lemma_sum_values_push(
                inputs@,
                sel@.subrange(0, t as int),
                sel@[t as int],
            );
        }
        acc = acc + inputs[idx].value as u128;
        t = t + 1;
    }
    proof {
        assert(sel@.subrange(0, sel@.len() as int) =~= sel@);
    }
    acc
}

/// Runs every selection algorithm on the same inputs and options and keeps
/// the best result: least change, then least waste, then fewest inputs,
/// earliest algorithm on a full tie. Fails with `NonPositiveTarget` before
/// running anything when the target is zero, and with `InsufficientFunds`
/// when every algorithm fails.
pub fn select_coin(inputs: &[OutputGroup], options: &CoinSelectionOpt) -> (r: Result<
    SelectionOutput,
    SelectionError,
>)
    requires
        options.wf(),
    ensures
        (r == Err::<SelectionOutput, SelectionError>(SelectionError::NonPositiveTarget))
            <==> options.target_value == 0,
        match r {
            Ok(out) => {
                &&& options.target_feerate is Rate
                &&& valid_selection(out.selected_inputs@, inputs@.len())
                &&& sum_values(inputs@, out.selected_inputs@) >= options.target_value
                    + options.min_change_value
                &&& (rate_fee(sum_weights(inputs@, out.selected_inputs@), options.target_feerate)
                    <= u64::MAX ==> sum_values(inputs@, out.selected_inputs@)
                    >= options.target_value + options.min_change_value + rate_fee(
                    sum_weights(inputs@, out.selected_inputs@),
                    options.target_feerate,
                ))
            },
            Err(e) => e == SelectionError::NonPositiveTarget || e
                == SelectionError::InsufficientFunds,
        },
        // success is owed once the oldest-first walk of the whole list must
        // succeed
        ({
            &&& options.target_value > 0
            &&& inputs@.len() > 0
            &&& options.target_feerate is Rate
            &&& total_value(inputs@) <= u64::MAX
            &&& total_weight(inputs@) + options.base_weight <= u64::MAX
            &&& rate_fee(
                (total_weight(inputs@) + options.base_weight) as nat,
                options.target_feerate,
            ) <= u64::MAX
            &&& crate::algorithms::fifo::fifo_required(*options, total_weight(inputs@))
                <= u64::MAX
            &&& total_value(inputs@) >= crate::algorithms::fifo::fifo_required(
                *options,
                total_weight(inputs@),
            )
        }) ==> r is Ok,
        // and likewise once the least-change search must find a selection
        (options.target_value > 0 && crate::algorithms::leastchange::lc_success_conditions(
            inputs@,
            *options,
        )) ==> r is Ok,
        // and once the exact matcher's explored chain must cross its window
        (options.target_value > 0 && crate::algorithms::bnb::bnb_success_conditions(
            inputs@,
            *options,
        )) ==> r is Ok,
{
    if options.target_value == 0 {
        return Err(SelectionError::NonPositiveTarget);
    }

    let ghost n = inputs@.len();
    let mut results: Vec<(SelectionOutput, u128)> = Vec::new();

    match select_coin_bnb(inputs, options) {
        Ok(out) => {
            proof {
                lemma_sum_values_ge_bnb_effective(
                    inputs@,
                    out.selected_inputs@,
                    options.target_feerate,
                    options.min_absolute_fee as nat,
                );
            }
            let amount = selection_amount(inputs, &out.selected_inputs);
            let change = if amount >= options.target_value as u128 {
                amount - options.target_value as u128
            } else {
                0
            };
            results.push((out, change));
            proof {
                assert forall|t: int| 0 <= t < results@.len() implies good_result(
                    inputs@,
                    *options,
                    results@[t],
                ) by {}
            }
        },
        Err(_) => {},
    }
    match select_coin_fifo(inputs, options) {
        Ok(out) => {
            proof {
                crate::utils::lemma_rate_fee_monotonic_weight(
                    sum_weights(inputs@, out.selected_inputs@),
                    (sum_weights(inputs@, out.selected_inputs@) + options.base_weight) as nat,
                    options.target_feerate,
                );
            }
            let amount = selection_amount(inputs, &out.selected_inputs);
            let change = if amount >= options.target_value as u128 {
                amount - options.target_value as u128
            } else {
                0
            };
            results.push((out, change));
            proof {
                assert forall|t: int| 0 <= t < results@.len() implies good_result(
                    inputs@,
                    *options,
                    results@[t],
                ) by {}
            }
        },
        Err(_) => {},
    }
    match select_coin_lowestlarger(inputs, options) {
        Ok(out) => {
            let amount = selection_amount(inputs, &out.selected_inputs);
            let change = if amount >= options.target_value as u128 {
                amount - options.target_value as u128
            } else {
                0
            };
            results.push((out, change));
            proof {
                assert forall|t: int| 0 <= t < results@.len() implies good_result(
                    inputs@,
                    *options,
                    results@[t],
                ) by {}
            }
        },
        Err(_) => {},
    }
    match select_coin_knapsack(inputs, options) {
        Ok(out) => {
            let amount = selection_amount(inputs, &out.selected_inputs);
            let change = if amount >= options.target_value as u128 {
                amount - options.target_value as u128
            } else {
                0
            };
            results.push((out, change));
            proof {
                assert forall|t: int| 0 <= t < results@.len() implies good_result(
                    inputs@,
                    *options,
                    results@[t],
                ) by {}
            }
        },
        Err(_) => {},
    }
    match select_coin_bnb_leastchange(inputs, options) {
        Ok(out) => {
            let amount = selection_amount(inputs, &out.selected_inputs);
            let change = if amount >= options.target_value as u128 {
                amount - options.target_value as u128
            } else {
                0
            };
            results.push((out, change));
            proof {
                assert forall|t: int| 0 <= t < results@.len() implies good_result(
                    inputs@,
                    *options,
                    results@[t],
                ) by {}
            }
        },
        Err(_) => {},
    }

    if results.len() == 0 {
        return Err(SelectionError::InsufficientFunds);
    }
    let best = best_index(&results);
    assert(good_result(inputs@, *options, results@[best as int]));
    let (out, _change) = results.remove(best);
    Ok(out)
}

} // verus!
