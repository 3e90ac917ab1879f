//! A branch-and-bound exact matcher: a depth-first search over the inputs
//! sorted by value, accepting only selections whose effective value lands
//! inside a window just above the target, and keeping the one with the
//! least waste.

use vstd::prelude::*;
use crate::sorting::{lemma_perm_all, lemma_perm_distinct_idx, sort_entries, SortEntry};
use crate::types::{CoinSelectionOpt, FeeRate, OutputGroup, SelectionError, SelectionOutput, WasteMetric};
use crate::utils::{
    adjusted_target, bnb_effective, calculate_fee, calculate_waste, clone_indices, fee_or,
    lemma_sum_bnb_effective_push, lemma_sum_weights_push, rate_fee, sat_sub, sum,
    sum_bnb_effective, sum_weights, valid_selection, waste_spec,
};

verus! {

/// The running best of the search, and the try budget that bounds it.
struct BnbCtx {
    tries: u32,
    best_found: bool,
    best_sel: Vec<usize>,
    best_waste: i128,
}

/// The width of the window above the adjusted target inside which a
/// selection counts as an exact match: the cost of one more typical input
/// and one more typical output.
pub open spec fn match_range(opt: CoinSelectionOpt) -> nat
    recommends
        opt.target_feerate is Rate,
{
    (rate_fee(opt.avg_input_weight as nat, opt.target_feerate) + rate_fee(
        opt.avg_output_weight as nat,
        opt.target_feerate,
    )) as nat
}

/// The ascending order the search explores: by value, ties by original
/// position. It is unique.
pub open spec fn value_sorted_order(inputs: Seq<OutputGroup>, order: Seq<usize>) -> bool {
    &&& order.len() == inputs.len()
    &&& valid_selection(order, inputs.len())
    &&& forall|a: int, b: int|
        0 <= a < b < order.len() ==> (inputs[(#[trigger] order[a]) as int].value < inputs[(
        #[trigger] order[b]) as int].value || (inputs[order[a] as int].value
            == inputs[order[b] as int].value && order[a] < order[b]))
}

/// The explored order behind the sorted records.
pub open spec fn entries_order(entries: Seq<SortEntry>) -> Seq<usize> {
    Seq::new(entries.len(), |p: int| entries[p].idx as usize)
}

/// The effective value the search sees at the node that has included
/// exactly the first `k` inputs of the explored order.
pub open spec fn chain_effective(
    inputs: Seq<OutputGroup>,
    order: Seq<usize>,
    k: int,
    opt: CoinSelectionOpt,
) -> nat {
    sat_sub(
        sum_bnb_effective(
            inputs,
            order.subrange(0, k),
            opt.target_feerate,
            opt.min_absolute_fee as nat,
        ),
        fee_or(
            sum_weights(inputs, order.subrange(0, k)),
            opt.target_feerate,
            opt.min_absolute_fee as nat,
        ),
    )
}

/// Along the explored order, the first node whose effective value reaches
/// the adjusted target is node `k`, it lands inside the match window, its
/// accumulation fits in 64 bits, and the try budget reaches it.
pub open spec fn bnb_chain_crossing(
    inputs: Seq<OutputGroup>,
    opt: CoinSelectionOpt,
    order: Seq<usize>,
    k: int,
) -> bool {
    &&& 0 <= k < order.len()
    &&& k < 1_000_000
    &&& sum_bnb_effective(
        inputs,
        order.subrange(0, k),
        opt.target_feerate,
        opt.min_absolute_fee as nat,
    ) <= u64::MAX
    &&& sum_weights(inputs, order.subrange(0, k)) <= u64::MAX
    &&& forall|j: int|
        0 <= j < k ==> #[trigger] chain_effective(inputs, order, j, opt) < adjusted_target(opt)
    &&& chain_effective(inputs, order, k, opt) >= adjusted_target(opt)
    &&& chain_effective(inputs, order, k, opt) <= adjusted_target(opt) + match_range(opt)
}

/// When the window and rate fit, and somewhere along the explored order the
/// running effective value first reaches the target inside the match
/// window, the search finds a solution.
pub open spec fn bnb_success_conditions(inputs: Seq<OutputGroup>, opt: CoinSelectionOpt) -> bool {
    &&& opt.target_feerate is Rate
    &&& rate_fee(opt.avg_input_weight as nat, opt.target_feerate) <= u64::MAX
    &&& rate_fee(opt.avg_output_weight as nat, opt.target_feerate) <= u64::MAX
    &&& rate_fee(opt.base_weight as nat, opt.target_feerate) <= u64::MAX
    &&& adjusted_target(opt) <= u64::MAX
    &&& adjusted_target(opt) + match_range(opt) <= u64::MAX
    &&& exists|order: Seq<usize>, k: int|
        value_sorted_order(inputs, order) && #[trigger] bnb_chain_crossing(inputs, opt, order, k)
}

/// Prefix accumulations only grow.
proof fn lemma_prefix_sums_monotone(
    inputs: Seq<OutputGroup>,
    order: Seq<usize>,
    j: int,
    k: int,
    rate: FeeRate,
    fallback: nat,
)
    requires
        0 <= j <= k <= order.len(),
    ensures
        sum_bnb_effective(inputs, order.subrange(0, j), rate, fallback) <= sum_bnb_effective(
            inputs,
            order.subrange(0, k),
            rate,
            fallback,
        ),
        sum_weights(inputs, order.subrange(0, j)) <= sum_weights(inputs, order.subrange(0, k)),
    decreases k - j,
{
    if j < k {
        assert(order.subrange(0, j + 1).drop_last() =~= order.subrange(0, j));
        lemma_prefix_sums_monotone(inputs, order, j + 1, k, rate, fallback);
    }
}

/// Two orders both sorted by (value, position) are the same order.
proof fn lemma_sorted_order_unique(inputs: Seq<OutputGroup>, o1: Seq<usize>, o2: Seq<usize>)
    requires
        inputs.len() <= usize::MAX,
        value_sorted_order(inputs, o1),
        value_sorted_order(inputs, o2),
    ensures
        o1 =~= o2,
{
    let member = |i: usize| (i as nat) < inputs.len();
    assert forall|i: usize| #[trigger] member(i) <==> o1.contains(i) by {
        if member(i) {
            crate::utils::lemma_selection_onto(o1, inputs.len(), i);
        }
        if o1.contains(i) {
            let p = choose|p: int| 0 <= p < o1.len() && o1[p] == i;
            assert(o1[p] < inputs.len());
        }
    }
    assert forall|i: usize| #[trigger] member(i) <==> o2.contains(i) by {
        if member(i) {
            crate::utils::lemma_selection_onto(o2, inputs.len(), i);
        }
        if o2.contains(i) {
            let p = choose|p: int| 0 <= p < o2.len() && o2[p] == i;
            assert(o2[p] < inputs.len());
        }
    }
    assert forall|a: int, b: int| 0 <= a < b < o1.len() implies key_lt(inputs, o1[a], o1[b]) by {
        assert(inputs[(o1[a]) as int].value < inputs[(o1[b]) as int].value || (inputs[(
        o1[a]) as int].value == inputs[(o1[b]) as int].value && o1[a] < o1[b]));
    }
    assert forall|a: int, b: int| 0 <= a < b < o2.len() implies key_lt(inputs, o2[a], o2[b]) by {
        assert(inputs[(o2[a]) as int].value < inputs[(o2[b]) as int].value || (inputs[(
        o2[a]) as int].value == inputs[(o2[b]) as int].value && o2[a] < o2[b]));
    }
    lemma_sorted_same_elements(inputs, o1, o2, member);
}

/// The strict (value, position) order on indices.
spec fn key_lt(inputs: Seq<OutputGroup>, x: usize, y: usize) -> bool {
    inputs[x as int].value < inputs[y as int].value || (inputs[x as int].value
        == inputs[y as int].value && x < y)
}

/// Two sequences strictly increasing under the (value, position) order that
/// hold the same elements are equal.
proof fn lemma_sorted_same_elements(
    inputs: Seq<OutputGroup>,
    o1: Seq<usize>,
    o2: Seq<usize>,
    member: spec_fn(usize) -> bool,
)
    requires
        inputs.len() <= usize::MAX,
        o1.len() == o2.len(),
        forall|a: int, b: int| 0 <= a < b < o1.len() ==> key_lt(inputs, o1[a], o1[b]),
        forall|a: int, b: int| 0 <= a < b < o2.len() ==> key_lt(inputs, o2[a], o2[b]),
        forall|i: usize| #[trigger] member(i) <==> o1.contains(i),
        forall|i: usize| #[trigger] member(i) <==> o2.contains(i),
    ensures
        o1 =~= o2,
    decreases o1.len(),
{
    if o1.len() > 0 {
        let x = o1.last();
        let y = o2.last();
        // each last element is the unique maximum of the shared element set
        assert(member(x));
        assert(o2.contains(x));
        let px = choose|p: int| 0 <= p < o2.len() && o2[p] == x;
        if px < o2.len() - 1 {
            assert(key_lt(inputs, x, y));
        }
        assert(member(y));
        assert(o1.contains(y));
        let py = choose|p: int| 0 <= p < o1.len() && o1[p] == y;
        if py < o1.len() - 1 {
            assert(key_lt(inputs, y, x));
        }
        assert(x == y);
        let r1 = o1.drop_last();
        let r2 = o2.drop_last();
        let remaining = |i: usize| member(i) && i != x;
        assert forall|i: usize| #[trigger] remaining(i) <==> r1.contains(i) by {
            if remaining(i) {
                let p = choose|p: int| 0 <= p < o1.len() && o1[p] == i;
                assert(p < o1.len() - 1);
                assert(r1[p] == i);
            }
            if r1.contains(i) {
                let p = choose|p: int| 0 <= p < r1.len() && r1[p] == i;
                assert(o1[p] == i);
                assert(key_lt(inputs, i, x));
                assert(member(i));
            }
        }
        assert forall|i: usize| #[trigger] remaining(i) <==> r2.contains(i) by {
            if remaining(i) {
                let p = choose|p: int| 0 <= p < o2.len() && o2[p] == i;
                assert(p < o2.len() - 1);
                assert(r2[p] == i);
            }
            if r2.contains(i) {
                let p = choose|p: int| 0 <= p < r2.len() && r2[p] == i;
                assert(o2[p] == i);
                assert(key_lt(inputs, i, y));
                assert(member(i));
            }
        }
        lemma_sorted_same_elements(inputs, r1, r2, remaining);
        assert forall|t: int| 0 <= t < o1.len() implies o1[t] == o2[t] by {
            if t < o1.len() - 1 {
                assert(r1[t] == r2[t]);
            }
        }
    }
}

/// The recorded best, when there is one, is a selection admitted by the
/// match window, with its exact waste.
spec fn best_wf(ctx: BnbCtx, inputs: Seq<OutputGroup>, opt: CoinSelectionOpt) -> bool {
    ctx.best_found ==> {
        let s = sum_bnb_effective(inputs, ctx.best_sel@, opt.target_feerate, opt.min_absolute_fee as nat);
        let w = sum_weights(inputs, ctx.best_sel@);
        let f = fee_or(w, opt.target_feerate, opt.min_absolute_fee as nat);
        &&& valid_selection(ctx.best_sel@, inputs.len())
        &&& sat_sub(s, f) >= adjusted_target(opt)
        &&& sat_sub(s, f) <= adjusted_target(opt) + match_range(opt)
        &&& s <= u64::MAX
        &&& ctx.best_waste == waste_spec(opt, s, w, f)
    }
}

/// Performs coin selection by branch and bound; returns a solution only if
/// one with the least waste lies within the match window above the target.
pub fn select_coin_bnb(inputs: &[OutputGroup], options: &CoinSelectionOpt) -> (r: Result<
    SelectionOutput,
    SelectionError,
>)
    requires
        options.wf(),
    ensures
        match r {
            Ok(out) => {
                let s = sum_bnb_effective(
                    inputs@,
                    out.selected_inputs@,
                    options.target_feerate,
                    options.min_absolute_fee as nat,
                );
                let w = sum_weights(inputs@, out.selected_inputs@);
                let f = fee_or(w, options.target_feerate, options.min_absolute_fee as nat);
                &&& options.target_feerate is Rate
                &&& valid_selection(out.selected_inputs@, inputs@.len())
                &&& sat_sub(s, f) >= adjusted_target(*options)
                &&& sat_sub(s, f) <= adjusted_target(*options) + match_range(*options)
                &&& out.waste.0 == waste_spec(*options, s, w, f)
            },
            Err(e) => match e {
                // the try budget ran out, or no visited node hit the window;
                // this happens only once the rate and the window fit
                SelectionError::NoSolutionFound => options.target_feerate is Rate && rate_fee(
                    options.avg_input_weight as nat,
                    options.target_feerate,
                ) <= u64::MAX && rate_fee(options.avg_output_weight as nat, options.target_feerate)
                    <= u64::MAX && rate_fee(options.base_weight as nat, options.target_feerate)
                    <= u64::MAX && adjusted_target(*options) <= u64::MAX && adjusted_target(
                    *options,
                ) + match_range(*options) <= u64::MAX,
                SelectionError::InvalidFeeRate => options.target_feerate is Invalid,
                SelectionError::ArithmeticOverflow => options.target_feerate is Rate && (rate_fee(
                    options.avg_input_weight as nat,
                    options.target_feerate,
                ) > u64::MAX || rate_fee(options.avg_output_weight as nat, options.target_feerate)
                    > u64::MAX || rate_fee(options.base_weight as nat, options.target_feerate)
                    > u64::MAX || adjusted_target(*options) > u64::MAX || adjusted_target(*options)
                    + rate_fee(options.avg_input_weight as nat, options.target_feerate) + rate_fee(
                    options.avg_output_weight as nat,
                    options.target_feerate,
                ) > u64::MAX),
                _ => false,
            },
        },
        // an invalid rate is rejected before anything is searched
        options.target_feerate is Invalid ==> r == Err::<SelectionOutput, SelectionError>(
            SelectionError::InvalidFeeRate,
        ),
        // success is owed once the explored chain must cross into the window
        bnb_success_conditions(inputs@, *options) ==> r is Ok,
{
    let n = inputs.len();
    let cost_per_input = match calculate_fee(options.avg_input_weight, &options.target_feerate) {
        Ok(v) => v,
        Err(err) => {
            return Err(err);
        },
    };
    let cost_per_output = match calculate_fee(options.avg_output_weight, &options.target_feerate) {
        Ok(v) => v,
        Err(err) => {
            return Err(err);
        },
    };
    let base_fee = match calculate_fee(options.base_weight, &options.target_feerate) {
        Ok(v) => v,
        Err(err) => {
            return Err(err);
        },
    };
    let floor = if base_fee >= options.min_absolute_fee {
        base_fee
    } else {
        options.min_absolute_fee
    };
    let with_mc = match sum(options.target_value, options.min_change_value) {
        Ok(v) => v,
        Err(err) => {
            return Err(err);
        },
    };
    let target_for_match = match sum(with_mc, floor) {
        Ok(v) => v,
        Err(err) => {
            return Err(err);
        },
    };
    assert(target_for_match == adjusted_target(*options));
    let match_range = match sum(cost_per_input, cost_per_output) {
        Ok(v) => v,
        Err(err) => {
            return Err(err);
        },
    };
    let upper = match sum(target_for_match, match_range) {
        Ok(v) => v,
        Err(err) => {
            return Err(err);
        },
    };

    // sort ascending by value, original order on ties
    let mut entries: Vec<SortEntry> = Vec::new();
    let mut k: usize = 0;
    while k < n
        invariant
            k <= n,
            n == inputs@.len(),
            entries@.len() == k,
            forall|t: int|
                0 <= t < k ==> (#[trigger] entries@[t]).idx == t && entries@[t].key
                    == inputs@[t].value && entries@[t].key2 == 0,
        decreases n - k,
    {
        entries.push(SortEntry { key: inputs[k].value, key2: 0, idx: k as u64 });
        k = k + 1;
    }
    let ghost unsorted = entries@;
    sort_entries(&mut entries);
    proof {
        lemma_perm_all(
            unsorted,
            entries@,
            |e: SortEntry| e.idx < n && e.key == inputs@[e.idx as int].value && e.key2 == 0,
        );
        lemma_perm_distinct_idx(unsorted, entries@);
    }

    let mut selected: Vec<usize> = Vec::new();
    let mut ctx = BnbCtx { tries: 1_000_000, best_found: false, best_sel: Vec::new(), best_waste: 0 };
    let ghost chosen_k = choose|k: int|
        bnb_chain_crossing(inputs@, *options, entries_order(entries@), k);
    bnb(
        inputs,
        &entries,
        &mut selected,
        Ghost(Seq::empty()),
        Ghost(chosen_k),
        0,
        0,
        0,
        options,
        target_for_match,
        upper,
        &mut ctx,
    );

    if ctx.best_found {
        let waste = WasteMetric(ctx.best_waste);
        Ok(SelectionOutput { selected_inputs: ctx.best_sel, waste })
    } else {
        proof {
            if bnb_success_conditions(inputs@, *options) {
                // the explored order is the unique value-sorted order, so
                // the promised crossing lies on the explored chain, and the
                // search cannot have come back empty
                let (order, k): (Seq<usize>, int) = choose|order: Seq<usize>, k: int|
                    value_sorted_order(inputs@, order) && #[trigger] bnb_chain_crossing(
                        inputs@,
                        *options,
                        order,
                        k,
                    );
                assert(value_sorted_order(inputs@, entries_order(entries@))) by {
                    let eorder = entries_order(entries@);
                    assert forall|a: int, b: int|
                        0 <= a < b < eorder.len() implies (inputs@[(
                    #[trigger] eorder[a]) as int].value < inputs@[(#[trigger] eorder[b]) as int].value
                        || (inputs@[eorder[a] as int].value == inputs@[eorder[b] as int].value
                        && eorder[a] < eorder[b])) by {
                        assert(crate::sorting::entry_le(entries@[a], entries@[b]));
                        assert(entries@[a].idx != entries@[b].idx);
                        assert(entries@[a].key == inputs@[entries@[a].idx as int].value);
                        assert(entries@[b].key == inputs@[entries@[b].idx as int].value);
                    }
                }
                lemma_sorted_order_unique(inputs@, order, entries_order(entries@));
                assert(bnb_chain_crossing(inputs@, *options, entries_order(entries@), k));
                assert(bnb_chain_crossing(inputs@, *options, entries_order(entries@), chosen_k));
                assert(chain_hyp(
                    inputs@,
                    *options,
                    entries@,
                    Seq::empty(),
                    Seq::empty(),
                    0,
                    chosen_k,
                    1_000_000int,
                )) by {
                    assert(Seq::<int>::empty() =~= Seq::new(0nat, |j: int| j));
                }
                assert(false);
            }
        }
        Err(SelectionError::NoSolutionFound)
    }
}

/// A call of the search that sits on the all-include chain: everything so
/// far included, the promised crossing still ahead, and enough budget left
/// to reach it.
spec fn chain_hyp(
    inputs: Seq<OutputGroup>,
    opt: CoinSelectionOpt,
    entries: Seq<SortEntry>,
    sel0: Seq<usize>,
    positions: Seq<int>,
    depth: int,
    chain_k: int,
    tries0: int,
) -> bool {
    &&& sel0.len() == depth
    &&& positions =~= Seq::new(depth as nat, |j: int| j)
    &&& depth <= chain_k
    &&& bnb_chain_crossing(inputs, opt, entries_order(entries), chain_k)
    &&& tries0 >= chain_k - depth + 1
}

/// One node of the search: decide the input at `depth`, include first, then
/// exclude. Records a solution when the accumulated effective value, less
/// the fee of the accumulated weight, lands in `[target_for_match, upper]`.
/// A branch whose accumulation leaves 64 bits is abandoned.
fn bnb(
    inputs: &[OutputGroup],
    entries: &Vec<SortEntry>,
    selected: &mut Vec<usize>,
    Ghost(positions): Ghost<Seq<int>>,
    Ghost(chain_k): Ghost<int>,
    acc_value: u64,
    acc_weight: u64,
    depth: usize,
    options: &CoinSelectionOpt,
    target_for_match: u64,
    upper: u64,
    ctx: &mut BnbCtx,
)
    requires
        options.wf(),
        options.target_feerate is Rate,
        target_for_match == adjusted_target(*options),
        upper == adjusted_target(*options) + match_range(*options),
        entries@.len() == inputs@.len(),
        forall|t: int| 0 <= t < entries@.len() ==> (#[trigger] entries@[t]).idx < inputs@.len(),
        forall|a: int, b: int|
            0 <= a < b < entries@.len() ==> entries@[a].idx != entries@[b].idx,
        depth <= entries@.len(),
        positions.len() == old(selected)@.len(),
        forall|t: int|
            0 <= t < positions.len() ==> 0 <= (#[trigger] positions[t]) < depth && old(
                selected,
            )@[t] as u64 == entries@[positions[t]].idx,
        forall|a: int, b: int| 0 <= a < b < positions.len() ==> positions[a] != positions[b],
        valid_selection(old(selected)@, inputs@.len()),
        acc_value == sum_bnb_effective(
            inputs@,
            old(selected)@,
            options.target_feerate,
            options.min_absolute_fee as nat,
        ),
        acc_weight == sum_weights(inputs@, old(selected)@),
        best_wf(*old(ctx), inputs@, *options),
    ensures
        final(selected)@ == old(selected)@,
        best_wf(*final(ctx), inputs@, *options),
        final(ctx).tries <= old(ctx).tries,
        old(ctx).best_found ==> final(ctx).best_found && final(ctx).best_waste <= old(
            ctx,
        ).best_waste,
        chain_hyp(
            inputs@,
            *options,
            entries@,
            old(selected)@,
            positions,
            depth as int,
            chain_k,
            old(ctx).tries as int,
        ) ==> final(ctx).best_found,
    decreases entries@.len() - depth,
{
    let ghost sel0 = selected@;
    let ghost tries0 = ctx.tries;
    let ghost eorder = entries_order(entries@);
    let ghost hyp = chain_hyp(
        inputs@,
        *options,
        entries@,
        sel0,
        positions,
        depth as int,
        chain_k,
        tries0 as int,
    );
    if ctx.tries == 0 || depth >= entries.len() {
        return ;
    }
    ctx.tries = ctx.tries - 1;

    let fee = match calculate_fee(acc_weight, &options.target_feerate) {
        Ok(f) => f,
        Err(_) => options.min_absolute_fee,
    };
    assert(fee == fee_or(
        acc_weight as nat,
        options.target_feerate,
        options.min_absolute_fee as nat,
    ));
    let eff = if acc_value >= fee {
        acc_value - fee
    } else {
        0
    };
    proof {
        if hyp {
            // on the chain, this node's state is exactly the prefix of the
            // explored order, so its effective value is the chain's
            assert(positions =~= Seq::new(depth as nat, |j: int| j));
            assert forall|t: int|
                0 <= t < depth implies sel0[t] == eorder.subrange(0, depth as int)[t] by {
                assert(positions[t] == t);
                assert(sel0[t] as u64 == entries@[t].idx);
            }
            assert(sel0 =~= eorder.subrange(0, depth as int));
            assert(eff == chain_effective(inputs@, eorder, depth as int, *options));
        }
    }

    // prune: already past the window
    if eff > upper {
        return ;
    }

    // a hit: record it if it wastes less than the best so far
    if eff >= target_for_match {
        let waste = calculate_waste(options, acc_value, acc_weight, fee);
        if !ctx.best_found || waste.0 < ctx.best_waste {
            ctx.best_found = true;
            ctx.best_sel = clone_indices(selected);
            ctx.best_waste = waste.0;
        }
        return ;
    }

    let e = entries[depth];
    let idx = e.idx as usize;
    let g = inputs[idx];
    let ifee = match calculate_fee(g.weight, &options.target_feerate) {
        Ok(f) => f,
        Err(_) => options.min_absolute_fee,
    };
    let ieff = if g.value >= ifee {
        g.value - ifee
    } else {
        0
    };
    assert(ieff == bnb_effective(
        inputs@[idx as int],
        options.target_feerate,
        options.min_absolute_fee as nat,
    ));

    proof {
        if hyp {
            // on the chain below the crossing, the next accumulation still
            // fits inside the crossing node's bounds
            assert(eorder.subrange(0, depth + 1) =~= sel0.push(idx)) by {
                assert(eorder.subrange(0, depth + 1).drop_last() =~= eorder.subrange(
                    0,
                    depth as int,
                ));
            }
            lemma_sum_bnb_effective_push(
                inputs@,
                sel0,
                options.target_feerate,
                options.min_absolute_fee as nat,
                idx,
            );
            lemma_sum_weights_push(inputs@, sel0, idx);
            lemma_prefix_sums_monotone(
                inputs@,
                eorder,
                depth + 1,
                chain_k,
                options.target_feerate,
                options.min_absolute_fee as nat,
            );
        }
    }
    // include the input at this depth, then explore deeper
    match sum(acc_value, ieff) {
        Ok(new_value) => {
            match sum(acc_weight, g.weight) {
                Ok(new_weight) => {
                    proof {
                        assert forall|t: int| 0 <= t < selected@.len() implies (
                        #[trigger] selected@[t]) != idx by {
                            assert(selected@[t] as u64 == entries@[positions[t]].idx);
                            assert(entries@[positions[t]].idx != entries@[depth as int].idx);
                        }
                    }
                    let ghost prev_sel = selected@;
                    selected.push(idx);
                    proof {
                        lemma_sum_bnb_effective_push(
                            inputs@,
                            prev_sel,
                            options.target_feerate,
                            options.min_absolute_fee as nat,
                            idx,
                        );
                        lemma_sum_weights_push(inputs@, prev_sel, idx);
                    }
                    let ghost sel_at_call = selected@;
                    let ghost tries_at_call = ctx.tries;
                    bnb(
                        inputs,
                        entries,
                        selected,
                        Ghost(positions.push(depth as int)),
                        Ghost(chain_k),
                        new_value,
                        new_weight,
                        depth + 1,
                        options,
                        target_for_match,
                        upper,
                        ctx,
                    );
                    proof {
                        if hyp {
                            // the deeper chain call reports a find
                            assert(chain_hyp(
                                inputs@,
                                *options,
                                entries@,
                                sel_at_call,
                                positions.push(depth as int),
                                depth + 1,
                                chain_k,
                                tries_at_call as int,
                            )) by {
                                assert(positions.push(depth as int) =~= Seq::new(
                                    (depth + 1) as nat,
                                    |j: int| j,
                                ));
                            }
                            assert(ctx.best_found);
                        }
                    }
                    let ghost before_pop = selected@;
                    let popped = selected.pop();
                    proof {
                        assert(before_pop == prev_sel.push(idx));
                        assert(selected@ =~= prev_sel);
                    }
                },
                Err(_) => {},
            }
        },
        Err(_) => {},
    }

    // explore without it
    bnb(
        inputs,
        entries,
        selected,
        Ghost(positions),
        Ghost(chain_k),
        acc_value,
        acc_weight,
        depth + 1,
        options,
        target_for_match,
        upper,
        ctx,
    );
}

} // verus!
