//! A branch-and-bound search that first minimises change and then the input
//! count, pruning by the remaining suffix sum.

use vstd::prelude::*;
use vstd::arithmetic::power::{lemma_pow_adds, lemma_pow_positive, pow};
use crate::sorting::{lemma_perm_all, lemma_perm_distinct_idx, sort_entries, SortEntry};
use crate::types::{CoinSelectionOpt, FeeRate, OutputGroup, SelectionError, SelectionOutput};
use crate::utils::{
    calculate_fee, calculate_waste, clone_indices, effective_value, fee_or,
    lemma_rate_fee_monotonic_weight, lemma_selection_le_total, lemma_sum_concat,
    lemma_sum_values_push, lemma_sum_weights_push, rate_fee, sum, sum_values, sum_weights,
    total_value, total_weight, valid_selection, waste_spec,
};

verus! {

/// The base fee as this search accounts it: the fee of the base weight when
/// it is computable, and zero otherwise.
pub open spec fn lc_base_fee(opt: CoinSelectionOpt) -> nat {
    if opt.target_feerate is Rate && rate_fee(opt.base_weight as nat, opt.target_feerate)
        <= u64::MAX {
        rate_fee(opt.base_weight as nat, opt.target_feerate)
    } else {
        0
    }
}

/// The amount a candidate selection must reach before its own fee: the
/// target, the larger of the base fee and the absolute floor, and the
/// minimum worthwhile change.
pub open spec fn lc_target(opt: CoinSelectionOpt) -> nat {
    let floor = if lc_base_fee(opt) >= opt.min_absolute_fee {
        lc_base_fee(opt)
    } else {
        opt.min_absolute_fee as nat
    };
    (opt.target_value + opt.min_change_value + floor) as nat
}

/// Whether an input is a candidate for this search: its effective value is
/// positive.
pub open spec fn lc_keeps(group: OutputGroup, rate: FeeRate) -> bool {
    &&& rate is Rate
    &&& rate_fee(group.weight as nat, rate) <= u64::MAX
    &&& crate::utils::effective_value_spec(group, rate) > 0
}

/// How many inputs are candidates.
pub open spec fn candidate_count(inputs: Seq<OutputGroup>, rate: FeeRate) -> nat
    decreases inputs.len(),
{
    if inputs.len() == 0 {
        0
    } else {
        candidate_count(inputs.drop_last(), rate) + if lc_keeps(inputs.last(), rate) {
            1nat
        } else {
            0nat
        }
    }
}

/// The candidates' total value.
pub open spec fn candidate_value_total(inputs: Seq<OutputGroup>, rate: FeeRate) -> nat
    decreases inputs.len(),
{
    if inputs.len() == 0 {
        0
    } else {
        candidate_value_total(inputs.drop_last(), rate) + if lc_keeps(inputs.last(), rate) {
            inputs.last().value as nat
        } else {
            0nat
        }
    }
}

/// The candidates' total weight.
pub open spec fn candidate_weight_total(inputs: Seq<OutputGroup>, rate: FeeRate) -> nat
    decreases inputs.len(),
{
    if inputs.len() == 0 {
        0
    } else {
        candidate_weight_total(inputs.drop_last(), rate) + if lc_keeps(inputs.last(), rate) {
            inputs.last().weight as nat
        } else {
            0nat
        }
    }
}

/// Distinct candidate indices never sum past the candidates' totals.
proof fn lemma_candidate_sum_le(inputs: Seq<OutputGroup>, rate: FeeRate, sel: Seq<usize>)
    requires
        inputs.len() <= usize::MAX,
        forall|t: int|
            0 <= t < sel.len() ==> (#[trigger] sel[t]) < inputs.len() && lc_keeps(
                inputs[sel[t] as int],
                rate,
            ),
        forall|a: int, b: int| 0 <= a < b < sel.len() ==> sel[a] != sel[b],
    ensures
        sum_values(inputs, sel) <= candidate_value_total(inputs, rate),
        sum_weights(inputs, sel) <= candidate_weight_total(inputs, rate),
    decreases inputs.len(),
{
    let n = inputs.len();
    if n == 0 {
        if sel.len() > 0 {
            assert(sel[0] < 0);
        }
    } else {
        let lastv: usize = (n - 1) as usize;
        if sel.contains(lastv) {
            let k = choose|k: int| 0 <= k < sel.len() && sel[k] == lastv;
            crate::utils::lemma_sum_remove(inputs, sel, k);
            let rest = sel.remove(k);
            assert forall|t: int|
                0 <= t < rest.len() implies (#[trigger] rest[t]) < n - 1 && lc_keeps(
                inputs.drop_last()[rest[t] as int],
                rate,
            ) by {
                let orig = if t < k {
                    t
                } else {
                    t + 1
                };
                assert(rest[t] == sel[orig]);
                assert(sel[orig] != sel[k]);
                assert(inputs.drop_last()[rest[t] as int] == inputs[rest[t] as int]);
            }
            assert forall|a: int, b: int|
                0 <= a < b < rest.len() implies rest[a] != rest[b] by {
                let oa = if a < k {
                    a
                } else {
                    a + 1
                };
                let ob = if b < k {
                    b
                } else {
                    b + 1
                };
                assert(rest[a] == sel[oa]);
                assert(rest[b] == sel[ob]);
            }
            lemma_candidate_sum_le(inputs.drop_last(), rate, rest);
            assert forall|t: int|
                0 <= t < rest.len() implies (#[trigger] rest[t]) < inputs.len() && rest[t]
                < inputs.drop_last().len() && inputs[rest[t] as int] == inputs.drop_last()[rest[t] as int] by {
                assert(rest[t] < n - 1);
            }
            crate::utils::lemma_sum_agree(inputs, inputs.drop_last(), rest);
            assert(inputs[sel[k] as int] == inputs.last());
        } else {
            assert forall|t: int|
                0 <= t < sel.len() implies (#[trigger] sel[t]) < n - 1 && lc_keeps(
                inputs.drop_last()[sel[t] as int],
                rate,
            ) by {
                assert(sel[t] != lastv);
                assert(inputs.drop_last()[sel[t] as int] == inputs[sel[t] as int]);
            }
            lemma_candidate_sum_le(inputs.drop_last(), rate, sel);
            assert forall|t: int|
                0 <= t < sel.len() implies (#[trigger] sel[t]) < inputs.len() && sel[t]
                < inputs.drop_last().len() && inputs[sel[t] as int] == inputs.drop_last()[sel[t] as int] by {
                assert(sel[t] < n - 1);
            }
            crate::utils::lemma_sum_agree(inputs, inputs.drop_last(), sel);
        }
    }
}

/// Distinct candidate indices that hit every candidate sum to exactly the
/// candidates' totals.
proof fn lemma_candidate_sum_eq(inputs: Seq<OutputGroup>, rate: FeeRate, sel: Seq<usize>)
    requires
        inputs.len() <= usize::MAX,
        forall|t: int|
            0 <= t < sel.len() ==> (#[trigger] sel[t]) < inputs.len() && lc_keeps(
                inputs[sel[t] as int],
                rate,
            ),
        forall|a: int, b: int| 0 <= a < b < sel.len() ==> sel[a] != sel[b],
        forall|i: usize|
            (i as nat) < inputs.len() && lc_keeps(inputs[i as int], rate) ==> sel.contains(i),
    ensures
        sum_values(inputs, sel) == candidate_value_total(inputs, rate),
        sum_weights(inputs, sel) == candidate_weight_total(inputs, rate),
    decreases inputs.len(),
{
    let n = inputs.len();
    if n == 0 {
        if sel.len() > 0 {
            assert(sel[0] < 0);
        }
    } else {
        let lastv: usize = (n - 1) as usize;
        if lc_keeps(inputs.last(), rate) {
            assert(sel.contains(lastv));
            let k = choose|k: int| 0 <= k < sel.len() && sel[k] == lastv;
            crate::utils::lemma_sum_remove(inputs, sel, k);
            let rest = sel.remove(k);
            assert forall|t: int|
                0 <= t < rest.len() implies (#[trigger] rest[t]) < n - 1 && lc_keeps(
                inputs.drop_last()[rest[t] as int],
                rate,
            ) by {
                let orig = if t < k {
                    t
                } else {
                    t + 1
                };
                assert(rest[t] == sel[orig]);
                assert(sel[orig] != sel[k]);
                assert(inputs.drop_last()[rest[t] as int] == inputs[rest[t] as int]);
            }
            assert forall|a: int, b: int|
                0 <= a < b < rest.len() implies rest[a] != rest[b] by {
                let oa = if a < k {
                    a
                } else {
                    a + 1
                };
                let ob = if b < k {
                    b
                } else {
                    b + 1
                };
                assert(rest[a] == sel[oa]);
                assert(rest[b] == sel[ob]);
            }
            assert forall|i: usize|
                (i as nat) < inputs.drop_last().len() && lc_keeps(
                    inputs.drop_last()[i as int],
                    rate,
                ) implies rest.contains(i) by {
                assert(inputs.drop_last()[i as int] == inputs[i as int]);
                assert(sel.contains(i));
                let p = choose|p: int| 0 <= p < sel.len() && sel[p] == i;
                assert(p != k);
                let q = if p < k {
                    p
                } else {
                    p - 1
                };
                assert(rest[q] == sel[p]);
            }
            lemma_candidate_sum_eq(inputs.drop_last(), rate, rest);
            assert forall|t: int|
                0 <= t < rest.len() implies (#[trigger] rest[t]) < inputs.len() && rest[t]
                < inputs.drop_last().len() && inputs[rest[t] as int] == inputs.drop_last()[rest[t] as int] by {
                assert(rest[t] < n - 1);
            }
            crate::utils::lemma_sum_agree(inputs, inputs.drop_last(), rest);
            assert(inputs[sel[k] as int] == inputs.last());
        } else {
            assert forall|t: int|
                0 <= t < sel.len() implies (#[trigger] sel[t]) < n - 1 && lc_keeps(
                inputs.drop_last()[sel[t] as int],
                rate,
            ) by {
                if sel[t] == lastv {
                    assert(lc_keeps(inputs[sel[t] as int], rate));
                    assert(false);
                }
                assert(inputs.drop_last()[sel[t] as int] == inputs[sel[t] as int]);
            }
            assert forall|i: usize|
                (i as nat) < inputs.drop_last().len() && lc_keeps(
                    inputs.drop_last()[i as int],
                    rate,
                ) implies sel.contains(i) by {
                assert(inputs.drop_last()[i as int] == inputs[i as int]);
            }
            lemma_candidate_sum_eq(inputs.drop_last(), rate, sel);
            assert forall|t: int|
                0 <= t < sel.len() implies (#[trigger] sel[t]) < inputs.len() && sel[t]
                < inputs.drop_last().len() && inputs[sel[t] as int] == inputs.drop_last()[sel[t] as int] by {
                assert(sel[t] < n - 1);
            }
            crate::utils::lemma_sum_agree(inputs, inputs.drop_last(), sel);
        }
    }
}

/// When the candidates as a whole can pay for the target and their own
/// combined fee, the search always finds some selection.
pub open spec fn lc_success_conditions(inputs: Seq<OutputGroup>, opt: CoinSelectionOpt) -> bool {
    let rate = opt.target_feerate;
    &&& rate is Rate
    &&& candidate_count(inputs, rate) > 0
    &&& lc_target(opt) <= u64::MAX
    &&& candidate_value_total(inputs, rate) <= u64::MAX
    &&& candidate_weight_total(inputs, rate) <= u64::MAX
    &&& rate_fee(candidate_weight_total(inputs, rate), rate) <= u64::MAX
    &&& lc_target(opt) + rate_fee(candidate_weight_total(inputs, rate), rate) <= u64::MAX
    &&& candidate_value_total(inputs, rate) >= lc_target(opt) + rate_fee(
        candidate_weight_total(inputs, rate),
        rate,
    )
}

/// A positive candidate count names a candidate.
proof fn lemma_candidate_exists(inputs: Seq<OutputGroup>, rate: FeeRate)
    requires
        candidate_count(inputs, rate) > 0,
    ensures
        exists|i: int| 0 <= i < inputs.len() && lc_keeps(#[trigger] inputs[i], rate),
    decreases inputs.len(),
{
    if lc_keeps(inputs.last(), rate) {
        assert(lc_keeps(inputs[inputs.len() - 1], rate));
    } else {
        lemma_candidate_exists(inputs.drop_last(), rate);
        let i = choose|i: int|
            0 <= i < inputs.drop_last().len() && lc_keeps(inputs.drop_last()[i], rate);
        assert(inputs.drop_last()[i] == inputs[i]);
        assert(lc_keeps(inputs[i], rate));
    }
}

/// A list that holds the original index behind every sorted position holds
/// every candidate.
proof fn lemma_positions_cover(
    inputs: Seq<OutputGroup>,
    entries: Seq<SortEntry>,
    fidx: Seq<usize>,
    rate: FeeRate,
    covering: Seq<usize>,
)
    requires
        entries.len() == fidx.len(),
        fidx.len() <= usize::MAX,
        forall|p: int| 0 <= p < entries.len() ==> (#[trigger] entries[p]).idx < fidx.len(),
        forall|a: int, b: int| 0 <= a < b < entries.len() ==> entries[a].idx != entries[b].idx,
        forall|i: usize|
            (i as nat) < inputs.len() && lc_keeps(inputs[i as int], rate) ==> fidx.contains(i),
        forall|p: int|
            0 <= p < entries.len() ==> covering.contains(#[trigger] orig_of(entries, fidx, p)),
    ensures
        forall|i: usize|
            (i as nat) < inputs.len() && lc_keeps(inputs[i as int], rate) ==> covering.contains(
                i,
            ),
{
    let m = fidx.len();
    let idxs = Seq::new(m, |p: int| entries[p].idx as usize);
    assert(valid_selection(idxs, m));
    assert forall|i: usize|
        (i as nat) < inputs.len() && lc_keeps(inputs[i as int], rate) implies covering.contains(
        i,
    ) by {
        assert(fidx.contains(i));
        let t = choose|t: int| 0 <= t < fidx.len() && fidx[t] == i;
        crate::utils::lemma_selection_onto(idxs, m, t as usize);
        let p = choose|p: int| 0 <= p < idxs.len() && idxs[p] == t as usize;
        assert(orig_of(entries, fidx, p) == i);
        assert(covering.contains(orig_of(entries, fidx, p)));
    }
}

/// A selection of distinct candidates and the remaining suffix together
/// stay within the candidates' totals.
proof fn lemma_combined_le_candidates(
    inputs: Seq<OutputGroup>,
    entries: Seq<SortEntry>,
    fidx: Seq<usize>,
    rate: FeeRate,
    sel: Seq<usize>,
    positions: Seq<int>,
    sfx: Seq<usize>,
    index: int,
    n: nat,
    m: nat,
)
    requires
        n == inputs.len(),
        n <= usize::MAX,
        m == fidx.len() == entries.len(),
        forall|p: int| 0 <= p < m ==> (#[trigger] entries[p]).idx < m,
        forall|s: int|
            0 <= s < m ==> (#[trigger] fidx[s]) < n && lc_keeps(inputs[fidx[s] as int], rate),
        forall|p1: int, p2: int|
            0 <= p1 < p2 < m ==> orig_of(entries, fidx, p1) != orig_of(entries, fidx, p2),
        positions.len() == sel.len(),
        forall|t: int|
            0 <= t < positions.len() ==> 0 <= (#[trigger] positions[t]) < index && sel[t]
                == orig_of(entries, fidx, positions[t]),
        forall|a: int, b: int| 0 <= a < b < positions.len() ==> positions[a] != positions[b],
        0 <= index <= m,
        sfx == suffix_orig(entries, fidx, index, m as int),
    ensures
        sum_values(inputs, sel) + sum_values(inputs, sfx) <= candidate_value_total(inputs, rate),
{
    let combined = sel + sfx;
    assert forall|a: int, b: int| 0 <= a < b < combined.len() implies combined[a]
        != combined[b] by {
        if b < sel.len() {
            assert(combined[a] == sel[a] && combined[b] == sel[b]);
            assert(sel[a] == orig_of(entries, fidx, positions[a]));
            assert(sel[b] == orig_of(entries, fidx, positions[b]));
            if positions[a] < positions[b] {
                assert(orig_of(entries, fidx, positions[a]) != orig_of(
                    entries,
                    fidx,
                    positions[b],
                ));
            } else {
                assert(orig_of(entries, fidx, positions[b]) != orig_of(
                    entries,
                    fidx,
                    positions[a],
                ));
            }
        } else if a >= sel.len() {
            let pa = m - 1 - (a - sel.len());
            let pb = m - 1 - (b - sel.len());
            assert(combined[a] == sfx[a - sel.len()] && combined[b] == sfx[b - sel.len()]);
            assert(sfx[a - sel.len()] == orig_of(entries, fidx, pa));
            assert(sfx[b - sel.len()] == orig_of(entries, fidx, pb));
            assert(orig_of(entries, fidx, pb) != orig_of(entries, fidx, pa));
        } else {
            let pb = m - 1 - (b - sel.len());
            assert(combined[a] == sel[a] && combined[b] == sfx[b - sel.len()]);
            assert(sel[a] == orig_of(entries, fidx, positions[a]));
            assert(sfx[b - sel.len()] == orig_of(entries, fidx, pb));
            assert(positions[a] < index <= pb);
            assert(orig_of(entries, fidx, positions[a]) != orig_of(entries, fidx, pb));
        }
    }
    assert forall|t: int|
        0 <= t < combined.len() implies (#[trigger] combined[t]) < n && lc_keeps(
        inputs[combined[t] as int],
        rate,
    ) by {
        if t < sel.len() {
            assert(combined[t] == sel[t]);
            assert(sel[t] == orig_of(entries, fidx, positions[t]));
        } else {
            assert(combined[t] == sfx[t - sel.len()]);
            assert(sfx[t - sel.len()] == orig_of(entries, fidx, m - 1 - (t - sel.len())));
        }
    }
    lemma_candidate_sum_le(inputs, rate, combined);
    lemma_sum_concat(inputs, sel, sfx);
}

/// A chain node's selection of every sorted position below `index` and the
/// suffix from `index` accumulate exactly the candidates' totals.
proof fn lemma_chain_totals(
    inputs: Seq<OutputGroup>,
    entries: Seq<SortEntry>,
    fidx: Seq<usize>,
    rate: FeeRate,
    sel: Seq<usize>,
    sfx: Seq<usize>,
    index: int,
    n: nat,
    m: nat,
)
    requires
        n == inputs.len(),
        n <= usize::MAX,
        m == fidx.len() == entries.len(),
        forall|p: int| 0 <= p < m ==> (#[trigger] entries[p]).idx < m,
        forall|a: int, b: int| 0 <= a < b < m ==> entries[a].idx != entries[b].idx,
        forall|s: int|
            0 <= s < m ==> (#[trigger] fidx[s]) < n && lc_keeps(inputs[fidx[s] as int], rate),
        forall|i: usize|
            (i as nat) < n && lc_keeps(inputs[i as int], rate) ==> fidx.contains(i),
        forall|p1: int, p2: int|
            0 <= p1 < p2 < m ==> orig_of(entries, fidx, p1) != orig_of(entries, fidx, p2),
        sel.len() == index,
        forall|t: int| 0 <= t < index ==> (#[trigger] sel[t]) == orig_of(entries, fidx, t),
        0 <= index <= m,
        sfx == suffix_orig(entries, fidx, index, m as int),
        m <= usize::MAX,
    ensures
        sum_values(inputs, sel) + sum_values(inputs, sfx) == candidate_value_total(inputs, rate),
        sum_weights(inputs, sel) + sum_weights(inputs, sfx) == candidate_weight_total(
            inputs,
            rate,
        ),
{
    let combined = sel + sfx;
    assert forall|a: int, b: int| 0 <= a < b < combined.len() implies combined[a]
        != combined[b] by {
        if b < sel.len() {
            assert(combined[a] == sel[a] && combined[b] == sel[b]);
            assert(sel[a] == orig_of(entries, fidx, a));
            assert(sel[b] == orig_of(entries, fidx, b));
            assert(orig_of(entries, fidx, a) != orig_of(entries, fidx, b));
        } else if a >= sel.len() {
            let pa = m - 1 - (a - sel.len());
            let pb = m - 1 - (b - sel.len());
            assert(combined[a] == sfx[a - sel.len()] && combined[b] == sfx[b - sel.len()]);
            assert(sfx[a - sel.len()] == orig_of(entries, fidx, pa));
            assert(sfx[b - sel.len()] == orig_of(entries, fidx, pb));
            assert(orig_of(entries, fidx, pb) != orig_of(entries, fidx, pa));
        } else {
            let pb = m - 1 - (b - sel.len());
            assert(combined[a] == sel[a] && combined[b] == sfx[b - sel.len()]);
            assert(sel[a] == orig_of(entries, fidx, a));
            assert(sfx[b - sel.len()] == orig_of(entries, fidx, pb));
            assert(a < index <= pb);
            assert(orig_of(entries, fidx, a) != orig_of(entries, fidx, pb));
        }
    }
    assert forall|t: int|
        0 <= t < combined.len() implies (#[trigger] combined[t]) < n && lc_keeps(
        inputs[combined[t] as int],
        rate,
    ) by {
        if t < sel.len() {
            assert(combined[t] == sel[t]);
            assert(sel[t] == orig_of(entries, fidx, t));
        } else {
            assert(combined[t] == sfx[t - sel.len()]);
            assert(sfx[t - sel.len()] == orig_of(entries, fidx, m - 1 - (t - sel.len())));
        }
    }
    assert forall|p: int|
        0 <= p < entries.len() implies combined.contains(#[trigger] orig_of(entries, fidx, p)) by {
        if p < index {
            assert(combined[p] == sel[p]);
            assert(sel[p] == orig_of(entries, fidx, p));
        } else {
            let j = m - 1 - p;
            assert(sfx[j] == orig_of(entries, fidx, p));
            assert(combined[sel.len() + j] == sfx[j]);
        }
    }
    lemma_positions_cover(inputs, entries, fidx, rate, combined);
    lemma_candidate_sum_eq(inputs, rate, combined);
    lemma_sum_concat(inputs, sel, sfx);
}

/// A selection of distinct candidates extended by one fresh candidate still
/// stays within the candidates' totals.
proof fn lemma_extend_le_candidates(
    inputs: Seq<OutputGroup>,
    rate: FeeRate,
    sel: Seq<usize>,
    idx: usize,
    n: nat,
)
    requires
        n == inputs.len(),
        n <= usize::MAX,
        forall|t: int|
            0 <= t < sel.len() ==> (#[trigger] sel[t]) < n && lc_keeps(
                inputs[sel[t] as int],
                rate,
            ),
        forall|a: int, b: int| 0 <= a < b < sel.len() ==> sel[a] != sel[b],
        (idx as nat) < n,
        lc_keeps(inputs[idx as int], rate),
        forall|t: int| 0 <= t < sel.len() ==> (#[trigger] sel[t]) != idx,
    ensures
        sum_values(inputs, sel) + inputs[idx as int].value <= candidate_value_total(inputs, rate),
        sum_weights(inputs, sel) + inputs[idx as int].weight <= candidate_weight_total(
            inputs,
            rate,
        ),
{
    lemma_sum_values_push(inputs, sel, idx);
    lemma_sum_weights_push(inputs, sel, idx);
    let pushed = sel.push(idx);
    assert(forall|t: int| 0 <= t < sel.len() ==> pushed[t] == sel[t]);
    assert(pushed[sel.len() as int] == idx);
    lemma_candidate_sum_le(inputs, rate, pushed);
}

/// One node of the depth-first search: the next sorted position to decide,
/// and the selection accumulated so far.
struct SearchState {
    index: usize,
    eff: u64,
    selection: Vec<usize>,
    count: usize,
    weight: u64,
    positions: Ghost<Seq<int>>,
}

/// The original index behind a sorted position.
spec fn orig_of(entries: Seq<SortEntry>, fidx: Seq<usize>, pos: int) -> usize {
    fidx[entries[pos].idx as int]
}

/// The original indices of the sorted positions from `t` to the end (in
/// reverse, which no sum minds).
spec fn suffix_orig(entries: Seq<SortEntry>, fidx: Seq<usize>, t: int, m: int) -> Seq<usize> {
    Seq::new((m - t) as nat, |j: int| orig_of(entries, fidx, m - 1 - j))
}

/// A search node is well formed: its bookkeeping matches its selection, and
/// the selection picks distinct sorted positions below its index.
spec fn state_wf(
    st: SearchState,
    inputs: Seq<OutputGroup>,
    entries: Seq<SortEntry>,
    fidx: Seq<usize>,
    n: nat,
    m: nat,
) -> bool {
    &&& st.index <= m
    &&& st.count == st.selection@.len()
    &&& valid_selection(st.selection@, n)
    &&& st.eff == sum_values(inputs, st.selection@)
    &&& st.weight == sum_weights(inputs, st.selection@)
    &&& st.positions@.len() == st.selection@.len()
    &&& forall|t: int|
        0 <= t < st.positions@.len() ==> 0 <= (#[trigger] st.positions@[t]) < st.index
            && st.selection@[t] == orig_of(entries, fidx, st.positions@[t])
    &&& forall|a: int, b: int|
        0 <= a < b < st.positions@.len() ==> st.positions@[a] != st.positions@[b]
}

/// How much search is left under one node.
spec fn node_measure(st: SearchState, m: nat) -> nat {
    pow(3, (m - st.index) as nat) as nat
}

/// How much search is left in the whole stack.
spec fn stack_measure(stack: Seq<SearchState>, m: nat) -> nat
    decreases stack.len(),
{
    if stack.len() == 0 {
        0
    } else {
        stack_measure(stack.drop_last(), m) + node_measure(stack.last(), m)
    }
}

proof fn lemma_node_measure_pos(st: SearchState, m: nat)
    ensures
        node_measure(st, m) >= 1,
{
    lemma_pow_positive(3, (m - st.index) as nat);
}

proof fn lemma_node_measure_step(parent: SearchState, child: SearchState, m: nat)
    requires
        parent.index < m,
        child.index == parent.index + 1,
    ensures
        3 * node_measure(child, m) == node_measure(parent, m),
{
    let k = (m - parent.index) as nat;
    lemma_pow_adds(3, 1, (k - 1) as nat);
    assert(pow(3, 1) == 3) by {
        vstd::arithmetic::power::lemma_pow1(3);
    }
    lemma_pow_positive(3, (k - 1) as nat);
}

proof fn lemma_stack_measure_push(stack: Seq<SearchState>, st: SearchState, m: nat)
    ensures
        stack_measure(stack.push(st), m) == stack_measure(stack, m) + node_measure(st, m),
{
    assert(stack.push(st).drop_last() =~= stack);
    assert(stack.push(st).last() == st);
}

/// Selects inputs whose values first minimise the change left over the
/// target plus the selection's own fee, breaking ties by input count.
///
/// A negative, infinite or NaN rate is rejected outright. Inputs without a
/// positive effective value are never candidates. The search is a
/// depth-first walk over the candidates sorted by value descending, pruned
/// where even the whole remaining suffix cannot reach the target.
pub fn select_coin_bnb_leastchange(inputs: &[OutputGroup], options: &CoinSelectionOpt) -> (r:
    Result<SelectionOutput, SelectionError>)
    requires
        options.wf(),
    ensures
        match r {
            Ok(out) => {
                &&& options.target_feerate is Rate
                &&& valid_selection(out.selected_inputs@, inputs@.len())
                &&& out.selected_inputs@.len() > 0
                &&& forall|t: int|
                    0 <= t < out.selected_inputs@.len() ==> lc_keeps(
                        inputs@[(#[trigger] out.selected_inputs@[t]) as int],
                        options.target_feerate,
                    )
                &&& sum_values(inputs@, out.selected_inputs@) >= lc_target(*options) + fee_or(
                    sum_weights(inputs@, out.selected_inputs@),
                    options.target_feerate,
                    0,
                )
                &&& out.waste.0 == waste_spec(
                    *options,
                    sum_values(inputs@, out.selected_inputs@),
                    sum_weights(inputs@, out.selected_inputs@),
                    fee_or(
                        sum_weights(inputs@, out.selected_inputs@),
                        options.target_feerate,
                        0,
                    ),
                )
            },
            Err(e) => match e {
                SelectionError::InvalidFeeRate => options.target_feerate is Invalid,
                // the search exhausted every unpruned branch without a hit,
                // so in particular the candidates together cannot pay
                SelectionError::InsufficientFunds => options.target_feerate is Rate && lc_target(
                    *options,
                ) <= u64::MAX && candidate_value_total(inputs@, options.target_feerate)
                    <= u64::MAX && !lc_success_conditions(inputs@, *options),
                SelectionError::ArithmeticOverflow => options.target_feerate is Rate && (
                total_value(inputs@) > u64::MAX || total_weight(inputs@) > u64::MAX || lc_target(
                    *options,
                ) > u64::MAX || lc_target(*options) + rate_fee(
                    total_weight(inputs@),
                    options.target_feerate,
                ) > u64::MAX),
                _ => false,
            },
        },
        // an invalid rate is rejected before anything is searched
        options.target_feerate is Invalid ==> r == Err::<SelectionOutput, SelectionError>(
            SelectionError::InvalidFeeRate,
        ),
        // success is owed once the candidates can pay for the target and
        // their own combined fee
        lc_success_conditions(inputs@, *options) ==> r is Ok,
{
    let n = inputs.len();
    let base_fees = match calculate_fee(options.base_weight, &options.target_feerate) {
        Ok(v) => v,
        Err(SelectionError::InvalidFeeRate) => {
            return Err(SelectionError::InvalidFeeRate);
        },
        Err(_) => 0,
    };
    let floor = if base_fees >= options.min_absolute_fee {
        base_fees
    } else {
        options.min_absolute_fee
    };
    let with_mc = match sum(options.target_value, options.min_change_value) {
        Ok(v) => v,
        Err(err) => {
            return Err(err);
        },
    };
    let target = match sum(with_mc, floor) {
        Ok(v) => v,
        Err(err) => {
            return Err(err);
        },
    };
    assert(target == lc_target(*options));

    // keep only inputs with a positive effective value
    let mut fidx: Vec<usize> = Vec::new();
    let mut fval: Vec<u64> = Vec::new();
    let mut fwt: Vec<u64> = Vec::new();
    let mut k: usize = 0;
    while k < n
        invariant
            options.wf(),
            k <= n,
            n == inputs@.len(),
            fval@.len() == fidx@.len(),
            fwt@.len() == fidx@.len(),
            forall|t: int| 0 <= t < fidx@.len() ==> (#[trigger] fidx@[t]) < k,
            forall|a: int, b: int| 0 <= a < b < fidx@.len() ==> fidx@[a] < fidx@[b],
            forall|t: int|
                0 <= t < fidx@.len() ==> fval@[t] == inputs@[(#[trigger] fidx@[t]) as int].value
                    && fwt@[t] == inputs@[fidx@[t] as int].weight,
            forall|t: int|
                0 <= t < fidx@.len() ==> lc_keeps(
                    inputs@[(#[trigger] fidx@[t]) as int],
                    options.target_feerate,
                ),
            forall|i: usize|
                (i as nat) < k && lc_keeps(inputs@[i as int], options.target_feerate)
                    ==> fidx@.contains(i),
            fidx@.len() > 0 ==> options.target_feerate is Rate,
        decreases n - k,
    {
        let g = inputs[k];
        let ghost prev_fidx = fidx@;
        match effective_value(&g, &options.target_feerate) {
            Ok(net) => {
                if net > 0 {
                    fidx.push(k);
                    fval.push(g.value);
                    fwt.push(g.weight);
                }
            },
            Err(_) => {},
        }
        proof {
            assert forall|i: usize|
                (i as nat) < k + 1 && lc_keeps(inputs@[i as int], options.target_feerate)
                    implies fidx@.contains(i) by {
                if (i as nat) < k {
                    assert(prev_fidx.contains(i));
                    let t = choose|t: int| 0 <= t < prev_fidx.len() && prev_fidx[t] == i;
                    assert(fidx@[t] == i);
                } else {
                    assert(fidx@.last() == i);
                }
            }
        }
        k = k + 1;
    }
    let m = fidx.len();

    // sort the candidates by value descending, original order on ties
    let mut entries: Vec<SortEntry> = Vec::new();
    let mut t: usize = 0;
    while t < m
        invariant
            t <= m,
            m == fidx@.len(),
            fval@.len() == m,
            entries@.len() == t,
            forall|s: int| 0 <= s < t ==> (#[trigger] entries@[s]).idx == s,
        decreases m - t,
    {
        entries.push(
            SortEntry { key: u64::MAX - fval[t], key2: fidx[t] as u64, idx: t as u64 },
        );
        t = t + 1;
    }
    let ghost unsorted = entries@;
    sort_entries(&mut entries);
    proof {
        lemma_perm_all(unsorted, entries@, |e: SortEntry| e.idx < m);
        lemma_perm_distinct_idx(unsorted, entries@);
        assert forall|p1: int, p2: int| 0 <= p1 < p2 < m implies orig_of(entries@, fidx@, p1)
            != orig_of(entries@, fidx@, p2) by {
            assert(entries@[p1].idx != entries@[p2].idx);
            let a = entries@[p1].idx as int;
            let b = entries@[p2].idx as int;
            if a < b {
                assert(fidx@[a] < fidx@[b]);
            } else {
                assert(fidx@[b] < fidx@[a]);
            }
        }
    }

    // suffix sums of the sorted values, for pruning
    let mut rem: Vec<u64> = Vec::new();
    rem.push(0);
    let mut z: usize = 0;
    while z < m
        invariant
            z <= m,
            rem@.len() == z + 1,
            forall|s: int| 0 <= s <= z ==> rem@[s] == 0,
        decreases m - z,
    {
        rem.push(0);
        z = z + 1;
    }
    let mut i: usize = m;
    proof {
        assert(suffix_orig(entries@, fidx@, m as int, m as int) =~= Seq::<usize>::empty());
    }
    while i > 0
        invariant
            options.wf(),
            n == inputs@.len(),
            m == fidx@.len(),
            fval@.len() == m,
            fwt@.len() == m,
            entries@.len() == m,
            i <= m,
            rem@.len() == m + 1,
            forall|s: int| 0 <= s < m ==> (#[trigger] entries@[s]).idx < m,
            forall|a: int, b: int| 0 <= a < b < m ==> entries@[a].idx != entries@[b].idx,
            forall|s: int| 0 <= s < m ==> (#[trigger] fidx@[s]) < n,
            forall|a: int, b: int| 0 <= a < b < m ==> fidx@[a] < fidx@[b],
            forall|s: int|
                0 <= s < m ==> fval@[s] == inputs@[(#[trigger] fidx@[s]) as int].value && fwt@[s]
                    == inputs@[fidx@[s] as int].weight,
            forall|s: int|
                0 <= s < m ==> lc_keeps(
                    inputs@[(#[trigger] fidx@[s]) as int],
                    options.target_feerate,
                ),
            forall|p1: int, p2: int|
                0 <= p1 < p2 < m ==> orig_of(entries@, fidx@, p1) != orig_of(entries@, fidx@, p2),
            forall|s: int|
                i <= s <= m ==> {
                    &&& valid_selection(
                        suffix_orig(entries@, fidx@, s, m as int),
                        n as nat,
                    )
                    &&& rem@[s] == sum_values(
                        inputs@,
                        suffix_orig(entries@, fidx@, s, m as int),
                    )
                },
        decreases i,
    {
        i = i - 1;
        let slot = entries[i].idx as usize;
        let ghost sfx = suffix_orig(entries@, fidx@, i + 1, m as int);
        let ghost sfx_new = suffix_orig(entries@, fidx@, i as int, m as int);
        proof {
            assert(sfx_new =~= sfx.push(orig_of(entries@, fidx@, i as int)));
            assert(valid_selection(sfx_new, n as nat)) by {
                assert forall|a: int, b: int|
                    0 <= a < b < sfx_new.len() implies sfx_new[a] != sfx_new[b] by {
                    assert(sfx_new[a] == orig_of(entries@, fidx@, m - 1 - a));
                    assert(sfx_new[b] == orig_of(entries@, fidx@, m - 1 - b));
                }
            }
            lemma_sum_values_push(inputs@, sfx, orig_of(entries@, fidx@, i as int));
        }
        let s = match sum(rem[i + 1], fval[slot]) {
            Ok(v) => v,
            Err(err) => {
                proof {
                    lemma_selection_le_total(inputs@, sfx_new);
                    assert forall|t: int|
                        0 <= t < sfx_new.len() implies (#[trigger] sfx_new[t]) < n && lc_keeps(
                        inputs@[sfx_new[t] as int],
                        options.target_feerate,
                    ) by {
                        assert(sfx_new[t] == orig_of(entries@, fidx@, m - 1 - t));
                    }
                    lemma_candidate_sum_le(inputs@, options.target_feerate, sfx_new);
                }
                return Err(err);
            },
        };
        rem[i] = s;
    }

    // depth-first search, skip child under the include child
    let mut best_found: bool = false;
    let mut best_sel: Vec<usize> = Vec::new();
    let mut best_change: u64 = 0;
    let mut best_count: usize = 0;
    let mut best_val: u64 = 0;
    let mut best_wt: u64 = 0;
    let mut stack: Vec<SearchState> = Vec::new();
    stack.push(
        SearchState {
            index: 0,
            eff: 0,
            selection: Vec::new(),
            count: 0,
            weight: 0,
            positions: Ghost(Seq::empty()),
        },
    );
    let ghost hyp = lc_success_conditions(inputs@, *options);
    let ghost mut chain_k: int = 0;
    proof {
        if hyp {
            lemma_candidate_exists(inputs@, options.target_feerate);
            let i = choose|i: int|
                0 <= i < inputs@.len() && lc_keeps(#[trigger] inputs@[i], options.target_feerate);
            assert(fidx@.contains(i as usize));
        }
        assert(stack@.last().positions@ =~= Seq::new(0nat, |j: int| j));
    }
    loop
        invariant_except_break
            options.wf(),
            n == inputs@.len(),
            m == fidx@.len(),
            fval@.len() == m,
            fwt@.len() == m,
            entries@.len() == m,
            rem@.len() == m + 1,
            target == lc_target(*options),
            m > 0 ==> options.target_feerate is Rate,
            forall|s: int| 0 <= s < m ==> (#[trigger] entries@[s]).idx < m,
            forall|a: int, b: int| 0 <= a < b < m ==> entries@[a].idx != entries@[b].idx,
            forall|s: int| 0 <= s < m ==> (#[trigger] fidx@[s]) < n,
            forall|s: int|
                0 <= s < m ==> fval@[s] == inputs@[(#[trigger] fidx@[s]) as int].value && fwt@[s]
                    == inputs@[fidx@[s] as int].weight,
            forall|s: int|
                0 <= s < m ==> lc_keeps(
                    inputs@[(#[trigger] fidx@[s]) as int],
                    options.target_feerate,
                ),
            forall|i: usize|
                (i as nat) < n && lc_keeps(inputs@[i as int], options.target_feerate)
                    ==> fidx@.contains(i),
            forall|p1: int, p2: int|
                0 <= p1 < p2 < m ==> orig_of(entries@, fidx@, p1) != orig_of(entries@, fidx@, p2),
            forall|s: int|
                0 <= s <= m ==> {
                    &&& valid_selection(
                        suffix_orig(entries@, fidx@, s, m as int),
                        n as nat,
                    )
                    &&& rem@[s] == sum_values(
                        inputs@,
                        suffix_orig(entries@, fidx@, s, m as int),
                    )
                },
            forall|t: int|
                0 <= t < stack@.len() ==> state_wf(
                    #[trigger] stack@[t],
                    inputs@,
                    entries@,
                    fidx@,
                    n as nat,
                    m as nat,
                ),
            hyp == lc_success_conditions(inputs@, *options),
            hyp ==> m > 0,
            (hyp && !best_found) ==> {
                &&& stack@.len() > 0
                &&& 0 <= chain_k < m
                &&& stack@.last().index == chain_k
                &&& stack@.last().positions@ == Seq::new(chain_k as nat, |j: int| j)
            },
            best_found ==> {
                &&& options.target_feerate is Rate
                &&& valid_selection(best_sel@, n as nat)
                &&& best_sel@.len() > 0
                &&& forall|t: int|
                    0 <= t < best_sel@.len() ==> lc_keeps(
                        inputs@[(#[trigger] best_sel@[t]) as int],
                        options.target_feerate,
                    )
                &&& best_val == sum_values(inputs@, best_sel@)
                &&& best_wt == sum_weights(inputs@, best_sel@)
                &&& best_val >= lc_target(*options) + fee_or(
                    best_wt as nat,
                    options.target_feerate,
                    0,
                )
            },
        ensures
            best_found ==> {
                &&& options.target_feerate is Rate
                &&& valid_selection(best_sel@, n as nat)
                &&& best_sel@.len() > 0
                &&& forall|t: int|
                    0 <= t < best_sel@.len() ==> lc_keeps(
                        inputs@[(#[trigger] best_sel@[t]) as int],
                        options.target_feerate,
                    )
                &&& best_val == sum_values(inputs@, best_sel@)
                &&& best_wt == sum_weights(inputs@, best_sel@)
                &&& best_val >= lc_target(*options) + fee_or(
                    best_wt as nat,
                    options.target_feerate,
                    0,
                )
            },
            hyp ==> best_found,
        decreases stack_measure(stack@, m as nat),
    {
        if stack.len() == 0 {
            break ;
        }
        let ghost old_stack = stack@;
        let state_opt = stack.pop();
        let state = match state_opt {
            Some(s) => s,
            None => {
                break ;
            },
        };
        proof {
            assert(old_stack.drop_last() =~= stack@);
            lemma_node_measure_pos(state, m as nat);
        }
        if state.index >= m {
            continue ;
        }
        let ghost sfx = suffix_orig(entries@, fidx@, state.index as int, m as int);
        let reachable = match sum(state.eff, rem[state.index]) {
            Ok(v) => v,
            Err(err) => {
                proof {
                    lemma_combined_le_total(
                        inputs@,
                        state.selection@,
                        state.positions@,
                        sfx,
                        entries@,
                        fidx@,
                        state.index as int,
                        n as nat,
                        m as nat,
                    );
                    lemma_combined_le_candidates(
                        inputs@,
                        entries@,
                        fidx@,
                        options.target_feerate,
                        state.selection@,
                        state.positions@,
                        sfx,
                        state.index as int,
                        n as nat,
                        m as nat,
                    );
                }
                return Err(err);
            },
        };
        proof {
            if hyp && !best_found {
                // the popped node is the all-include chain node, whose
                // selection and remaining suffix together hold every
                // candidate, so the prune threshold cannot cut it
                assert forall|t: int|
                    0 <= t < state.selection@.len() implies (#[trigger] state.selection@[t])
                    == orig_of(entries@, fidx@, t) by {
                    assert(state.positions@[t] == t);
                }
                lemma_chain_totals(
                    inputs@,
                    entries@,
                    fidx@,
                    options.target_feerate,
                    state.selection@,
                    sfx,
                    state.index as int,
                    n as nat,
                    m as nat,
                );
            }
        }
        if reachable < target {
            continue ;
        }
        // skip child
        let skip_sel = clone_indices(&state.selection);
        let skip_state = SearchState {
            index: state.index + 1,
            eff: state.eff,
            selection: skip_sel,
            count: state.count,
            weight: state.weight,
            positions: Ghost(state.positions@),
        };
        proof {
            lemma_stack_measure_push(stack@, skip_state, m as nat);
            lemma_node_measure_step(state, skip_state, m as nat);
        }
        stack.push(skip_state);
        // include child
        let slot = entries[state.index].idx as usize;
        let oidx = fidx[slot];
        proof {
            assert forall|t: int| 0 <= t < state.selection@.len() implies (#[trigger] state
                .selection@[t]) != oidx by {
                assert(state.selection@[t] == orig_of(entries@, fidx@, state.positions@[t]));
                assert(orig_of(entries@, fidx@, state.positions@[t]) != orig_of(
                    entries@,
                    fidx@,
                    state.index as int,
                ));
            }
            assert forall|t: int|
                0 <= t < state.selection@.len() implies (#[trigger] state.selection@[t]) < n
                && lc_keeps(
                inputs@[state.selection@[t] as int],
                options.target_feerate,
            ) by {
                assert(state.selection@[t] == orig_of(entries@, fidx@, state.positions@[t]));
            }
            assert(lc_keeps(inputs@[oidx as int], options.target_feerate));
        }
        let ghost prev_sel = state.selection@;
        let new_eff = match sum(state.eff, fval[slot]) {
            Ok(v) => v,
            Err(err) => {
                proof {
                    lemma_extend_le_total(inputs@, prev_sel, oidx, n as nat);
                    lemma_extend_le_candidates(
                        inputs@,
                        options.target_feerate,
                        prev_sel,
                        oidx,
                        n as nat,
                    );
                }
                return Err(err);
            },
        };
        let new_weight = match sum(state.weight, fwt[slot]) {
            Ok(v) => v,
            Err(err) => {
                proof {
                    lemma_extend_le_total(inputs@, prev_sel, oidx, n as nat);
                    lemma_extend_le_candidates(
                        inputs@,
                        options.target_feerate,
                        prev_sel,
                        oidx,
                        n as nat,
                    );
                }
                return Err(err);
            },
        };
        let mut new_selection = state.selection;
        new_selection.push(oidx);
        let new_count = new_selection.len();
        proof {
            lemma_sum_values_push(inputs@, prev_sel, oidx);
            lemma_sum_weights_push(inputs@, prev_sel, oidx);
            lemma_selection_le_total(inputs@, new_selection@);
        }
        let est = match calculate_fee(new_weight, &options.target_feerate) {
            Ok(f) => f,
            Err(_) => 0,
        };
        let required = match sum(target, est) {
            Ok(v) => v,
            Err(err) => {
                proof {
                    lemma_rate_fee_monotonic_weight(
                        new_weight as nat,
                        total_weight(inputs@),
                        options.target_feerate,
                    );
                    lemma_extend_le_candidates(
                        inputs@,
                        options.target_feerate,
                        prev_sel,
                        oidx,
                        n as nat,
                    );
                    lemma_rate_fee_monotonic_weight(
                        new_weight as nat,
                        candidate_weight_total(inputs@, options.target_feerate),
                        options.target_feerate,
                    );
                }
                return Err(err);
            },
        };
        proof {
            if hyp && !best_found && state.index + 1 == m {
                // at the last position the chain node holds every candidate,
                // and the hypothesis makes that selection admissible
                let full_sfx = suffix_orig(entries@, fidx@, m as int, m as int);
                assert(full_sfx =~= Seq::<usize>::empty());
                assert forall|t: int|
                    0 <= t < m implies (#[trigger] new_selection@[t]) == orig_of(
                    entries@,
                    fidx@,
                    t,
                ) by {
                    if t < m - 1 {
                        assert(new_selection@[t] == state.selection@[t]);
                        assert(state.selection@[t] == orig_of(
                            entries@,
                            fidx@,
                            state.positions@[t],
                        ));
                        assert(state.positions@[t] == t);
                    } else {
                        assert(new_selection@[t] == oidx);
                    }
                }
                lemma_chain_totals(
                    inputs@,
                    entries@,
                    fidx@,
                    options.target_feerate,
                    new_selection@,
                    full_sfx,
                    m as int,
                    n as nat,
                    m as nat,
                );
            }
        }
        if new_eff >= required {
            let update = if best_found {
                let change = new_eff - required;
                change < best_change || (change == best_change && new_count < best_count)
            } else {
                true
            };
            if update {
                best_found = true;
                best_change = new_eff - required;
                best_count = new_count;
                best_val = new_eff;
                best_wt = new_weight;
                best_sel = new_selection;
            }
        } else {
            let include_state = SearchState {
                index: state.index + 1,
                eff: new_eff,
                selection: new_selection,
                count: new_count,
                weight: new_weight,
                positions: Ghost(state.positions@.push(state.index as int)),
            };
            proof {
                lemma_stack_measure_push(stack@, include_state, m as nat);
                lemma_node_measure_step(state, include_state, m as nat);
            }
            stack.push(include_state);
            proof {
                if hyp && !best_found {
                    assert(stack@.last().positions@ =~= Seq::new(
                        (chain_k + 1) as nat,
                        |j: int| j,
                    ));
                    chain_k = chain_k + 1;
                }
            }
        }
    }

    if best_found {
        let est = match calculate_fee(best_wt, &options.target_feerate) {
            Ok(f) => f,
            Err(_) => 0,
        };
        let waste = calculate_waste(options, best_val, best_wt, est);
        let ghost bs = best_sel@;
        let result = SelectionOutput { selected_inputs: best_sel, waste };
        proof {
            assert forall|t: int| 0 <= t < result.selected_inputs@.len() implies lc_keeps(
                inputs@[(#[trigger] result.selected_inputs@[t]) as int],
                options.target_feerate,
            ) by {
                assert(result.selected_inputs@[t] == bs[t]);
                assert(lc_keeps(inputs@[bs[t] as int], options.target_feerate));
            }
        }
        Ok(result)
    } else {
        proof {
            // nothing was found, so the whole suffix sum was computed: the
            // candidates' total value fits in 64 bits
            let sfx0 = suffix_orig(entries@, fidx@, 0, m as int);
            lemma_chain_totals(
                inputs@,
                entries@,
                fidx@,
                options.target_feerate,
                Seq::empty(),
                sfx0,
                0,
                n as nat,
                m as nat,
            );
            assert(rem@[0] == sum_values(inputs@, sfx0));
            assert(candidate_value_total(inputs@, options.target_feerate) <= u64::MAX);
        }
        Err(SelectionError::InsufficientFunds)
    }
}

/// A selection extended by one fresh index still sums below the totals.
proof fn lemma_extend_le_total(inputs: Seq<OutputGroup>, sel: Seq<usize>, idx: usize, n: nat)
    requires
        valid_selection(sel, n),
        n == inputs.len(),
        n <= usize::MAX,
        (idx as nat) < n,
        forall|t: int| 0 <= t < sel.len() ==> (#[trigger] sel[t]) != idx,
    ensures
        sum_values(inputs, sel) + inputs[idx as int].value <= total_value(inputs),
        sum_weights(inputs, sel) + inputs[idx as int].weight <= total_weight(inputs),
{
    lemma_sum_values_push(inputs, sel, idx);
    lemma_sum_weights_push(inputs, sel, idx);
    assert(valid_selection(sel.push(idx), n)) by {
        assert(forall|t: int| 0 <= t < sel.len() ==> sel.push(idx)[t] == sel[t]);
    }
    lemma_selection_le_total(inputs, sel.push(idx));
}

/// A selection of positions below `index` and the suffix from `index`
/// together still sum below the totals.
proof fn lemma_combined_le_total(
    inputs: Seq<OutputGroup>,
    sel: Seq<usize>,
    positions: Seq<int>,
    sfx: Seq<usize>,
    entries: Seq<SortEntry>,
    fidx: Seq<usize>,
    index: int,
    n: nat,
    m: nat,
)
    requires
        n == inputs.len(),
        n <= usize::MAX,
        valid_selection(sel, n),
        valid_selection(sfx, n),
        positions.len() == sel.len(),
        forall|t: int|
            0 <= t < positions.len() ==> 0 <= (#[trigger] positions[t]) < index && sel[t]
                == orig_of(entries, fidx, positions[t]),
        forall|a: int, b: int| 0 <= a < b < positions.len() ==> positions[a] != positions[b],
        0 <= index <= m,
        sfx == suffix_orig(entries, fidx, index, m as int),
        forall|p1: int, p2: int|
            0 <= p1 < p2 < m ==> orig_of(entries, fidx, p1) != orig_of(entries, fidx, p2),
    ensures
        sum_values(inputs, sel) + sum_values(inputs, sfx) <= total_value(inputs),
{
    let combined = sel + sfx;
    assert(valid_selection(combined, n)) by {
        assert forall|a: int, b: int|
            0 <= a < b < combined.len() implies combined[a] != combined[b] by {
            if b < sel.len() {
                assert(combined[a] == sel[a] && combined[b] == sel[b]);
            } else if a >= sel.len() {
                assert(combined[a] == sfx[a - sel.len()] && combined[b] == sfx[b - sel.len()]);
            } else {
                assert(combined[a] == sel[a] && combined[b] == sfx[b - sel.len()]);
                assert(sel[a] == orig_of(entries, fidx, positions[a]));
                assert(sfx[b - sel.len()] == orig_of(
                    entries,
                    fidx,
                    m - 1 - (b - sel.len()),
                ));
                assert(positions[a] < index <= m - 1 - (b - sel.len()));
            }
        }
        assert(forall|t: int|
            0 <= t < combined.len() ==> (#[trigger] combined[t]) < n);
    }
    lemma_sum_concat(inputs, sel, sfx);
    lemma_selection_le_total(inputs, combined);
}

} // verus!
