//! Library-wide behaviour on concrete values: the arithmetic substrate, the
//! waste metric, coverage, determinism, and the meta-selector's ordering.

use coinselect::algorithms::bnb::select_coin_bnb;
use coinselect::algorithms::fifo::select_coin_fifo;
use coinselect::algorithms::knapsack::{select_coin_knapsack, select_coin_knapsack_with_seed};
use coinselect::algorithms::leastchange::select_coin_bnb_leastchange;
use coinselect::algorithms::lowestlarger::select_coin_lowestlarger;
use coinselect::selectcoin::select_coin;
use coinselect::types::{
    CoinSelectionOpt, ExcessStrategy, FeeRate, OutputGroup, SelectionError, SelectionOutput,
};
use coinselect::utils::{calculate_fee, calculate_waste, effective_value, sum};

/// The exact binary rational behind a single-precision rate.
fn feerate(x: f32) -> FeeRate {
    if x < 0.0 || !x.is_finite() {
        return FeeRate::Invalid;
    }
    let bits = x.to_bits();
    let mantissa = bits & 0x7f_ffff;
    let exp = ((bits >> 23) & 0xff) as i32;
    if exp == 0 {
        FeeRate::Rate { num: mantissa as u128, shift: 149 }
    } else {
        let m = (mantissa | 0x80_0000) as u128;
        let e = exp - 150;
        if e >= 0 {
            FeeRate::Rate { num: m << e, shift: 0 }
        } else {
            FeeRate::Rate { num: m, shift: (-e) as u32 }
        }
    }
}

fn group(value: u64, weight: u64) -> OutputGroup {
    OutputGroup { value, weight, input_count: 1, creation_sequence: None }
}

fn aged_group(value: u64, weight: u64, seq: Option<u32>) -> OutputGroup {
    OutputGroup { value, weight, input_count: 1, creation_sequence: seq }
}

fn options_with(target_value: u64, rate: f32, ltf: Option<f32>) -> CoinSelectionOpt {
    CoinSelectionOpt {
        target_value,
        target_feerate: feerate(rate),
        long_term_feerate: ltf.map(feerate),
        min_absolute_fee: 0,
        base_weight: 10,
        change_weight: 50,
        change_cost: 10,
        avg_input_weight: 20,
        avg_output_weight: 10,
        min_change_value: 500,
        excess_strategy: ExcessStrategy::ToChange,
    }
}

#[test]
fn test_sum_checked() {
    assert_eq!(sum(2, 3), Ok(5));
    assert_eq!(sum(u64::MAX, 0), Ok(u64::MAX));
    assert_eq!(sum(u64::MAX, 1), Err(SelectionError::ArithmeticOverflow));
}

#[test]
fn test_fee_exact_values() {
    // integer rates are exact products
    assert_eq!(calculate_fee(10, &feerate(5.0)), Ok(50));
    assert_eq!(calculate_fee(0, &feerate(5.0)), Ok(0));
    assert_eq!(calculate_fee(1000, &feerate(0.0)), Ok(0));
    // the single-precision 0.4 is a hair above 2/5, so 100 of weight round up
    assert_eq!(calculate_fee(100, &feerate(0.4)), Ok(41));
    // exact halves round up on odd weights
    assert_eq!(calculate_fee(3, &feerate(0.5)), Ok(2));
    assert_eq!(calculate_fee(4, &feerate(0.5)), Ok(2));
}

#[test]
fn test_fee_rejects_invalid_rate() {
    assert_eq!(calculate_fee(10, &FeeRate::Invalid), Err(SelectionError::InvalidFeeRate));
    assert_eq!(calculate_fee(10, &feerate(-1.0)), Err(SelectionError::InvalidFeeRate));
    assert_eq!(calculate_fee(10, &feerate(f32::NAN)), Err(SelectionError::InvalidFeeRate));
    assert_eq!(calculate_fee(10, &feerate(f32::INFINITY)), Err(SelectionError::InvalidFeeRate));
}

#[test]
fn test_invalid_rate_rejected_by_every_search() {
    let inputs = vec![group(1000, 10), group(2000, 10)];
    let opt = options_with(500, f32::NAN, None);
    assert!(matches!(select_coin_bnb(&inputs, &opt), Err(SelectionError::InvalidFeeRate)));
    assert!(matches!(
        select_coin_bnb_leastchange(&inputs, &opt),
        Err(SelectionError::InvalidFeeRate)
    ));
    assert!(matches!(select_coin_lowestlarger(&inputs, &opt), Err(SelectionError::InvalidFeeRate)));
    assert!(matches!(select_coin_fifo(&inputs, &opt), Err(SelectionError::InvalidFeeRate)));
    assert!(matches!(select_coin_knapsack(&inputs, &opt), Err(SelectionError::InvalidFeeRate)));
}

#[test]
fn test_fee_overflow() {
    let huge = FeeRate::Rate { num: 1u128 << 100, shift: 0 };
    assert_eq!(calculate_fee(2, &huge), Err(SelectionError::ArithmeticOverflow));
}

#[test]
fn test_effective_value_saturates() {
    let g = group(1000, 100);
    assert_eq!(effective_value(&g, &feerate(5.0)), Ok(500));
    let dust = group(100, 100);
    assert_eq!(effective_value(&dust, &feerate(5.0)), Ok(0));
}

#[test]
fn test_fee_monotone_in_weight_and_rate() {
    // non-decreasing in the weight
    let r = feerate(0.4);
    let mut prev = 0;
    for w in 0..200u64 {
        let f = calculate_fee(w, &r).unwrap();
        assert!(f >= prev);
        prev = f;
    }
    // non-decreasing in the rate
    let mut prev = 0;
    for num in 0..50u32 {
        let f = calculate_fee(1000, &FeeRate::Rate { num: num as u128, shift: 3 }).unwrap();
        assert!(f >= prev);
        prev = f;
    }
}

#[test]
fn test_waste_exact_value() {
    let opt = CoinSelectionOpt {
        target_value: 500,
        target_feerate: feerate(1.0),
        long_term_feerate: Some(feerate(0.5)),
        min_absolute_fee: 0,
        base_weight: 10,
        change_weight: 50,
        change_cost: 10,
        avg_input_weight: 20,
        avg_output_weight: 10,
        min_change_value: 100,
        excess_strategy: ExcessStrategy::ToChange,
    };
    // excess = 1000 - 500 - 50 = 450 >= 100, so change is made:
    // waste = fee + change_cost - weight * long_term = 50 + 10 - 50 = 10
    let w = calculate_waste(&opt, 1000, 100, 50);
    assert_eq!(w.0, 10i128 << 32);
}

#[test]
fn test_waste_can_be_negative() {
    let opt = CoinSelectionOpt {
        target_value: 500,
        target_feerate: feerate(1.0),
        long_term_feerate: Some(feerate(2.0)),
        min_absolute_fee: 0,
        base_weight: 10,
        change_weight: 50,
        change_cost: 10,
        avg_input_weight: 20,
        avg_output_weight: 10,
        min_change_value: 100,
        excess_strategy: ExcessStrategy::ToChange,
    };
    // waste = 50 + 10 - 100 * 2 = -140
    let w = calculate_waste(&opt, 1000, 100, 50);
    assert_eq!(w.0, -(140i128 << 32));
}

#[test]
fn test_select_coin_zero_target() {
    let inputs = vec![group(1000, 10)];
    let opt = options_with(0, 1.0, None);
    assert!(matches!(select_coin(&inputs, &opt), Err(SelectionError::NonPositiveTarget)));
}

#[test]
fn test_select_coin_coverage_and_distinct_indices() {
    let inputs = vec![
        group(1500, 50),
        group(2500, 70),
        group(3500, 90),
        group(4500, 110),
        group(500, 30),
    ];
    let opt = options_with(6000, 2.0, Some(0.5));
    let out = select_coin(&inputs, &opt).unwrap();
    // indices in range and distinct
    let mut seen = vec![false; inputs.len()];
    for &i in &out.selected_inputs {
        assert!(i < inputs.len());
        assert!(!seen[i]);
        seen[i] = true;
    }
    // the selected effective value covers the target
    let eff: u64 = out
        .selected_inputs
        .iter()
        .map(|&i| effective_value(&inputs[i], &opt.target_feerate).unwrap())
        .sum();
    assert!(eff >= opt.target_value);
}

#[test]
fn test_bnb_match_window() {
    let values = vec![
        group(55000, 500),
        group(400, 200),
        group(40000, 300),
        group(25000, 100),
        group(35000, 150),
        group(600, 250),
        group(30000, 120),
        group(94730, 50),
        group(29810, 500),
        group(78376, 200),
        group(17218, 300),
        group(13728, 100),
    ];
    let opt = CoinSelectionOpt {
        target_value: 195782,
        target_feerate: feerate(0.5),
        long_term_feerate: None,
        min_absolute_fee: 500,
        base_weight: 10,
        change_weight: 50,
        change_cost: 10,
        avg_input_weight: 40,
        avg_output_weight: 20,
        min_change_value: 500,
        excess_strategy: ExcessStrategy::ToChange,
    };
    let out = select_coin_bnb(&values, &opt).unwrap();
    // recompute the accumulated effective value and check the match window:
    // target 195782 + 500 change + max(5, 500) fee, range fee(40) + fee(20)
    let rate = &opt.target_feerate;
    let acc: u64 = out
        .selected_inputs
        .iter()
        .map(|&i| values[i].value.saturating_sub(calculate_fee(values[i].weight, rate).unwrap()))
        .sum();
    let weight: u64 = out.selected_inputs.iter().map(|&i| values[i].weight).sum();
    let eff = acc - calculate_fee(weight, rate).unwrap();
    assert!(eff >= 196782);
    assert!(eff <= 196782 + 30);
}

#[test]
fn test_fifo_respects_creation_sequence() {
    let inputs = vec![
        aged_group(80000, 100, Some(0)),
        aged_group(70000, 100, Some(1)),
        aged_group(60000, 100, Some(2)),
        aged_group(50000, 100, Some(3)),
        aged_group(40000, 100, Some(4)),
        aged_group(30000, 100, Some(5)),
    ];
    let opt = CoinSelectionOpt {
        target_value: 250000,
        target_feerate: feerate(1.0),
        long_term_feerate: Some(feerate(0.5)),
        min_absolute_fee: 0,
        base_weight: 100,
        change_weight: 10,
        change_cost: 20,
        avg_input_weight: 10,
        avg_output_weight: 10,
        min_change_value: 400,
        excess_strategy: ExcessStrategy::ToChange,
    };
    let out = select_coin_fifo(&inputs, &opt).unwrap();
    assert_eq!(out.selected_inputs, vec![0, 1, 2, 3]);
}

#[test]
fn test_fifo_untracked_inputs_go_last() {
    // the untracked large input is only reached after every tracked one
    let inputs = vec![
        aged_group(500000, 100, None),
        aged_group(3000, 100, Some(7)),
        aged_group(4000, 100, Some(2)),
    ];
    let opt = CoinSelectionOpt {
        target_value: 7000,
        target_feerate: feerate(1.0),
        long_term_feerate: None,
        min_absolute_fee: 0,
        base_weight: 10,
        change_weight: 10,
        change_cost: 20,
        avg_input_weight: 10,
        avg_output_weight: 10,
        min_change_value: 100,
        excess_strategy: ExcessStrategy::ToChange,
    };
    let out = select_coin_fifo(&inputs, &opt).unwrap();
    assert_eq!(out.selected_inputs, vec![2, 1, 0]);
}

#[test]
fn test_fifo_insufficient() {
    let inputs = vec![group(100, 10), group(200, 10)];
    let opt = options_with(10_000, 1.0, None);
    assert!(matches!(select_coin_fifo(&inputs, &opt), Err(SelectionError::InsufficientFunds)));
}

#[test]
fn test_lowestlarger_coverage() {
    let inputs = vec![
        group(100, 100),
        group(1500, 200),
        group(3400, 300),
        group(2200, 150),
        group(1190, 200),
        group(3300, 100),
        group(1000, 190),
        group(2000, 210),
        group(3000, 300),
        group(2250, 250),
        group(190, 220),
        group(1750, 170),
    ];
    let opt = options_with(20000, 0.4, Some(0.4));
    let out = select_coin_lowestlarger(&inputs, &opt).unwrap();
    assert!(!out.selected_inputs.is_empty());
    let total: u64 = out.selected_inputs.iter().map(|&i| inputs[i].value).sum();
    let weight: u64 = out.selected_inputs.iter().map(|&i| inputs[i].weight).sum();
    let base_fee = calculate_fee(opt.base_weight, &opt.target_feerate).unwrap();
    let fee = calculate_fee(weight, &opt.target_feerate).unwrap();
    assert!(total >= 20000 + 500 + base_fee + fee);
}

#[test]
fn test_knapsack_insufficient() {
    let inputs = vec![group(100, 10), group(200, 10)];
    let opt = options_with(10_000, 1.0, None);
    assert!(matches!(
        select_coin_knapsack(&inputs, &opt),
        Err(SelectionError::InsufficientFunds)
    ));
}

#[test]
fn test_knapsack_coverage() {
    let inputs = vec![group(1500, 10), group(2500, 10), group(3000, 10), group(1000, 10)];
    let opt = options_with(4000, 1.0, Some(0.5));
    let out = select_coin_knapsack(&inputs, &opt).unwrap();
    let total: u64 = out.selected_inputs.iter().map(|&i| inputs[i].value).sum();
    let weight: u64 = out.selected_inputs.iter().map(|&i| inputs[i].weight).sum();
    let fee = calculate_fee(weight, &opt.target_feerate).unwrap();
    // the adjusted target is the target, the minimum change, and the floored
    // base fee
    assert!(total >= 4000 + 500 + 10 + fee);
}

fn run_twice<F: Fn() -> Result<SelectionOutput, SelectionError>>(f: F) {
    let a = f();
    let b = f();
    match (a, b) {
        (Ok(x), Ok(y)) => {
            assert_eq!(x.selected_inputs, y.selected_inputs);
            assert_eq!(x.waste.0, y.waste.0);
        },
        (Err(x), Err(y)) => assert_eq!(x, y),
        _ => panic!("the two runs disagree"),
    }
}

#[test]
fn test_purity_same_result_twice() {
    let inputs = vec![
        group(1500, 50),
        group(2500, 70),
        group(3500, 90),
        group(4500, 110),
        group(500, 30),
    ];
    let opt = options_with(6000, 2.0, Some(0.5));
    run_twice(|| select_coin_bnb(&inputs, &opt));
    run_twice(|| select_coin_fifo(&inputs, &opt));
    run_twice(|| select_coin_lowestlarger(&inputs, &opt));
    run_twice(|| select_coin_bnb_leastchange(&inputs, &opt));
    run_twice(|| select_coin_knapsack(&inputs, &opt));
    run_twice(|| select_coin_knapsack_with_seed(&inputs, &opt, 42));
    run_twice(|| select_coin(&inputs, &opt));
}

#[test]
fn test_meta_selector_beats_every_algorithm() {
    let inputs = vec![
        group(1000, 10),
        group(2000, 10),
        group(3000, 10),
        group(4000, 10),
        group(5500, 10),
    ];
    let opt = CoinSelectionOpt {
        target_value: 12000,
        target_feerate: feerate(1.0),
        long_term_feerate: Some(feerate(0.5)),
        min_absolute_fee: 0,
        base_weight: 100,
        change_weight: 10,
        change_cost: 20,
        avg_input_weight: 10,
        avg_output_weight: 10,
        min_change_value: 400,
        excess_strategy: ExcessStrategy::ToChange,
    };
    let ranking = |out: &SelectionOutput| -> (u64, i128, usize) {
        let total: u64 = out.selected_inputs.iter().map(|&i| inputs[i].value).sum();
        (total.saturating_sub(opt.target_value), out.waste.0, out.selected_inputs.len())
    };
    let best = select_coin(&inputs, &opt).unwrap();
    let best_rank = ranking(&best);
    let candidates = [
        select_coin_bnb(&inputs, &opt),
        select_coin_fifo(&inputs, &opt),
        select_coin_lowestlarger(&inputs, &opt),
        select_coin_knapsack(&inputs, &opt),
        select_coin_bnb_leastchange(&inputs, &opt),
    ];
    for cand in candidates.iter() {
        if let Ok(out) = cand {
            assert!(best_rank <= ranking(out));
        }
    }
}

#[test]
fn test_extreme_values_return_without_panic() {
    let inputs = vec![
        group(u64::MAX, u64::MAX),
        group(u64::MAX, 1),
        group(1, u64::MAX),
        group(0, 0),
    ];
    let opt = CoinSelectionOpt {
        target_value: u64::MAX,
        target_feerate: feerate(f32::MAX),
        long_term_feerate: Some(feerate(f32::MIN_POSITIVE)),
        min_absolute_fee: u64::MAX,
        base_weight: u64::MAX,
        change_weight: u64::MAX,
        change_cost: u64::MAX,
        avg_input_weight: u64::MAX,
        avg_output_weight: u64::MAX,
        min_change_value: u64::MAX,
        excess_strategy: ExcessStrategy::ToFee,
    };
    // any outcome is fine, the call just must return
    let _ = select_coin(&inputs, &opt);
    let tiny = CoinSelectionOpt {
        target_value: 1,
        target_feerate: feerate(1.0e-40),
        long_term_feerate: Some(feerate(3.0e38)),
        ..opt
    };
    let _ = select_coin(&inputs, &tiny);
}
