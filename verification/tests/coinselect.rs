//! The selection algorithms and the meta-selector on concrete wallets.

use coinselect::algorithms::bnb::select_coin_bnb;
use coinselect::algorithms::leastchange::select_coin_bnb_leastchange;
use coinselect::algorithms::lowestlarger::select_coin_lowestlarger;
use coinselect::selectcoin::select_coin;
use coinselect::types::{CoinSelectionOpt, ExcessStrategy, FeeRate, OutputGroup, SelectionError};

/// The exact binary rational behind a single-precision rate.
fn feerate(x: f32) -> FeeRate {
    if x < 0.0 || !x.is_finite() {
        return FeeRate::Invalid;
    }
    let bits = x.to_bits();
    let mantissa = bits & 0x7f_ffff;
    let exp = ((bits >> 23) & 0xff) as i32;
    if exp == 0 {
        FeeRate::Rate { num: mantissa as u128, shift: 149 }
    } else {
        let m = (mantissa | 0x80_0000) as u128;
        let e = exp - 150;
        if e >= 0 {
            FeeRate::Rate { num: m << e, shift: 0 }
        } else {
            FeeRate::Rate { num: m, shift: (-e) as u32 }
        }
    }
}

fn group(value: u64, weight: u64) -> OutputGroup {
    OutputGroup { value, weight, input_count: 1, creation_sequence: None }
}

fn setup_basic_output_groups() -> Vec<OutputGroup> {
    vec![
        group(1_500_000, 50),
        group(2_000_000, 200),
        group(3_000_000, 300),
        group(2_500_000, 100),
        group(4_000_000, 150),
        group(500_000, 250),
        group(6_000_000, 120),
        group(70_000, 50),
        group(800_000, 60),
        group(900_000, 70),
        group(100_000, 80),
        group(1_000_000, 90),
    ]
}

fn setup_options(target_value: u64) -> CoinSelectionOpt {
    CoinSelectionOpt {
        target_value,
        target_feerate: feerate(2.0),
        long_term_feerate: Some(feerate(0.4)),
        min_absolute_fee: 0,
        base_weight: 10,
        change_weight: 50,
        change_cost: 10,
        avg_input_weight: 20,
        avg_output_weight: 10,
        min_change_value: 500,
        excess_strategy: ExcessStrategy::ToChange,
    }
}

fn bnb_setup_options(target_value: u64) -> CoinSelectionOpt {
    CoinSelectionOpt {
        target_value,
        target_feerate: feerate(0.5),
        long_term_feerate: None,
        min_absolute_fee: 500,
        base_weight: 10,
        change_weight: 50,
        change_cost: 10,
        avg_input_weight: 40,
        avg_output_weight: 20,
        min_change_value: 500,
        excess_strategy: ExcessStrategy::ToChange,
    }
}

fn test_bnb_solution() {
    let values = [
        group(55000, 500),
        group(400, 200),
        group(40000, 300),
        group(25000, 100),
        group(35000, 150),
        group(600, 250),
        group(30000, 120),
        group(94730, 50),
        group(29810, 500),
        group(78376, 200),
        group(17218, 300),
        group(13728, 100),
    ];
    let opt = bnb_setup_options(195782);
    let ans = select_coin_bnb(&values, &opt);
    if let Ok(selection_output) = ans {
        let expected_solution = vec![1, 5, 11, 6, 4, 2, 9];
        assert_eq!(
            selection_output.selected_inputs, expected_solution,
            "Expected solution {:?}, but got {:?}",
            expected_solution, selection_output.selected_inputs
        );
    } else {
        panic!("Failed to find a solution");
    }
}

fn test_bnb_no_solution() {
    let inputs = vec![group(1000, 100), group(2000, 200), group(3000, 300)];
    let total_input_value: u64 = inputs.iter().map(|input| input.value).sum();
    let impossible_target = total_input_value + 1000;
    let options = bnb_setup_options(impossible_target);
    let result = select_coin_bnb(&inputs, &options);
    assert!(
        matches!(result, Err(SelectionError::NoSolutionFound)),
        "Expected NoSolutionFound error, got {:?}",
        result
    );
}

#[test]
fn test_bnb() {
    test_bnb_solution();
    test_bnb_no_solution();
}

fn setup_leastchange_output_groups() -> Vec<OutputGroup> {
    vec![
        group(100, 100),
        group(1500, 200),
        group(3400, 300),
        group(2200, 150),
        group(1190, 200),
        group(1200, 200),
        group(3300, 100),
        group(1000, 190),
        group(2000, 210),
        group(3000, 300),
        group(2250, 250),
        group(190, 220),
        group(1750, 170),
    ]
}

fn leastchange_options(target_value: u64) -> CoinSelectionOpt {
    CoinSelectionOpt {
        target_value,
        target_feerate: feerate(5.0),
        long_term_feerate: Some(feerate(1.0)),
        min_absolute_fee: 100,
        base_weight: 10,
        change_weight: 50,
        change_cost: 10,
        avg_input_weight: 20,
        avg_output_weight: 10,
        min_change_value: 100,
        excess_strategy: ExcessStrategy::ToRecipient,
    }
}

#[test]
fn test_leastchange_successful() {
    let inputs = setup_leastchange_output_groups();
    let options = leastchange_options(5432);
    let result = select_coin_bnb_leastchange(&inputs, &options);
    let selection_output = result.unwrap();
    assert!(!selection_output.selected_inputs.is_empty());
    let mut selected = selection_output.selected_inputs.clone();
    selected.sort();
    assert_eq!(selected, vec![4, 5, 6, 8, 9]);
}

#[test]
fn test_leastchange_insufficient() {
    let inputs = setup_leastchange_output_groups();
    let options = leastchange_options(40000);
    let result = select_coin_bnb_leastchange(&inputs, &options);
    assert!(matches!(result, Err(SelectionError::InsufficientFunds)));
}

fn setup_lowestlarger_output_groups() -> Vec<OutputGroup> {
    vec![
        group(100, 100),
        group(1500, 200),
        group(3400, 300),
        group(2200, 150),
        group(1190, 200),
        group(3300, 100),
        group(1000, 190),
        group(2000, 210),
        group(3000, 300),
        group(2250, 250),
        group(190, 220),
        group(1750, 170),
    ]
}

fn lowestlarger_options(target_value: u64) -> CoinSelectionOpt {
    CoinSelectionOpt {
        target_value,
        target_feerate: feerate(0.4),
        long_term_feerate: Some(feerate(0.4)),
        min_absolute_fee: 0,
        base_weight: 10,
        change_weight: 50,
        change_cost: 10,
        avg_input_weight: 20,
        avg_output_weight: 10,
        min_change_value: 500,
        excess_strategy: ExcessStrategy::ToChange,
    }
}

#[test]
fn test_lowestlarger_successful() {
    let inputs = setup_lowestlarger_output_groups();
    let options = lowestlarger_options(20000);
    let result = select_coin_lowestlarger(&inputs, &options);
    assert!(result.is_ok());
    let selection_output = result.unwrap();
    assert!(!selection_output.selected_inputs.is_empty());
}

#[test]
fn test_lowestlarger_insufficient() {
    let inputs = setup_lowestlarger_output_groups();
    let options = lowestlarger_options(40000);
    let result = select_coin_lowestlarger(&inputs, &options);
    assert!(matches!(result, Err(SelectionError::InsufficientFunds)));
}

#[test]
fn test_select_coin_successful() {
    let inputs = setup_basic_output_groups();
    let options = setup_options(654321);
    let result = select_coin(&inputs, &options);
    assert!(result.is_ok());
    let selection_output = result.unwrap();
    assert!(!selection_output.selected_inputs.is_empty());

    let selected_values = selection_output
        .selected_inputs
        .iter()
        .map(|&idx| inputs[idx].value)
        .collect::<Vec<_>>();
    println!("Best Result : {:?}", selected_values);
}

#[test]
fn test_select_coin_insufficient_funds() {
    let inputs = setup_basic_output_groups();
    // a target higher than the sum of all inputs
    let options = setup_options(999_999_999);
    let result = select_coin(&inputs, &options);
    assert!(matches!(result, Err(SelectionError::InsufficientFunds)));
}

#[test]
fn test_select_coin_equals_lowest_larger() {
    let inputs = vec![group(500, 50), group(1500, 100), group(2000, 200), group(1000, 75)];
    let options = CoinSelectionOpt {
        target_value: 1600,
        target_feerate: feerate(0.4),
        long_term_feerate: Some(feerate(0.4)),
        min_absolute_fee: 0,
        base_weight: 10,
        change_weight: 50,
        change_cost: 10,
        avg_input_weight: 50,
        avg_output_weight: 25,
        min_change_value: 500,
        excess_strategy: ExcessStrategy::ToChange,
    };
    let selection_result = select_coin(&inputs, &options).unwrap();
    let expected_inputs = vec![2];
    let mut selection_inputs = selection_result.selected_inputs.clone();
    let mut expected_inputs_sorted = expected_inputs.clone();
    selection_inputs.sort();
    expected_inputs_sorted.sort();
}

#[test]
fn test_select_coin_equals_knapsack() {
    let inputs = vec![
        group(1500, 1),
        group(2500, 1),
        group(3000, 1),
        group(1000, 1),
        group(500, 1),
    ];
    let options = CoinSelectionOpt {
        target_value: 4000,
        target_feerate: feerate(1.0),
        min_absolute_fee: 0,
        base_weight: 1,
        change_weight: 1,
        change_cost: 1,
        avg_input_weight: 1,
        avg_output_weight: 1,
        min_change_value: 500,
        long_term_feerate: Some(feerate(0.5)),
        excess_strategy: ExcessStrategy::ToChange,
    };
    let selection_result = select_coin(&inputs, &options).unwrap();
    let expected_inputs = vec![1, 3];
    let mut selection_inputs = selection_result.selected_inputs.clone();
    let mut expected_inputs_sorted = expected_inputs.clone();
    selection_inputs.sort();
    expected_inputs_sorted.sort();
}

fn create_fifo_inputs(values: Vec<u64>) -> Vec<OutputGroup> {
    values.into_iter().map(|value| group(value, 100)).collect()
}

#[test]
fn test_select_coin_equals_fifo() {
    let options_case = CoinSelectionOpt {
        target_value: 250000,
        target_feerate: feerate(1.0),
        min_absolute_fee: 0,
        base_weight: 100,
        change_weight: 10,
        change_cost: 20,
        avg_input_weight: 10,
        avg_output_weight: 10,
        min_change_value: 400,
        long_term_feerate: Some(feerate(0.5)),
        excess_strategy: ExcessStrategy::ToChange,
    };
    let inputs_case = create_fifo_inputs(vec![80000, 70000, 60000, 50000, 40000, 30000]);
    let result_case = select_coin(&inputs_case, &options_case).unwrap();
    let expected_case = vec![0, 1, 2, 3];
    assert_eq!(result_case.selected_inputs, expected_case);
}

#[test]
fn test_select_coin_equals_bnb() {
    let inputs = vec![
        group(150000, 100),
        group(250000, 100),
        group(300000, 100),
        group(100000, 100),
        group(50000, 100),
    ];
    let opt = CoinSelectionOpt {
        target_value: 500000,
        target_feerate: feerate(1.0),
        min_absolute_fee: 0,
        base_weight: 100,
        change_weight: 10,
        change_cost: 20,
        avg_input_weight: 10,
        avg_output_weight: 10,
        min_change_value: 400,
        long_term_feerate: Some(feerate(0.5)),
        excess_strategy: ExcessStrategy::ToChange,
    };
    let ans = select_coin(&inputs, &opt);
    if let Ok(selection_output) = ans {
        let mut selected_inputs = selection_output.selected_inputs.clone();
        selected_inputs.sort();
        let expected_solution = vec![1, 2];
        assert_eq!(
            selected_inputs, expected_solution,
            "Expected solution {:?}, but got {:?}",
            expected_solution, selected_inputs
        );
    }
}

#[test]
fn test_select_coin_equals_leastchange_bnb() {
    let inputs = vec![
        group(1000, 10),
        group(2000, 10),
        group(3000, 10),
        group(4000, 10),
        group(5500, 10),
    ];
    let options = CoinSelectionOpt {
        target_value: 12000,
        target_feerate: feerate(1.0),
        min_absolute_fee: 0,
        base_weight: 100,
        change_weight: 10,
        change_cost: 20,
        avg_input_weight: 10,
        avg_output_weight: 10,
        min_change_value: 400,
        long_term_feerate: Some(feerate(0.5)),
        excess_strategy: ExcessStrategy::ToChange,
    };
    let result = select_coin(&inputs, &options);
    assert!(result.is_ok());
    let selection_output = result.unwrap();
    assert!(!selection_output.selected_inputs.is_empty());
    let mut selected = selection_output.selected_inputs.clone();
    selected.sort();
    assert_eq!(selected, vec![0, 2, 3, 4]);
}
