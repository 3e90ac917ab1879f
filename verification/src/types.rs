//! The shared data model consumed by every selection algorithm.

use vstd::prelude::*;

verus! {

/// Where any surplus value beyond the payment target is directed.
#[derive(Clone, Copy, Debug)]
pub enum ExcessStrategy {
    ToFee,
    ToRecipient,
    ToChange,
}

/// A fee rate, in fee units per weight unit.
///
/// A finite, non-negative rate is kept exactly as the binary rational
/// `num / 2^shift`. Every finite non-negative IEEE single-precision value can
/// be written this way (its mantissa over a power of two), so callers that
/// start from such a value lose nothing in the conversion. A negative,
/// infinite or NaN rate has no numeric form here and is `Invalid`; fee
/// computation rejects it.
#[derive(Clone, Copy, Debug)]
pub enum FeeRate {
    Rate { num: u128, shift: u32 },
    Invalid,
}

impl FeeRate {
    /// Normal form: a rate with a fractional part keeps its numerator below
    /// `2^24`, so a 64-bit weight times the numerator always fits in 128
    /// bits. Rates converted from a single-precision value satisfy this:
    /// either the exponent is non-negative (then `shift == 0`) or the
    /// numerator is the 24-bit mantissa.
    pub open spec fn wf(self) -> bool {
        self matches FeeRate::Rate { num, shift } ==> (shift > 0 ==> num < 0x100_0000)
    }

    /// An integer rate of `units` fee units per weight unit.
    pub fn from_whole(units: u64) -> (r: FeeRate)
        ensures
            r.wf(),
            r == (FeeRate::Rate { num: units as u128, shift: 0u32 }),
    {
        FeeRate::Rate { num: units as u128, shift: 0 }
    }

    /// The rate `num / 2^shift`, for a numerator small enough to be in
    /// normal form.
    pub fn from_fraction(num: u32, shift: u32) -> (r: FeeRate)
        requires
            num < 0x100_0000,
        ensures
            r.wf(),
            r == (FeeRate::Rate { num: num as u128, shift: shift }),
    {
        FeeRate::Rate { num: num as u128, shift }
    }
}

/// A spendable candidate: one output, or a bundle of outputs treated as one.
#[derive(Clone, Copy, Debug)]
pub struct OutputGroup {
    /// Absolute amount in the smallest unit.
    pub value: u64,
    /// The contribution this input makes to transaction weight.
    pub weight: u64,
    /// How many raw inputs the group represents.
    pub input_count: usize,
    /// Monotonically increasing age indicator; `None` means untracked and
    /// sorts after every tracked value.
    pub creation_sequence: Option<u32>,
}

/// Parameters of one selection call.
#[derive(Clone, Copy, Debug)]
pub struct CoinSelectionOpt {
    /// Required payment amount; zero is a usage error.
    pub target_value: u64,
    /// Fee rate used to price inputs and outputs now.
    pub target_feerate: FeeRate,
    /// Expected future fee rate, used by the waste metric; absent disables
    /// the long-term component.
    pub long_term_feerate: Option<FeeRate>,
    /// Floor on the total transaction fee.
    pub min_absolute_fee: u64,
    /// Fixed transaction overhead weight.
    pub base_weight: u64,
    /// Weight added if a change output is created.
    pub change_weight: u64,
    /// Absolute cost of emitting a change output.
    pub change_cost: u64,
    /// Typical per-input weight, used to size the exact-match window.
    pub avg_input_weight: u64,
    /// Typical per-output weight, used to size the exact-match window.
    pub avg_output_weight: u64,
    /// Minimum amount a change output must have to be worth creating.
    pub min_change_value: u64,
    /// Where surplus beyond the target goes.
    pub excess_strategy: ExcessStrategy,
}

impl CoinSelectionOpt {
    /// Both fee rates are in normal form.
    pub open spec fn wf(self) -> bool {
        &&& self.target_feerate.wf()
        &&& (self.long_term_feerate matches Some(r) ==> r.wf())
    }
}

/// The waste score of a selection; lower is better and it may be negative.
///
/// The score is an exact fixed-point number: the wrapped integer is the
/// mathematical waste multiplied by `2^32`, rounded down, and clamped at
/// `i128::MIN` when the long-term term is astronomically large.
#[derive(Clone, Copy, Debug)]
pub struct WasteMetric(pub i128);

/// A successful selection: indices into the caller's input slice, and the
/// waste score of the chosen set.
#[derive(Clone, Debug)]
pub struct SelectionOutput {
    pub selected_inputs: Vec<usize>,
    pub waste: WasteMetric,
}

/// Why a selection call failed.
#[derive(Clone, Copy, Debug, PartialEq, Eq)]
pub enum SelectionError {
    /// The candidates cannot cover the target.
    InsufficientFunds,
    /// The exact-match search exhausted its budget or window without a hit.
    NoSolutionFound,
    /// The target value was zero.
    NonPositiveTarget,
    /// An accumulation overflowed 64 bits.
    ArithmeticOverflow,
    /// The fee rate was negative, infinite or NaN.
    InvalidFeeRate,
}

} // verus!
