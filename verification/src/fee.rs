//! Transaction fees, computed from the number of inputs and outputs.

use vstd::prelude::*;

verus! {

/// Fee charged per unit of transaction weight.
pub const BASE_FEE: u64 = 10;

/// Weight of a transaction: every output adds four units, every input takes
/// one unit off, and the kernel adds one. The weight never drops below one.
pub open spec fn tx_weight(input_len: int, output_len: int) -> int {
    let raw = 4 * output_len - input_len + 1;
    if raw < 1 {
        1
    } else {
        raw
    }
}

/// Fee of a transaction with the given counts: the weight times [`BASE_FEE`],
/// unless an explicit fee is given, which is then taken as it is.
pub open spec fn fee_for(input_len: int, output_len: int, explicit: Option<u64>) -> int {
    match explicit {
        Some(fee) => fee as int,
        None => tx_weight(input_len, output_len) * BASE_FEE,
    }
}

/// Computes the fee of a transaction with `input_len` inputs and `output_len`
/// outputs. An explicit fee bypasses the computation.
pub fn tx_fee(input_len: usize, output_len: usize, explicit: Option<u64>) -> (fee: u64)
    requires
        fee_for(input_len as int, output_len as int, explicit) <= u64::MAX,
    ensures
        fee == fee_for(input_len as int, output_len as int, explicit),
{
    match explicit {
        Some(fee) => fee,
        None => {
            let gained: u128 = 4 * (output_len as u128) + 1;
            let spent: u128 = input_len as u128;
            let weight: u128 = if gained > spent {
                gained - spent
            } else {
                1
            };
            (weight * (BASE_FEE as u128)) as u64
        },
    }
}

} // verus!
