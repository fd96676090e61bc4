//! Execution gas price updater: tracks the price for the next block from the
//! fullness of the blocks seen so far.

use vstd::prelude::*;

verus! {

/// Why an update of the price state was refused.
#[derive(Debug, PartialEq, Eq, Structural)]
pub enum Error {
    /// The L2 block handed in is not the successor of the last one seen.
    SkippedL2Block { expected: u32, got: u32 },
    /// The DA block handed in is not the successor of the last one seen.
    SkippedDABlock { expected: u32, got: u32 },
    /// The recording cost of a block could not be related to its size.
    CouldNotCalculateCostPerByte { bytes: u64, cost: u64 },
}

/// The price algorithm for one block: a fixed execution gas price.
#[derive(Debug, Clone, PartialEq)]
pub struct AlgorithmV0 {
    /// The gas price to cover the execution of the next block
    new_exec_price: u64,
}

impl AlgorithmV0 {
    /// The price this algorithm yields, as a mathematical value.
    pub closed spec fn price(self) -> u64 {
        self.new_exec_price
    }

    /// The execution gas price for the next block.
    pub fn calculate(&self) -> (price: u64)
        ensures
            price == self.price(),
    {
        self.new_exec_price
    }
}

/// The state from which the price algorithm of each block is derived.
///
/// After every L2 block the price moves by a fixed percentage of itself:
/// up when the block was fuller than the threshold, down when it was emptier,
/// and never below the configured minimum.
#[derive(Debug, Clone, PartialEq)]
pub struct AlgorithmUpdaterV0 {
    /// The gas price to cover the execution of the next block
    pub new_exec_price: u64,
    /// The lowest the algorithm allows the exec gas price to go
    pub min_exec_gas_price: u64,
    /// The percentage the execution gas price will change in a single block,
    /// either increase or decrease based on the fullness of the last L2 block
    pub exec_gas_price_change_percent: u64,
    /// The height of the last L2 block that was taken into account
    pub l2_block_height: u32,
    /// The threshold of gas usage above and below which the gas price will
    /// increase or decrease, as a percentage of the capacity of the L2 block
    pub l2_block_fullness_threshold_percent: u64,
}

/// The size of one block in bytes.
#[derive(Debug, Clone, PartialEq)]
pub struct BlockBytes {
    pub height: u32,
    pub block_bytes: u64,
}

/// `a * b`, capped at the largest `u64`.
pub open spec fn saturating_product(a: u64, b: u64) -> u64 {
    if a * b > u64::MAX {
        u64::MAX
    } else {
        (a * b) as u64
    }
}

/// The height that the next L2 block must have after `height`.
pub open spec fn next_height(height: u32) -> u32 {
    if height == u32::MAX {
        u32::MAX
    } else {
        (height + 1) as u32
    }
}

/// How full a block is, in percent of its capacity. A block without capacity
/// counts as exactly as full as the threshold.
pub open spec fn fullness_percent(used: u64, capacity: u64, threshold: u64) -> u64 {
    if capacity == 0 {
        threshold
    } else {
        saturating_product(used, 100) / capacity
    }
}

impl AlgorithmUpdaterV0 {
    /// The amount by which a price of `principle` moves in one block.
    pub open spec fn spec_change_amount(self, principle: u64) -> u64 {
        saturating_product(principle, self.exec_gas_price_change_percent) / 100
    }

    /// The price after a block that used `used` of `capacity` gas.
    pub open spec fn next_exec_price(self, used: u64, capacity: u64) -> u64 {
        let fullness = fullness_percent(used, capacity, self.l2_block_fullness_threshold_percent);
        let change = self.spec_change_amount(self.new_exec_price);
        let moved: u64 = if fullness > self.l2_block_fullness_threshold_percent {
            if self.new_exec_price + change > u64::MAX {
                u64::MAX
            } else {
                (self.new_exec_price + change) as u64
            }
        } else if fullness < self.l2_block_fullness_threshold_percent {
            if self.new_exec_price < change {
                0
            } else {
                (self.new_exec_price - change) as u64
            }
        } else {
            self.new_exec_price
        };
        if moved < self.min_exec_gas_price {
            self.min_exec_gas_price
        } else {
            moved
        }
    }

    /// The state after the block at `height` with the given fullness was
    /// taken into account.
    pub open spec fn after_block(self, height: u32, used: u64, capacity: u64) -> Self {
        AlgorithmUpdaterV0 {
            new_exec_price: self.next_exec_price(used, capacity),
            min_exec_gas_price: self.min_exec_gas_price,
            exec_gas_price_change_percent: self.exec_gas_price_change_percent,
            l2_block_height: height,
            l2_block_fullness_threshold_percent: self.l2_block_fullness_threshold_percent,
        }
    }

    /// Takes the L2 block at `height` into account, with `fullness` given as
    /// used gas and gas capacity. The block must be the successor of the last
    /// one seen; any other height is refused and leaves the state untouched.
    pub fn update_l2_block_data(&mut self, height: u32, fullness: (u64, u64)) -> (result: Result<
        (),
        Error,
    >)
        ensures
            height == next_height(old(self).l2_block_height) ==> result == Ok::<(), Error>(())
                && *final(self) == old(self).after_block(height, fullness.0, fullness.1),
            height != next_height(old(self).l2_block_height) ==> result == Err::<(), Error>(
                Error::SkippedL2Block { expected: next_height(old(self).l2_block_height), got: height },
            ) && *final(self) == *old(self),
            final(self).new_exec_price >= final(self).min_exec_gas_price || result.is_err(),
    {
        let expected = self.l2_block_height.saturating_add(1);
        if height != expected {
            Err(Error::SkippedL2Block { expected, got: height })
        } else {
            self.l2_block_height = height;
            self.update_exec_gas_price(fullness.0, fullness.1);
            Ok(())
        }
    }

    /// Moves the price by one step according to the fullness of a block.
    pub fn update_exec_gas_price(&mut self, used: u64, capacity: u64)
        ensures
            *final(self) == old(self).after_block(old(self).l2_block_height, used, capacity),
    {
        let mut exec_gas_price = self.new_exec_price;
        let fullness_percent = match saturating_mul(used, 100).checked_div(capacity) {
            Some(percent) => percent,
            None => self.l2_block_fullness_threshold_percent,
        };
        if fullness_percent > self.l2_block_fullness_threshold_percent {
            let change_amount = self.change_amount(exec_gas_price);
            exec_gas_price = exec_gas_price.saturating_add(change_amount);
        } else if fullness_percent < self.l2_block_fullness_threshold_percent {
            let change_amount = self.change_amount(exec_gas_price);
            exec_gas_price = exec_gas_price.saturating_sub(change_amount);
        }
        self.new_exec_price = if self.min_exec_gas_price > exec_gas_price {
            self.min_exec_gas_price
        } else {
            exec_gas_price
        };
    }

    /// The amount by which a price of `principle` moves in one block.
    pub fn change_amount(&self, principle: u64) -> (amount: u64)
        ensures
            amount == self.spec_change_amount(principle),
    {
        saturating_mul(principle, self.exec_gas_price_change_percent) / 100
    }

    /// The price algorithm for the next block.
    pub fn algorithm(&self) -> (algorithm: AlgorithmV0)
        ensures
            algorithm.price() == self.new_exec_price,
    {
        AlgorithmV0 { new_exec_price: self.new_exec_price }
    }
}

/// `a * b`, capped at the largest `u64`.
fn saturating_mul(a: u64, b: u64) -> (product: u64)
    ensures
        product == saturating_product(a, b),
{
    match a.checked_mul(b) {
        Some(product) => product,
        None => u64::MAX,
    }
}

} // verus!
