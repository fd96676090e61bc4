use fuel_genesis::gas_price::{AlgorithmUpdaterV0, BlockBytes, Error};

fn updater(price: u64, min: u64, percent: u64, height: u32, threshold: u64) -> AlgorithmUpdaterV0 {
    AlgorithmUpdaterV0 {
        new_exec_price: price,
        min_exec_gas_price: min,
        exec_gas_price_change_percent: percent,
        l2_block_height: height,
        l2_block_fullness_threshold_percent: threshold,
    }
}

#[test]
fn update_l2_block_data_rejects_a_skipped_block() {
    let mut state = updater(100, 10, 10, 7, 50);
    let result = state.update_l2_block_data(9, (50, 100));
    assert_eq!(result, Err(Error::SkippedL2Block { expected: 8, got: 9 }));
    assert_eq!(state, updater(100, 10, 10, 7, 50));
}

#[test]
fn update_l2_block_data_rejects_a_repeated_block() {
    let mut state = updater(100, 10, 10, 7, 50);
    let result = state.update_l2_block_data(7, (50, 100));
    assert_eq!(result, Err(Error::SkippedL2Block { expected: 8, got: 7 }));
}

#[test]
fn update_l2_block_data_raises_the_price_of_a_full_block() {
    let mut state = updater(200, 10, 10, 0, 50);
    assert_eq!(state.update_l2_block_data(1, (60, 100)), Ok(()));
    assert_eq!(state, updater(220, 10, 10, 1, 50));
    assert_eq!(state.algorithm().calculate(), 220);
}

#[test]
fn update_l2_block_data_lowers_the_price_of_an_empty_block() {
    let mut state = updater(200, 10, 10, 0, 50);
    assert_eq!(state.update_l2_block_data(1, (40, 100)), Ok(()));
    assert_eq!(state, updater(180, 10, 10, 1, 50));
}

#[test]
fn update_l2_block_data_keeps_the_price_at_the_threshold() {
    let mut state = updater(200, 10, 10, 0, 50);
    assert_eq!(state.update_l2_block_data(1, (50, 100)), Ok(()));
    assert_eq!(state, updater(200, 10, 10, 1, 50));
}

#[test]
fn update_l2_block_data_never_goes_below_the_minimum() {
    let mut state = updater(100, 95, 10, 0, 50);
    assert_eq!(state.update_l2_block_data(1, (0, 100)), Ok(()));
    assert_eq!(state.new_exec_price, 95);
    let mut low = updater(5, 50, 10, 0, 50);
    assert_eq!(low.update_l2_block_data(1, (50, 100)), Ok(()));
    assert_eq!(low.new_exec_price, 50);
}

#[test]
fn update_l2_block_data_takes_a_block_without_capacity_as_at_the_threshold() {
    let mut state = updater(200, 10, 10, 0, 50);
    assert_eq!(state.update_l2_block_data(1, (77, 0)), Ok(()));
    assert_eq!(state, updater(200, 10, 10, 1, 50));
}

#[test]
fn update_l2_block_data_saturates() {
    let mut state = updater(u64::MAX - 5, 0, 50, 0, 50);
    assert_eq!(state.update_l2_block_data(1, (u64::MAX, 1)), Ok(()));
    assert_eq!(state.new_exec_price, u64::MAX);
    // the used gas saturates at the largest number before it is divided
    let mut huge = updater(1000, 0, 10, 0, 50);
    assert_eq!(huge.update_l2_block_data(1, (u64::MAX, u64::MAX)), Ok(()));
    // u64::MAX / u64::MAX = 1 percent, below the threshold
    assert_eq!(huge.new_exec_price, 900);
}

#[test]
fn update_l2_block_data_at_the_last_height() {
    let mut state = updater(200, 10, 10, u32::MAX, 50);
    assert_eq!(state.update_l2_block_data(u32::MAX, (60, 100)), Ok(()));
    assert_eq!(state.l2_block_height, u32::MAX);
    assert_eq!(state.new_exec_price, 220);
}

#[test]
fn change_amount_is_the_percentage_of_the_price() {
    let state = updater(0, 0, 7, 0, 50);
    assert_eq!(state.change_amount(1000), 70);
    assert_eq!(state.change_amount(99), 6);
    assert_eq!(state.change_amount(u64::MAX), u64::MAX / 100);
}

#[test]
fn update_exec_gas_price_moves_one_step() {
    let mut state = updater(1000, 10, 5, 3, 80);
    state.update_exec_gas_price(90, 100);
    assert_eq!(state, updater(1050, 10, 5, 3, 80));
    state.update_exec_gas_price(10, 100);
    assert_eq!(state, updater(998, 10, 5, 3, 80));
}

#[test]
fn algorithm_yields_the_current_price() {
    let state = updater(321, 10, 5, 3, 80);
    assert_eq!(state.algorithm().calculate(), 321);
    assert_eq!(state.algorithm(), state.clone().algorithm());
}

#[test]
fn block_bytes_holds_height_and_size() {
    let bytes = BlockBytes { height: 3, block_bytes: 1024 };
    assert_eq!(bytes.clone(), BlockBytes { height: 3, block_bytes: 1024 });
    assert_eq!(
        Error::SkippedDABlock { expected: 1, got: 2 },
        Error::SkippedDABlock { expected: 1, got: 2 }
    );
    assert_ne!(
        Error::CouldNotCalculateCostPerByte { bytes: 1, cost: 2 },
        Error::CouldNotCalculateCostPerByte { bytes: 2, cost: 2 }
    );
}
