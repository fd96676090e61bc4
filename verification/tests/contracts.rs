use fuel_genesis::database::contracts::{
    decode_utxo_info, encode_utxo_info, ContractConfig, ContractId, ContractUtxoInfo, ContractsLatestUtxo,
    ContractsRawCode, StorageError, TxPointer, UtxoId,
};
use fuel_genesis::database::{Column, Database, DatabaseError, IterDirection};
use rand::rngs::StdRng;
use rand::{RngCore, SeedableRng};

#[test]
fn raw_code_get() {
    let contract_id: ContractId = [1u8; 32];
    let contract: Vec<u8> = vec![32u8];

    let database = &mut Database::default();

    ContractsRawCode::insert(database, &contract_id, &contract).unwrap();

    assert_eq!(
        ContractsRawCode::get(database, &contract_id).unwrap().unwrap(),
        contract
    );
}

#[test]
fn raw_code_put() {
    let contract_id: ContractId = [1u8; 32];
    let contract: Vec<u8> = vec![32u8];

    let database = &mut Database::default();
    ContractsRawCode::insert(database, &contract_id, &contract).unwrap();

    let returned: Vec<u8> = ContractsRawCode::get(database, &contract_id).unwrap().unwrap();
    assert_eq!(returned, contract);
}

#[test]
fn raw_code_put_huge_contract() {
    let rng = &mut StdRng::seed_from_u64(2322u64);
    let contract_id: ContractId = [1u8; 32];
    let mut bytes = vec![0; 16 * 1024 * 1024];
    rng.fill_bytes(bytes.as_mut());
    let contract: Vec<u8> = bytes;

    let database = &mut Database::default();
    ContractsRawCode::insert(database, &contract_id, &contract).unwrap();

    let returned: Vec<u8> = ContractsRawCode::get(database, &contract_id).unwrap().unwrap();
    assert_eq!(returned, contract);
}

#[test]
fn raw_code_remove() {
    let contract_id: ContractId = [1u8; 32];
    let contract: Vec<u8> = vec![32u8];

    let database = &mut Database::default();
    ContractsRawCode::insert(database, &contract_id, &contract).unwrap();

    ContractsRawCode::remove(database, &contract_id).unwrap();

    assert!(!ContractsRawCode::contains_key(database, &contract_id).unwrap());
}

#[test]
fn raw_code_exists() {
    let contract_id: ContractId = [1u8; 32];
    let contract: Vec<u8> = vec![32u8];

    let database = &mut Database::default();
    ContractsRawCode::insert(database, &contract_id, &contract).unwrap();

    assert!(ContractsRawCode::contains_key(database, &contract_id).unwrap());
}

#[test]
fn raw_code_is_stored_without_framing() {
    let rng = &mut StdRng::seed_from_u64(7);
    let contract_id: ContractId = [3u8; 32];
    let mut bytes = vec![0; 16 * 1024 * 1024];
    rng.fill_bytes(bytes.as_mut());

    let database = &mut Database::new();
    assert_eq!(
        ContractsRawCode::write(database, &contract_id, bytes.clone()),
        Ok(16 * 1024 * 1024)
    );
    assert_eq!(
        ContractsRawCode::size_of_value(database, &contract_id),
        Ok(Some(16 * 1024 * 1024))
    );
    assert_eq!(ContractsRawCode::read_alloc(database, &contract_id), Ok(Some(bytes.clone())));
    // the raw column holds the same bytes under the bytes of the identifier
    assert_eq!(database.read_alloc(&contract_id, Column::ContractsRawCode), Some(bytes));
}

#[test]
fn raw_code_insert_returns_the_previous_code() {
    let contract_id: ContractId = [9u8; 32];
    let database = &mut Database::new();
    assert_eq!(ContractsRawCode::insert(database, &contract_id, &[1, 2, 3]), Ok(None));
    assert_eq!(
        ContractsRawCode::insert(database, &contract_id, &[4, 5]),
        Ok(Some(vec![1, 2, 3]))
    );
    assert_eq!(ContractsRawCode::get(database, &contract_id), Ok(Some(vec![4, 5])));
    assert_eq!(database.iter_all(Column::ContractsRawCode, None).len(), 1);
}

#[test]
fn raw_code_replace_and_take() {
    let contract_id: ContractId = [9u8; 32];
    let database = &mut Database::new();
    assert_eq!(ContractsRawCode::replace(database, &contract_id, vec![1]), Ok((1, None)));
    assert_eq!(
        ContractsRawCode::replace(database, &contract_id, vec![2, 2]),
        Ok((2, Some(vec![1])))
    );
    assert_eq!(ContractsRawCode::take(database, &contract_id), Ok(Some(vec![2, 2])));
    assert_eq!(ContractsRawCode::take(database, &contract_id), Ok(None));
    assert_eq!(ContractsRawCode::size_of_value(database, &contract_id), Ok(None));
}

#[test]
fn raw_code_read_into_a_buffer() {
    let contract_id: ContractId = [9u8; 32];
    let database = &mut Database::new();
    ContractsRawCode::insert(database, &contract_id, &[1, 2, 3]).unwrap();
    let mut buf = [0u8; 4];
    assert_eq!(ContractsRawCode::read(database, &contract_id, &mut buf), Ok(Some(3)));
    assert_eq!(buf, [1, 2, 3, 0]);
    let mut short = [0u8; 1];
    assert_eq!(
        ContractsRawCode::read(database, &contract_id, &mut short),
        Err(StorageError::Database(DatabaseError::BufferTooSmall { required: 3, provided: 1 }))
    );
    let other: ContractId = [8u8; 32];
    assert_eq!(ContractsRawCode::read(database, &other, &mut buf), Ok(None));
}

#[test]
fn latest_utxo_get() {
    let contract_id: ContractId = [1u8; 32];
    let utxo_id: UtxoId = UtxoId::new([2u8; 32], 4);
    let tx_pointer = TxPointer::new(1, 5);
    let utxo_info = ContractUtxoInfo { utxo_id, tx_pointer };
    let database = &mut Database::default();

    ContractsLatestUtxo::insert(database, &contract_id, &utxo_info).unwrap();

    assert_eq!(
        ContractsLatestUtxo::get(database, &contract_id).unwrap().unwrap(),
        utxo_info
    );
}

#[test]
fn latest_utxo_put() {
    let contract_id: ContractId = [1u8; 32];
    let utxo_id: UtxoId = UtxoId::new([2u8; 32], 4);
    let tx_pointer = TxPointer::new(1, 5);
    let utxo_info = ContractUtxoInfo { utxo_id, tx_pointer };

    let database = &mut Database::default();
    ContractsLatestUtxo::insert(database, &contract_id, &utxo_info).unwrap();

    let returned: ContractUtxoInfo = ContractsLatestUtxo::get(database, &contract_id).unwrap().unwrap();
    assert_eq!(returned, utxo_info);
}

#[test]
fn latest_utxo_remove() {
    let contract_id: ContractId = [1u8; 32];
    let utxo_id: UtxoId = UtxoId::new([2u8; 32], 4);
    let tx_pointer = TxPointer::new(1, 5);

    let database = &mut Database::default();
    ContractsLatestUtxo::insert(database, &contract_id, &ContractUtxoInfo { utxo_id, tx_pointer }).unwrap();

    ContractsLatestUtxo::remove(database, &contract_id).unwrap();

    assert!(!ContractsLatestUtxo::contains_key(database, &contract_id).unwrap());
}

#[test]
fn latest_utxo_exists() {
    let contract_id: ContractId = [1u8; 32];
    let utxo_id: UtxoId = UtxoId::new([2u8; 32], 4);
    let tx_pointer = TxPointer::new(1, 5);

    let database = &mut Database::default();
    ContractsLatestUtxo::insert(database, &contract_id, &ContractUtxoInfo { utxo_id, tx_pointer }).unwrap();

    assert!(ContractsLatestUtxo::contains_key(database, &contract_id).unwrap());
}

#[test]
fn latest_utxo_is_stored_in_40_bytes() {
    let info = ContractUtxoInfo {
        utxo_id: UtxoId::new([2u8; 32], 4),
        tx_pointer: TxPointer::new(0x01020304, 0x0506),
    };
    let mut expected = vec![2u8; 32];
    expected.extend_from_slice(&[0, 4, 1, 2, 3, 4, 5, 6]);
    assert_eq!(encode_utxo_info(&info), expected);
    assert_eq!(decode_utxo_info(&expected), Some(info));
    assert_eq!(decode_utxo_info(&expected[..39]), None);
    assert_eq!(info.utxo_id.output_index(), 4);
    assert_eq!(info.utxo_id.tx_id(), &[2u8; 32]);
    assert_eq!(info.tx_pointer.block_height(), 0x01020304);
    assert_eq!(info.tx_pointer.tx_index(), 0x0506);
    assert_eq!(ContractsLatestUtxo::column(), Column::ContractsLatestUtxo);
}

#[test]
fn latest_utxo_of_another_shape_is_an_error() {
    let contract_id: ContractId = [1u8; 32];
    let database = &mut Database::new();
    database.write(&contract_id, Column::ContractsLatestUtxo, &[1, 2, 3]);
    assert_eq!(ContractsLatestUtxo::get(database, &contract_id), Err(StorageError::Codec));
    let info = ContractUtxoInfo { utxo_id: UtxoId::new([2u8; 32], 4), tx_pointer: TxPointer::new(1, 5) };
    assert_eq!(
        ContractsLatestUtxo::insert(database, &contract_id, &info),
        Err(StorageError::Codec)
    );
    // the new value is stored all the same
    assert_eq!(ContractsLatestUtxo::insert(database, &contract_id, &info), Ok(Some(info)));
    assert_eq!(ContractsLatestUtxo::remove(database, &contract_id), Ok(Some(info)));
    assert_eq!(ContractsLatestUtxo::remove(database, &contract_id), Ok(None));
    assert_eq!(ContractsLatestUtxo::get(database, &contract_id), Ok(None));
}

fn key_of(contract: &ContractId, rest: &[u8]) -> Vec<u8> {
    let mut key = contract.to_vec();
    key.extend_from_slice(rest);
    key
}

/// A store with the contract `[1; 32]`, two slots of state, two balances and
/// some entries of other shapes and of another contract.
fn with_contract() -> (Database, ContractId) {
    let contract: ContractId = [1u8; 32];
    let other: ContractId = [2u8; 32];
    let mut database = Database::new();
    ContractsRawCode::insert(&mut database, &contract, &[7, 7, 7]).unwrap();
    let mut info = vec![5u8; 32];
    info.extend_from_slice(&[6u8; 32]);
    database.write(&contract, Column::ContractsInfo, &info);
    let utxo = ContractUtxoInfo { utxo_id: UtxoId::new([3u8; 32], 9), tx_pointer: TxPointer::new(12, 34) };
    ContractsLatestUtxo::insert(&mut database, &contract, &utxo).unwrap();
    database.write(&key_of(&contract, &[9u8; 32]), Column::ContractsState, &[19u8; 32]);
    database.write(&key_of(&contract, &[8u8; 32]), Column::ContractsState, &[18u8; 32]);
    // passed over: a value that is no slot, a key that is too short, another contract
    database.write(&key_of(&contract, &[7u8; 32]), Column::ContractsState, &[1, 2, 3]);
    database.write(&key_of(&contract, &[7u8; 3]), Column::ContractsState, &[17u8; 32]);
    database.write(&key_of(&other, &[1u8; 32]), Column::ContractsState, &[11u8; 32]);
    database.write(&key_of(&contract, &[4u8; 32]), Column::ContractsAssets, &500u64.to_be_bytes());
    database.write(&key_of(&contract, &[3u8; 32]), Column::ContractsAssets, &u64::MAX.to_be_bytes());
    database.write(&key_of(&other, &[3u8; 32]), Column::ContractsAssets, &1u64.to_be_bytes());
    (database, contract)
}

#[test]
fn get_contract_config_by_id_collects_the_contract() {
    let (database, contract) = with_contract();
    let config = database.get_contract_config_by_id(contract).unwrap();
    assert_eq!(
        config,
        ContractConfig {
            code: vec![7, 7, 7],
            salt: [5u8; 32],
            state: Some(vec![([8u8; 32], [18u8; 32]), ([9u8; 32], [19u8; 32])]),
            balances: Some(vec![([3u8; 32], u64::MAX), ([4u8; 32], 500)]),
            tx_id: Some([3u8; 32]),
            output_index: Some(9),
            tx_pointer_block_height: Some(12),
            tx_pointer_tx_idx: Some(34),
        }
    );
}

#[test]
fn contract_balances_walks_the_assets() {
    let (mut database, contract) = with_contract();
    assert_eq!(
        database.contract_balances(contract, None, None),
        vec![Ok(([3u8; 32], u64::MAX)), Ok(([4u8; 32], 500))]
    );
    assert_eq!(
        database.contract_balances(contract, None, Some(IterDirection::Reverse)),
        vec![Ok(([4u8; 32], 500)), Ok(([3u8; 32], u64::MAX))]
    );
    assert_eq!(
        database.contract_balances(contract, Some([4u8; 32]), Some(IterDirection::Forward)),
        vec![Ok(([4u8; 32], 500))]
    );
    assert_eq!(
        database.contract_balances(contract, Some([3u8; 32]), Some(IterDirection::Reverse)),
        vec![Ok(([3u8; 32], u64::MAX))]
    );
    assert!(database.contract_balances([9u8; 32], None, None).is_empty());
    // an amount of another length is an error in its place
    database.write(&key_of(&contract, &[5u8; 32]), Column::ContractsAssets, &[1, 2]);
    assert_eq!(
        database.contract_balances(contract, None, None),
        vec![Ok(([3u8; 32], u64::MAX)), Ok(([4u8; 32], 500)), Err(DatabaseError::Codec)]
    );
}

#[test]
fn get_contract_config_lists_every_contract() {
    let (mut database, contract) = with_contract();
    let second: ContractId = [0u8; 32];
    ContractsRawCode::insert(&mut database, &second, &[1]).unwrap();
    database.write(&second, Column::ContractsInfo, &[0u8; 64]);
    let utxo = ContractUtxoInfo { utxo_id: UtxoId::new([0u8; 32], 0), tx_pointer: TxPointer::new(0, 0) };
    ContractsLatestUtxo::insert(&mut database, &second, &utxo).unwrap();
    let configs = database.get_contract_config().unwrap().unwrap();
    assert_eq!(configs.len(), 2);
    assert_eq!(configs[0], database.get_contract_config_by_id(second).unwrap());
    assert_eq!(configs[1], database.get_contract_config_by_id(contract).unwrap());
    assert_eq!(configs[0].state, Some(vec![]));
    assert_eq!(configs[0].balances, Some(vec![]));
    assert_eq!(Database::new().get_contract_config(), Ok(Some(vec![])));
}

#[test]
fn get_contract_config_reports_a_short_key() {
    let (mut database, _) = with_contract();
    database.write(&[9, 9, 9], Column::ContractsRawCode, &[1]);
    database.write(&[0, 1], Column::ContractsRawCode, &[1]);
    assert_eq!(
        database.get_contract_config(),
        Err(StorageError::Database(DatabaseError::KeyLength { expected: 32, found: 2 }))
    );
}

#[test]
fn holds_contract_asks_for_code_info_and_output() {
    let (mut database, contract) = with_contract();
    assert!(database.holds_contract(&contract));
    assert!(database.holds_all_contracts());
    assert!(!database.holds_contract(&[2u8; 32]));
    // code without the rest is no whole contract
    ContractsRawCode::insert(&mut database, &[2u8; 32], &[1]).unwrap();
    assert!(!database.holds_contract(&[2u8; 32]));
    assert!(!database.holds_all_contracts());
    database.write(&[2u8; 32], Column::ContractsInfo, &[0u8; 64]);
    database.write(&[2u8; 32], Column::ContractsLatestUtxo, &[0u8; 39]);
    assert!(!database.holds_contract(&[2u8; 32]));
    database.write(&[2u8; 32], Column::ContractsLatestUtxo, &[0u8; 40]);
    assert!(database.holds_contract(&[2u8; 32]));
    assert!(database.holds_all_contracts());
    // a key that is shorter than an identifier is not asked about
    database.write(&[1, 2, 3], Column::ContractsRawCode, &[1]);
    assert!(database.holds_all_contracts());
}

#[test]
fn has_keyed_balances_finds_an_amount_under_a_short_key() {
    let (mut database, contract) = with_contract();
    assert!(database.has_keyed_balances(contract, None, None));
    // a value of another length under a short key is passed over
    database.write(&key_of(&contract, &[1u8; 3]), Column::ContractsAssets, &[1, 2]);
    assert!(database.has_keyed_balances(contract, None, None));
    database.write(&key_of(&contract, &[9u8; 3]), Column::ContractsAssets, &7u64.to_be_bytes());
    assert!(!database.has_keyed_balances(contract, None, None));
    assert!(!database.has_keyed_balances(contract, None, Some(IterDirection::Reverse)));
    // a walk that does not come by the key is not hindered by it
    assert!(database.has_keyed_balances(contract, Some([3u8; 32]), Some(IterDirection::Reverse)));
    assert!(database.has_keyed_balances([2u8; 32], None, None));
}
