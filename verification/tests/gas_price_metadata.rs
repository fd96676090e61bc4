use fuel_genesis::codec::{read_be, write_be};
use fuel_genesis::database::contracts::StorageError;
use fuel_genesis::database::{Column, Database};
use fuel_genesis::gas_price::AlgorithmUpdaterV0;
use fuel_genesis::gas_price_metadata::{
    decode_metadata, encode_metadata, FuelGasPriceMetadataStorage, MetadataError, UpdaterMetadata, V0Metadata,
};

fn metadata(height: u32) -> UpdaterMetadata {
    UpdaterMetadata::V0(V0Metadata {
        new_exec_price: 0x0102030405060708,
        min_exec_gas_price: 10,
        exec_gas_price_change_percent: 5,
        l2_block_height: height,
        l2_block_fullness_threshold_percent: 50,
    })
}

#[test]
fn numbers_are_stored_with_the_most_significant_byte_first() {
    let mut bytes = vec![0xaa];
    write_be(&mut bytes, 0x0102030405060708, 8);
    write_be(&mut bytes, 0x0a0b, 2);
    write_be(&mut bytes, 7, 4);
    write_be(&mut bytes, 9, 0);
    assert_eq!(bytes, vec![0xaa, 1, 2, 3, 4, 5, 6, 7, 8, 0x0a, 0x0b, 0, 0, 0, 7]);
    assert_eq!(read_be(&bytes, 1, 8), 0x0102030405060708);
    assert_eq!(read_be(&bytes, 9, 2), 0x0a0b);
    assert_eq!(read_be(&bytes, 11, 4), 7);
    assert_eq!(read_be(&bytes, 3, 0), 0);
    let mut all = Vec::new();
    write_be(&mut all, u64::MAX, 8);
    assert_eq!(all, vec![0xff; 8]);
    assert_eq!(read_be(&all, 0, 8), u64::MAX);
    // a number that does not fit loses its upper bytes
    let mut cut = Vec::new();
    write_be(&mut cut, 0x010203, 2);
    assert_eq!(cut, vec![2, 3]);
}

#[test]
fn metadata_is_stored_in_37_bytes() {
    let bytes = encode_metadata(&metadata(0x0a0b0c0d));
    let mut expected = vec![0u8, 1, 2, 3, 4, 5, 6, 7, 8];
    expected.extend_from_slice(&10u64.to_be_bytes());
    expected.extend_from_slice(&5u64.to_be_bytes());
    expected.extend_from_slice(&[0x0a, 0x0b, 0x0c, 0x0d]);
    expected.extend_from_slice(&50u64.to_be_bytes());
    assert_eq!(bytes, expected);
    assert_eq!(decode_metadata(&bytes), Some(metadata(0x0a0b0c0d)));
    assert_eq!(decode_metadata(&bytes[..36]), None);
    let mut other_version = bytes.clone();
    other_version[0] = 1;
    assert_eq!(decode_metadata(&other_version), None);
}

#[test]
fn set_metadata_then_get_metadata() {
    let mut storage = FuelGasPriceMetadataStorage::new(Database::new());
    assert_eq!(storage.get_metadata(&3), Ok(None));
    assert_eq!(storage.set_metadata(metadata(3)), Ok(()));
    assert_eq!(storage.set_metadata(metadata(4)), Ok(()));
    assert_eq!(storage.get_metadata(&3), Ok(Some(metadata(3))));
    assert_eq!(storage.get_metadata(&4), Ok(Some(metadata(4))));
    assert_eq!(storage.get_metadata(&5), Ok(None));
    // the record is under the height as a number of four bytes
    assert_eq!(
        storage.database.read_alloc(&[0, 0, 0, 3], Column::GasPriceMetadata),
        Some(encode_metadata(&metadata(3)))
    );
}

#[test]
fn set_metadata_replaces_the_record_of_the_block() {
    let mut storage = FuelGasPriceMetadataStorage::new(Database::new());
    storage.set_metadata(metadata(3)).unwrap();
    let newer = UpdaterMetadata::V0(V0Metadata {
        new_exec_price: 1,
        min_exec_gas_price: 2,
        exec_gas_price_change_percent: 3,
        l2_block_height: 3,
        l2_block_fullness_threshold_percent: 4,
    });
    storage.set_metadata(newer).unwrap();
    assert_eq!(storage.get_metadata(&3), Ok(Some(newer)));
    assert_eq!(storage.database.iter_all(Column::GasPriceMetadata, None).len(), 1);
}

#[test]
fn get_metadata_fails_on_what_is_no_record() {
    let mut database = Database::new();
    database.write(&[0, 0, 0, 9], Column::GasPriceMetadata, &[1, 2, 3]);
    let storage = FuelGasPriceMetadataStorage::new(database);
    assert_eq!(
        storage.get_metadata(&9),
        Err(MetadataError::CouldNotFetchMetadata { block_height: 9, source_error: StorageError::Codec })
    );
}

#[test]
fn metadata_is_the_state_of_the_updater() {
    let updater = AlgorithmUpdaterV0 {
        new_exec_price: 100,
        min_exec_gas_price: 10,
        exec_gas_price_change_percent: 5,
        l2_block_height: 77,
        l2_block_fullness_threshold_percent: 50,
    };
    let metadata = UpdaterMetadata::from_updater(&updater);
    assert_eq!(metadata.l2_block_height(), 77);
    assert_eq!(metadata.into_updater(), updater);
}
