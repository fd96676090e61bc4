//! The state of the gas price updater as the store keeps it: one record per
//! block height, under the height as a number of four bytes.

use crate::codec::{be_bytes, read_be, write_be};
use crate::codec::{lemma_be_bytes_len, lemma_be_bytes_of_value, lemma_be_round_trip, lemma_pow256_values};
use crate::database::contracts::StorageError;
use crate::database::{Column, Database};
use crate::gas_price::AlgorithmUpdaterV0;
use vstd::prelude::*;

verus! {

/// The state of the updater at one block.
#[derive(Debug, Clone, Copy, PartialEq, Eq, Structural)]
pub struct V0Metadata {
    /// The gas price to cover the execution of the next block
    pub new_exec_price: u64,
    /// The lowest the algorithm allows the exec gas price to go
    pub min_exec_gas_price: u64,
    /// The percentage the execution gas price will change in a single block
    pub exec_gas_price_change_percent: u64,
    /// The height of the last L2 block that was taken into account
    pub l2_block_height: u32,
    /// The threshold of gas usage above and below which the gas price will
    /// increase or decrease
    pub l2_block_fullness_threshold_percent: u64,
}

/// The state of the updater at one block, in the version that it was kept in.
#[derive(Debug, Clone, Copy, PartialEq, Eq, Structural)]
pub enum UpdaterMetadata {
    V0(V0Metadata),
}

impl UpdaterMetadata {
    /// The height of the block that the state belongs to.
    pub open spec fn height(self) -> u32 {
        match self {
            UpdaterMetadata::V0(v0) => v0.l2_block_height,
        }
    }

    /// The height of the block that the state belongs to.
    pub fn l2_block_height(&self) -> (height: u32)
        ensures
            height == self.height(),
    {
        match self {
            UpdaterMetadata::V0(v0) => v0.l2_block_height,
        }
    }

    /// The record of the state of `updater`.
    pub fn from_updater(updater: &AlgorithmUpdaterV0) -> (metadata: UpdaterMetadata)
        ensures
            metadata == UpdaterMetadata::V0(
                V0Metadata {
                    new_exec_price: updater.new_exec_price,
                    min_exec_gas_price: updater.min_exec_gas_price,
                    exec_gas_price_change_percent: updater.exec_gas_price_change_percent,
                    l2_block_height: updater.l2_block_height,
                    l2_block_fullness_threshold_percent: updater.l2_block_fullness_threshold_percent,
                },
            ),
    {
        UpdaterMetadata::V0(
            V0Metadata {
                new_exec_price: updater.new_exec_price,
                min_exec_gas_price: updater.min_exec_gas_price,
                exec_gas_price_change_percent: updater.exec_gas_price_change_percent,
                l2_block_height: updater.l2_block_height,
                l2_block_fullness_threshold_percent: updater.l2_block_fullness_threshold_percent,
            },
        )
    }

    /// The updater in the recorded state.
    pub fn into_updater(self) -> (updater: AlgorithmUpdaterV0)
        ensures
            UpdaterMetadata::V0(
                V0Metadata {
                    new_exec_price: updater.new_exec_price,
                    min_exec_gas_price: updater.min_exec_gas_price,
                    exec_gas_price_change_percent: updater.exec_gas_price_change_percent,
                    l2_block_height: updater.l2_block_height,
                    l2_block_fullness_threshold_percent: updater.l2_block_fullness_threshold_percent,
                },
            ) == self,
    {
        match self {
            UpdaterMetadata::V0(v0) => AlgorithmUpdaterV0 {
                new_exec_price: v0.new_exec_price,
                min_exec_gas_price: v0.min_exec_gas_price,
                exec_gas_price_change_percent: v0.exec_gas_price_change_percent,
                l2_block_height: v0.l2_block_height,
                l2_block_fullness_threshold_percent: v0.l2_block_fullness_threshold_percent,
            },
        }
    }
}

/// The number of bytes that a record is stored with.
pub const METADATA_LEN: usize = 37;

/// The key of the record of the block at `block_height`.
pub open spec fn metadata_key(block_height: u32) -> Seq<u8> {
    be_bytes(block_height as nat, 4)
}

/// The bytes that a record is stored as: a byte for the version, then the
/// fields in the order in which they are declared, as numbers of eight bytes
/// and, for the height, of four.
pub open spec fn metadata_bytes(metadata: UpdaterMetadata) -> Seq<u8> {
    match metadata {
        UpdaterMetadata::V0(v0) => seq![0u8] + be_bytes(v0.new_exec_price as nat, 8) + be_bytes(
            v0.min_exec_gas_price as nat,
            8,
        ) + be_bytes(v0.exec_gas_price_change_percent as nat, 8) + be_bytes(v0.l2_block_height as nat, 4)
            + be_bytes(v0.l2_block_fullness_threshold_percent as nat, 8),
    }
}

/// Whether `bytes` are the stored form of a record.
pub open spec fn is_metadata(bytes: Seq<u8>) -> bool {
    bytes.len() == METADATA_LEN && bytes[0] == 0
}

/// The bytes that `metadata` is stored as.
pub fn encode_metadata(metadata: &UpdaterMetadata) -> (bytes: Vec<u8>)
    ensures
        bytes@ == metadata_bytes(*metadata),
        is_metadata(bytes@),
{
    let mut bytes: Vec<u8> = Vec::new();
    match metadata {
        UpdaterMetadata::V0(v0) => {
            bytes.push(0);
            write_be(&mut bytes, v0.new_exec_price, 8);
            write_be(&mut bytes, v0.min_exec_gas_price, 8);
            write_be(&mut bytes, v0.exec_gas_price_change_percent, 8);
            write_be(&mut bytes, v0.l2_block_height as u64, 4);
            write_be(&mut bytes, v0.l2_block_fullness_threshold_percent, 8);
            proof {
                lemma_be_bytes_len(v0.new_exec_price as nat, 8);
                lemma_be_bytes_len(v0.min_exec_gas_price as nat, 8);
                lemma_be_bytes_len(v0.exec_gas_price_change_percent as nat, 8);
                lemma_be_bytes_len(v0.l2_block_height as nat, 4);
                lemma_be_bytes_len(v0.l2_block_fullness_threshold_percent as nat, 8);
                assert(Seq::<u8>::empty().push(0u8) =~= seq![0u8]);
            }
        },
    }
    bytes
}

/// The record that `bytes` are the stored form of, if they are one.
pub fn decode_metadata(bytes: &[u8]) -> (metadata: Option<UpdaterMetadata>)
    ensures
        metadata is Some == is_metadata(bytes@),
        metadata is Some ==> metadata_bytes(metadata->0) == bytes@,
{
    if bytes.len() != METADATA_LEN {
        return None;
    }
    if bytes[0] != 0 {
        return None;
    }
    let new_exec_price = read_be(bytes, 1, 8);
    let min_exec_gas_price = read_be(bytes, 9, 8);
    let exec_gas_price_change_percent = read_be(bytes, 17, 8);
    let l2_block_height = read_be(bytes, 25, 4);
    let l2_block_fullness_threshold_percent = read_be(bytes, 29, 8);
    proof {
        lemma_pow256_values();
        lemma_be_bytes_of_value(bytes@.subrange(1, 9));
        lemma_be_bytes_of_value(bytes@.subrange(9, 17));
        lemma_be_bytes_of_value(bytes@.subrange(17, 25));
        lemma_be_bytes_of_value(bytes@.subrange(25, 29));
        lemma_be_bytes_of_value(bytes@.subrange(29, 37));
        assert(bytes@ =~= seq![0u8] + bytes@.subrange(1, 9) + bytes@.subrange(9, 17) + bytes@.subrange(17, 25)
            + bytes@.subrange(25, 29) + bytes@.subrange(29, 37));
    }
    Some(
        UpdaterMetadata::V0(
            V0Metadata {
                new_exec_price,
                min_exec_gas_price,
                exec_gas_price_change_percent,
                l2_block_height: l2_block_height as u32,
                l2_block_fullness_threshold_percent,
            },
        ),
    )
}

/// Different records are stored as different bytes: what is decoded from the
/// stored form of a record is that record.
pub proof fn lemma_metadata_bytes_injective(a: UpdaterMetadata, b: UpdaterMetadata)
    requires
        metadata_bytes(a) == metadata_bytes(b),
    ensures
        a == b,
{
    lemma_pow256_values();
    let x = metadata_bytes(a);
    let y = metadata_bytes(b);
    let UpdaterMetadata::V0(p) = a;
    let UpdaterMetadata::V0(q) = b;
    lemma_be_bytes_len(p.new_exec_price as nat, 8);
    lemma_be_bytes_len(p.min_exec_gas_price as nat, 8);
    lemma_be_bytes_len(p.exec_gas_price_change_percent as nat, 8);
    lemma_be_bytes_len(p.l2_block_height as nat, 4);
    lemma_be_bytes_len(p.l2_block_fullness_threshold_percent as nat, 8);
    lemma_be_bytes_len(q.new_exec_price as nat, 8);
    lemma_be_bytes_len(q.min_exec_gas_price as nat, 8);
    lemma_be_bytes_len(q.exec_gas_price_change_percent as nat, 8);
    lemma_be_bytes_len(q.l2_block_height as nat, 4);
    lemma_be_bytes_len(q.l2_block_fullness_threshold_percent as nat, 8);
    assert(x.subrange(1, 9) =~= be_bytes(p.new_exec_price as nat, 8));
    assert(y.subrange(1, 9) =~= be_bytes(q.new_exec_price as nat, 8));
    assert(x.subrange(9, 17) =~= be_bytes(p.min_exec_gas_price as nat, 8));
    assert(y.subrange(9, 17) =~= be_bytes(q.min_exec_gas_price as nat, 8));
    assert(x.subrange(17, 25) =~= be_bytes(p.exec_gas_price_change_percent as nat, 8));
    assert(y.subrange(17, 25) =~= be_bytes(q.exec_gas_price_change_percent as nat, 8));
    assert(x.subrange(25, 29) =~= be_bytes(p.l2_block_height as nat, 4));
    assert(y.subrange(25, 29) =~= be_bytes(q.l2_block_height as nat, 4));
    assert(x.subrange(29, 37) =~= be_bytes(p.l2_block_fullness_threshold_percent as nat, 8));
    assert(y.subrange(29, 37) =~= be_bytes(q.l2_block_fullness_threshold_percent as nat, 8));
    lemma_be_round_trip(p.new_exec_price as nat, 8);
    lemma_be_round_trip(q.new_exec_price as nat, 8);
    lemma_be_round_trip(p.min_exec_gas_price as nat, 8);
    lemma_be_round_trip(q.min_exec_gas_price as nat, 8);
    lemma_be_round_trip(p.exec_gas_price_change_percent as nat, 8);
    lemma_be_round_trip(q.exec_gas_price_change_percent as nat, 8);
    lemma_be_round_trip(p.l2_block_height as nat, 4);
    lemma_be_round_trip(q.l2_block_height as nat, 4);
    lemma_be_round_trip(p.l2_block_fullness_threshold_percent as nat, 8);
    lemma_be_round_trip(q.l2_block_fullness_threshold_percent as nat, 8);
}

/// Why the records of the updater could not be used.
#[derive(Debug, Clone, Copy, PartialEq, Eq, Structural)]
pub enum MetadataError {
    /// The record of a block could not be read.
    CouldNotFetchMetadata { block_height: u32, source_error: StorageError },
}

/// The records of the gas price updater in a store.
pub struct FuelGasPriceMetadataStorage<Storage> {
    pub database: Storage,
}

impl<Storage> FuelGasPriceMetadataStorage<Storage> {
    /// The records that `database` holds.
    pub fn new(database: Storage) -> (storage: Self)
        ensures
            storage.database == database,
    {
        FuelGasPriceMetadataStorage { database }
    }
}

impl FuelGasPriceMetadataStorage<Database> {
    /// What the store holds: the stored form of every record under its key.
    pub open spec fn records(self) -> Map<Seq<u8>, Seq<u8>> {
        self.database.table(Column::GasPriceMetadata)
    }

    /// The record of the block at `block_height`. What is stored under the
    /// height and is no record is an error.
    pub fn get_metadata(&self, block_height: &u32) -> (metadata: Result<Option<UpdaterMetadata>, MetadataError>)
        ensures
            !self.records().dom().contains(metadata_key(*block_height)) ==> metadata == Ok::<
                Option<UpdaterMetadata>,
                MetadataError,
            >(None),
            self.records().dom().contains(metadata_key(*block_height)) && !is_metadata(
                self.records()[metadata_key(*block_height)],
            ) ==> metadata == Err::<Option<UpdaterMetadata>, MetadataError>(
                MetadataError::CouldNotFetchMetadata {
                    block_height: *block_height,
                    source_error: StorageError::Codec,
                },
            ),
            self.records().dom().contains(metadata_key(*block_height)) && is_metadata(
                self.records()[metadata_key(*block_height)],
            ) ==> metadata is Ok && metadata->Ok_0 is Some && metadata_bytes(metadata->Ok_0->0)
                == self.records()[metadata_key(*block_height)],
    {
        let mut key: Vec<u8> = Vec::new();
        write_be(&mut key, *block_height as u64, 4);
        assert(key@ =~= metadata_key(*block_height));
        match self.database.read_alloc(key.as_slice(), Column::GasPriceMetadata) {
            None => Ok(None),
            Some(bytes) => match decode_metadata(bytes.as_slice()) {
                Some(metadata) => Ok(Some(metadata)),
                None => Err(
                    MetadataError::CouldNotFetchMetadata {
                        block_height: *block_height,
                        source_error: StorageError::Codec,
                    },
                ),
            },
        }
    }

    /// Stores `metadata` as the record of its block, in place of any record
    /// of that block. The store takes every record.
    pub fn set_metadata(&mut self, metadata: UpdaterMetadata) -> (result: Result<(), MetadataError>)
        ensures
            result == Ok::<(), MetadataError>(()),
            final(self).records() == old(self).records().insert(
                metadata_key(metadata.height()),
                metadata_bytes(metadata),
            ),
            forall|other: Column|
                other != Column::GasPriceMetadata ==> #[trigger] final(self).database.table(other) == old(
                    self,
                ).database.table(other),
    {
        let block_height = metadata.l2_block_height();
        let mut key: Vec<u8> = Vec::new();
        write_be(&mut key, block_height as u64, 4);
        assert(key@ =~= metadata_key(block_height));
        let bytes = encode_metadata(&metadata);
        self.database.write(key.as_slice(), Column::GasPriceMetadata, bytes.as_slice());
        Ok(())
    }
}

/// A record that was set is the record that is got for its block: the store
/// holds its stored form under its key, and nothing else decodes from that.
pub proof fn lemma_set_metadata_is_got(
    before: Map<Seq<u8>, Seq<u8>>,
    metadata: UpdaterMetadata,
    got: UpdaterMetadata,
)
    requires
        metadata_bytes(got) == before.insert(metadata_key(metadata.height()), metadata_bytes(metadata))[metadata_key(
            metadata.height(),
        )],
    ensures
        got == metadata,
{
    lemma_metadata_bytes_injective(got, metadata);
}

} // verus!
