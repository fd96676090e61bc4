//! Contract bytecode and contract state as the store holds them.
//!
//! Bytecode is stored as the raw bytes of the contract under the bytes of the
//! contract's identifier. No length is put in front of it: the stored length
//! of the value is the length of the code.

use crate::codec::{be_bytes, be_value, read_be, write_be};
use crate::codec::{lemma_be_bytes_len, lemma_be_bytes_of_value, lemma_be_round_trip, lemma_pow256_values};
use crate::database::{copy_bytes, direction_of, in_range, is_scan};
use crate::database::{Column, Database, DatabaseError, IterDirection};
use crate::key_order::precedes;
use crate::key_order::{lemma_precedes_asymmetric, lemma_precedes_irreflexive};
use crate::key_order::{lemma_precedes_common_prefix, lemma_prefix_splits};
use vstd::prelude::*;

verus! {

/// The identifier of a contract.
pub type ContractId = [u8; 32];

/// The identifier of an asset.
pub type AssetId = [u8; 32];

/// A word of 32 bytes.
pub type Bytes32 = [u8; 32];

/// A machine word.
pub type Word = u64;

/// Why an access to a table failed.
#[derive(Debug, Clone, Copy, PartialEq, Eq, Structural)]
pub enum StorageError {
    /// The store below the table failed.
    Database(DatabaseError),
    /// A stored value is not of the shape that the table gives to its values.
    Codec,
}

/// The table of contract bytecode.
pub struct ContractsRawCode;

impl ContractsRawCode {
    /// What the table holds: the code of every contract under the bytes of
    /// its identifier.
    pub open spec fn content(database: Database) -> Map<Seq<u8>, Seq<u8>> {
        database.table(Column::ContractsRawCode)
    }

    /// The code of contract `key`.
    pub fn get(database: &Database, key: &ContractId) -> (code: Result<Option<Vec<u8>>, StorageError>)
        ensures
            code is Ok,
            code->Ok_0 is Some == Self::content(*database).dom().contains(key@),
            code->Ok_0 is Some ==> code->Ok_0->0@ == Self::content(*database)[key@],
    {
        Ok(database.read_alloc(key.as_slice(), Column::ContractsRawCode))
    }

    /// Whether the table holds code for contract `key`.
    pub fn contains_key(database: &Database, key: &ContractId) -> (present: Result<bool, StorageError>)
        ensures
            present == Ok::<bool, StorageError>(Self::content(*database).dom().contains(key@)),
    {
        Ok(database.contains_key(key.as_slice(), Column::ContractsRawCode))
    }

    /// Stores `value` as the code of contract `key` and returns the code that
    /// was stored before. Only the new code is there afterwards.
    pub fn insert(database: &mut Database, key: &ContractId, value: &[u8]) -> (previous: Result<
        Option<Vec<u8>>,
        StorageError,
    >)
        ensures
            previous is Ok,
            previous->Ok_0 is Some == Self::content(*old(database)).dom().contains(key@),
            previous->Ok_0 is Some ==> previous->Ok_0->0@ == Self::content(*old(database))[key@],
            Self::content(*final(database)) == Self::content(*old(database)).insert(key@, value@),
            forall|other: Column|
                other != Column::ContractsRawCode ==> #[trigger] final(database).table(other) == old(
                    database,
                ).table(other),
    {
        let existing = database.replace(key.as_slice(), Column::ContractsRawCode, value);
        Ok(existing.1)
    }

    /// Removes the code of contract `key` and returns it.
    pub fn remove(database: &mut Database, key: &ContractId) -> (removed: Result<Option<Vec<u8>>, StorageError>)
        ensures
            removed is Ok,
            removed->Ok_0 is Some == Self::content(*old(database)).dom().contains(key@),
            removed->Ok_0 is Some ==> removed->Ok_0->0@ == Self::content(*old(database))[key@],
            Self::content(*final(database)) == Self::content(*old(database)).remove(key@),
            forall|other: Column|
                other != Column::ContractsRawCode ==> #[trigger] final(database).table(other) == old(
                    database,
                ).table(other),
    {
        Self::take(database, key)
    }

    /// The length of the code of contract `key`.
    pub fn size_of_value(database: &Database, key: &ContractId) -> (size: Result<Option<usize>, StorageError>)
        ensures
            size is Ok,
            size->Ok_0 is Some == Self::content(*database).dom().contains(key@),
            size->Ok_0 is Some ==> size->Ok_0->0 == Self::content(*database)[key@].len(),
    {
        Ok(database.size_of_value(key.as_slice(), Column::ContractsRawCode))
    }

    /// Copies the code of contract `key` to the front of `buf` and returns its
    /// length. Code that `buf` cannot hold is an error, and `buf` stays as it
    /// was.
    pub fn read(database: &Database, key: &ContractId, buf: &mut [u8]) -> (outcome: Result<
        Option<usize>,
        StorageError,
    >)
        ensures
            final(buf)@.len() == old(buf)@.len(),
            !Self::content(*database).dom().contains(key@) ==> outcome == Ok::<Option<usize>, StorageError>(
                None,
            ) && final(buf)@ == old(buf)@,
            Self::content(*database).dom().contains(key@) && Self::content(*database)[key@].len() > old(
                buf,
            )@.len() ==> outcome == Err::<Option<usize>, StorageError>(
                StorageError::Database(
                    DatabaseError::BufferTooSmall {
                        required: Self::content(*database)[key@].len() as usize,
                        provided: old(buf)@.len() as usize,
                    },
                ),
            ) && final(buf)@ == old(buf)@,
            Self::content(*database).dom().contains(key@) && Self::content(*database)[key@].len() <= old(
                buf,
            )@.len() ==> outcome == Ok::<Option<usize>, StorageError>(
                Some(Self::content(*database)[key@].len() as usize),
            ) && final(buf)@ == Self::content(*database)[key@] + old(buf)@.skip(
                Self::content(*database)[key@].len() as int,
            ),
    {
        match database.read(key.as_slice(), Column::ContractsRawCode, buf) {
            Ok(read) => Ok(read),
            Err(error) => Err(StorageError::Database(error)),
        }
    }

    /// A copy of the code of contract `key`.
    pub fn read_alloc(database: &Database, key: &ContractId) -> (code: Result<Option<Vec<u8>>, StorageError>)
        ensures
            code is Ok,
            code->Ok_0 is Some == Self::content(*database).dom().contains(key@),
            code->Ok_0 is Some ==> code->Ok_0->0@ == Self::content(*database)[key@],
    {
        Ok(database.read_alloc(key.as_slice(), Column::ContractsRawCode))
    }

    /// Stores `buf` as the code of contract `key` and returns the number of
    /// bytes stored, which is the length of `buf`.
    pub fn write(database: &mut Database, key: &ContractId, buf: Vec<u8>) -> (written: Result<usize, StorageError>)
        ensures
            written == Ok::<usize, StorageError>(buf@.len() as usize),
            Self::content(*final(database)) == Self::content(*old(database)).insert(key@, buf@),
            forall|other: Column|
                other != Column::ContractsRawCode ==> #[trigger] final(database).table(other) == old(
                    database,
                ).table(other),
    {
        Ok(database.write(key.as_slice(), Column::ContractsRawCode, buf.as_slice()))
    }

    /// Stores `buf` as the code of contract `key` and returns the number of
    /// bytes stored together with the code that was stored before.
    pub fn replace(database: &mut Database, key: &ContractId, buf: Vec<u8>) -> (outcome: Result<
        (usize, Option<Vec<u8>>),
        StorageError,
    >)
        ensures
            outcome is Ok,
            outcome->Ok_0.0 == buf@.len(),
            outcome->Ok_0.1 is Some == Self::content(*old(database)).dom().contains(key@),
            outcome->Ok_0.1 is Some ==> outcome->Ok_0.1->0@ == Self::content(*old(database))[key@],
            Self::content(*final(database)) == Self::content(*old(database)).insert(key@, buf@),
            forall|other: Column|
                other != Column::ContractsRawCode ==> #[trigger] final(database).table(other) == old(
                    database,
                ).table(other),
    {
        Ok(database.replace(key.as_slice(), Column::ContractsRawCode, buf.as_slice()))
    }

    /// Removes the code of contract `key` and returns it.
    pub fn take(database: &mut Database, key: &ContractId) -> (taken: Result<Option<Vec<u8>>, StorageError>)
        ensures
            taken is Ok,
            taken->Ok_0 is Some == Self::content(*old(database)).dom().contains(key@),
            taken->Ok_0 is Some ==> taken->Ok_0->0@ == Self::content(*old(database))[key@],
            Self::content(*final(database)) == Self::content(*old(database)).remove(key@),
            forall|other: Column|
                other != Column::ContractsRawCode ==> #[trigger] final(database).table(other) == old(
                    database,
                ).table(other),
    {
        Ok(database.take(key.as_slice(), Column::ContractsRawCode))
    }
}

/// A value that was written is read back byte for byte, and its stored
/// length is the length of what was written: nothing frames it.
///
/// `after` is a column after `bytes` was written under `key`, as `write` and
/// `replace` say; the conclusions are what `read_alloc` and `size_of_value`
/// return for it.
pub proof fn lemma_written_is_read_back(before: Map<Seq<u8>, Seq<u8>>, key: Seq<u8>, bytes: Seq<u8>)
    ensures
        before.insert(key, bytes).dom().contains(key),
        before.insert(key, bytes)[key] == bytes,
        before.insert(key, bytes)[key].len() == bytes.len(),
{
}

/// The last write wins: after `first` and then `second` were written under
/// `key`, the second write has returned `first` as the value before it, only
/// `second` is read back, and the column has no more keys than after the
/// first write.
pub proof fn lemma_last_write_wins(before: Map<Seq<u8>, Seq<u8>>, key: Seq<u8>, first: Seq<u8>, second: Seq<u8>)
    ensures
        before.insert(key, first).dom().contains(key),
        before.insert(key, first)[key] == first,
        before.insert(key, first).insert(key, second)[key] == second,
        before.insert(key, first).insert(key, second).dom() == before.insert(key, first).dom(),
        before.insert(key, first).insert(key, second) == before.insert(key, second),
{
    assert(before.insert(key, first).insert(key, second).dom() =~= before.insert(key, first).dom());
    assert(before.insert(key, first).insert(key, second) =~= before.insert(key, second));
}

/// The salt of a contract.
pub type Salt = [u8; 32];

/// The identifier of a transaction.
pub type TxId = [u8; 32];

/// The 32 bytes of `bytes` from `from` on.
pub fn array32(bytes: &[u8], from: usize) -> (word: [u8; 32])
    requires
        from + 32 <= bytes@.len(),
    ensures
        word@ == bytes@.subrange(from as int, from + 32),
{
    let total = bytes.len();
    let mut word = [0u8; 32];
    let mut i: usize = 0;
    while i < 32
        invariant
            i <= 32,
            from + 32 <= bytes@.len(),
            bytes@.len() == total,
            word@.len() == 32,
            forall|k: int| 0 <= k < i ==> word@[k] == bytes@[from + k],
        decreases 32 - i,
    {
        word[i] = bytes[from + i];
        i += 1;
    }
    assert(word@ =~= bytes@.subrange(from as int, from + 32));
    word
}

/// An output of a transaction.
#[derive(Debug, Clone, Copy, PartialEq, Eq)]
pub struct UtxoId {
    pub tx_id: TxId,
    pub output_index: u16,
}

impl UtxoId {
    /// The output at `output_index` of transaction `tx_id`.
    pub fn new(tx_id: TxId, output_index: u16) -> (id: UtxoId)
        ensures
            id.tx_id == tx_id,
            id.output_index == output_index,
    {
        UtxoId { tx_id, output_index }
    }

    /// The transaction of the output.
    pub fn tx_id(&self) -> (tx_id: &TxId)
        ensures
            *tx_id == self.tx_id,
    {
        &self.tx_id
    }

    /// The place of the output in its transaction.
    pub fn output_index(&self) -> (index: u16)
        ensures
            index == self.output_index,
    {
        self.output_index
    }
}

/// The place of a transaction in the chain.
#[derive(Debug, Clone, Copy, PartialEq, Eq)]
pub struct TxPointer {
    pub block_height: u32,
    pub tx_index: u16,
}

impl TxPointer {
    /// The transaction at `tx_index` of the block at `block_height`.
    pub fn new(block_height: u32, tx_index: u16) -> (pointer: TxPointer)
        ensures
            pointer.block_height == block_height,
            pointer.tx_index == tx_index,
    {
        TxPointer { block_height, tx_index }
    }

    /// The height of the block of the transaction.
    pub fn block_height(&self) -> (height: u32)
        ensures
            height == self.block_height,
    {
        self.block_height
    }

    /// The place of the transaction in its block.
    pub fn tx_index(&self) -> (index: u16)
        ensures
            index == self.tx_index,
    {
        self.tx_index
    }
}

/// The latest output of a contract and the transaction that made it.
#[derive(Debug, Clone, Copy, PartialEq, Eq)]
pub struct ContractUtxoInfo {
    pub utxo_id: UtxoId,
    pub tx_pointer: TxPointer,
}

/// The number of bytes that a `ContractUtxoInfo` is stored with.
pub const UTXO_INFO_LEN: usize = 40;

/// The bytes that a `ContractUtxoInfo` is stored as: the identifier of the
/// transaction, then the place of the output, the height of the block and
/// the place of the transaction in it, as numbers of two, four and two bytes.
pub open spec fn utxo_info_bytes(info: ContractUtxoInfo) -> Seq<u8> {
    info.utxo_id.tx_id@ + be_bytes(info.utxo_id.output_index as nat, 2) + be_bytes(
        info.tx_pointer.block_height as nat,
        4,
    ) + be_bytes(info.tx_pointer.tx_index as nat, 2)
}

/// The bytes that `info` is stored as.
pub fn encode_utxo_info(info: &ContractUtxoInfo) -> (bytes: Vec<u8>)
    ensures
        bytes@ == utxo_info_bytes(*info),
        bytes@.len() == UTXO_INFO_LEN,
{
    let mut bytes = copy_bytes(info.utxo_id.tx_id.as_slice());
    write_be(&mut bytes, info.utxo_id.output_index as u64, 2);
    write_be(&mut bytes, info.tx_pointer.block_height as u64, 4);
    write_be(&mut bytes, info.tx_pointer.tx_index as u64, 2);
    proof {
        lemma_be_bytes_len(info.utxo_id.output_index as nat, 2);
        lemma_be_bytes_len(info.tx_pointer.block_height as nat, 4);
        lemma_be_bytes_len(info.tx_pointer.tx_index as nat, 2);
    }
    bytes
}

/// The `ContractUtxoInfo` that `bytes` are the stored form of, if they are
/// of the right length.
pub fn decode_utxo_info(bytes: &[u8]) -> (info: Option<ContractUtxoInfo>)
    ensures
        info is Some == (bytes@.len() == UTXO_INFO_LEN),
        info is Some ==> utxo_info_bytes(info->0) == bytes@,
{
    if bytes.len() != UTXO_INFO_LEN {
        return None;
    }
    let tx_id = array32(bytes, 0);
    let output_index = read_be(bytes, 32, 2);
    let block_height = read_be(bytes, 34, 4);
    let tx_index = read_be(bytes, 38, 2);
    proof {
        lemma_pow256_values();
        lemma_be_bytes_of_value(bytes@.subrange(32, 34));
        lemma_be_bytes_of_value(bytes@.subrange(34, 38));
        lemma_be_bytes_of_value(bytes@.subrange(38, 40));
        assert(bytes@ =~= bytes@.subrange(0, 32) + bytes@.subrange(32, 34) + bytes@.subrange(34, 38)
            + bytes@.subrange(38, 40));
    }
    Some(
        ContractUtxoInfo {
            utxo_id: UtxoId { tx_id, output_index: output_index as u16 },
            tx_pointer: TxPointer { block_height: block_height as u32, tx_index: tx_index as u16 },
        },
    )
}

/// Different values are stored as different bytes: what is decoded from the
/// stored form of a value is that value.
pub proof fn lemma_utxo_info_bytes_injective(a: ContractUtxoInfo, b: ContractUtxoInfo)
    requires
        utxo_info_bytes(a) == utxo_info_bytes(b),
    ensures
        a == b,
{
    lemma_pow256_values();
    lemma_be_bytes_len(a.utxo_id.output_index as nat, 2);
    lemma_be_bytes_len(b.utxo_id.output_index as nat, 2);
    lemma_be_bytes_len(a.tx_pointer.block_height as nat, 4);
    lemma_be_bytes_len(b.tx_pointer.block_height as nat, 4);
    lemma_be_bytes_len(a.tx_pointer.tx_index as nat, 2);
    lemma_be_bytes_len(b.tx_pointer.tx_index as nat, 2);
    let x = utxo_info_bytes(a);
    let y = utxo_info_bytes(b);
    assert(x.subrange(0, 32) =~= a.utxo_id.tx_id@);
    assert(y.subrange(0, 32) =~= b.utxo_id.tx_id@);
    assert(a.utxo_id.tx_id =~= b.utxo_id.tx_id);
    assert(x.subrange(32, 34) =~= be_bytes(a.utxo_id.output_index as nat, 2));
    assert(y.subrange(32, 34) =~= be_bytes(b.utxo_id.output_index as nat, 2));
    assert(x.subrange(34, 38) =~= be_bytes(a.tx_pointer.block_height as nat, 4));
    assert(y.subrange(34, 38) =~= be_bytes(b.tx_pointer.block_height as nat, 4));
    assert(x.subrange(38, 40) =~= be_bytes(a.tx_pointer.tx_index as nat, 2));
    assert(y.subrange(38, 40) =~= be_bytes(b.tx_pointer.tx_index as nat, 2));
    lemma_be_round_trip(a.utxo_id.output_index as nat, 2);
    lemma_be_round_trip(b.utxo_id.output_index as nat, 2);
    lemma_be_round_trip(a.tx_pointer.block_height as nat, 4);
    lemma_be_round_trip(b.tx_pointer.block_height as nat, 4);
    lemma_be_round_trip(a.tx_pointer.tx_index as nat, 2);
    lemma_be_round_trip(b.tx_pointer.tx_index as nat, 2);
}

/// The table of the latest output of every contract.
pub struct ContractsLatestUtxo;

impl ContractsLatestUtxo {
    /// The column of the table.
    pub fn column() -> (column: Column)
        ensures
            column == Column::ContractsLatestUtxo,
    {
        Column::ContractsLatestUtxo
    }

    /// What the table holds: the stored form of the latest output of every
    /// contract under the bytes of the contract's identifier.
    pub open spec fn content(database: Database) -> Map<Seq<u8>, Seq<u8>> {
        database.table(Column::ContractsLatestUtxo)
    }

    /// The latest output of contract `key`. A stored value of another length
    /// than that of the stored form is an error.
    pub fn get(database: &Database, key: &ContractId) -> (info: Result<Option<ContractUtxoInfo>, StorageError>)
        ensures
            !Self::content(*database).dom().contains(key@) ==> info == Ok::<
                Option<ContractUtxoInfo>,
                StorageError,
            >(None),
            Self::content(*database).dom().contains(key@) && Self::content(*database)[key@].len()
                != UTXO_INFO_LEN ==> info == Err::<Option<ContractUtxoInfo>, StorageError>(StorageError::Codec),
            Self::content(*database).dom().contains(key@) && Self::content(*database)[key@].len()
                == UTXO_INFO_LEN ==> info is Ok && info->Ok_0 is Some && utxo_info_bytes(info->Ok_0->0)
                == Self::content(*database)[key@],
    {
        match database.read_alloc(key.as_slice(), Column::ContractsLatestUtxo) {
            None => Ok(None),
            Some(bytes) => match decode_utxo_info(bytes.as_slice()) {
                Some(info) => Ok(Some(info)),
                None => Err(StorageError::Codec),
            },
        }
    }

    /// Whether the table holds an output for contract `key`.
    pub fn contains_key(database: &Database, key: &ContractId) -> (present: Result<bool, StorageError>)
        ensures
            present == Ok::<bool, StorageError>(Self::content(*database).dom().contains(key@)),
    {
        Ok(database.contains_key(key.as_slice(), Column::ContractsLatestUtxo))
    }

    /// Stores `value` as the latest output of contract `key` and returns the
    /// one that was stored before. Where what was stored before is of another
    /// length than that of the stored form, the new value is stored and the
    /// old one is the error.
    pub fn insert(database: &mut Database, key: &ContractId, value: &ContractUtxoInfo) -> (previous: Result<
        Option<ContractUtxoInfo>,
        StorageError,
    >)
        ensures
            Self::content(*final(database)) == Self::content(*old(database)).insert(
                key@,
                utxo_info_bytes(*value),
            ),
            forall|other: Column|
                other != Column::ContractsLatestUtxo ==> #[trigger] final(database).table(other) == old(
                    database,
                ).table(other),
            !Self::content(*old(database)).dom().contains(key@) ==> previous == Ok::<
                Option<ContractUtxoInfo>,
                StorageError,
            >(None),
            Self::content(*old(database)).dom().contains(key@) && Self::content(*old(database))[key@].len()
                != UTXO_INFO_LEN ==> previous == Err::<Option<ContractUtxoInfo>, StorageError>(
                StorageError::Codec,
            ),
            Self::content(*old(database)).dom().contains(key@) && Self::content(*old(database))[key@].len()
                == UTXO_INFO_LEN ==> previous is Ok && previous->Ok_0 is Some && utxo_info_bytes(
                previous->Ok_0->0,
            ) == Self::content(*old(database))[key@],
    {
        let bytes = encode_utxo_info(value);
        let existing = database.replace(key.as_slice(), Column::ContractsLatestUtxo, bytes.as_slice());
        match existing.1 {
            None => Ok(None),
            Some(bytes) => match decode_utxo_info(bytes.as_slice()) {
                Some(info) => Ok(Some(info)),
                None => Err(StorageError::Codec),
            },
        }
    }

    /// Removes the latest output of contract `key` and returns it. Where what
    /// was stored is of another length than that of the stored form, it is
    /// removed and is the error.
    pub fn remove(database: &mut Database, key: &ContractId) -> (removed: Result<
        Option<ContractUtxoInfo>,
        StorageError,
    >)
        ensures
            Self::content(*final(database)) == Self::content(*old(database)).remove(key@),
            forall|other: Column|
                other != Column::ContractsLatestUtxo ==> #[trigger] final(database).table(other) == old(
                    database,
                ).table(other),
            !Self::content(*old(database)).dom().contains(key@) ==> removed == Ok::<
                Option<ContractUtxoInfo>,
                StorageError,
            >(None),
            Self::content(*old(database)).dom().contains(key@) && Self::content(*old(database))[key@].len()
                != UTXO_INFO_LEN ==> removed == Err::<Option<ContractUtxoInfo>, StorageError>(
                StorageError::Codec,
            ),
            Self::content(*old(database)).dom().contains(key@) && Self::content(*old(database))[key@].len()
                == UTXO_INFO_LEN ==> removed is Ok && removed->Ok_0 is Some && utxo_info_bytes(
                removed->Ok_0->0,
            ) == Self::content(*old(database))[key@],
    {
        match database.take(key.as_slice(), Column::ContractsLatestUtxo) {
            None => Ok(None),
            Some(bytes) => match decode_utxo_info(bytes.as_slice()) {
                Some(info) => Ok(Some(info)),
                None => Err(StorageError::Codec),
            },
        }
    }
}

/// Whether `items` are the entries of `table` whose key is `prefix` and 32
/// bytes more and whose value has `value_len` bytes, each with what follows
/// the prefix in its key, in the order of the keys.
pub open spec fn is_listing(
    items: Seq<(Bytes32, Vec<u8>)>,
    table: Map<Seq<u8>, Seq<u8>>,
    prefix: Seq<u8>,
    value_len: nat,
) -> bool {
    &&& forall|i: int|
        0 <= i < items.len() ==> table.contains_pair(prefix + (#[trigger] items[i]).0@, items[i].1@)
            && items[i].1@.len() == value_len
    &&& forall|suffix: Seq<u8>| #[trigger]
        table.dom().contains(prefix + suffix) && suffix.len() == 32 && table[prefix + suffix].len() == value_len
            ==> exists|i: int| 0 <= i < items.len() && (#[trigger] items[i]).0@ == suffix
    &&& forall|i: int, j: int|
        0 <= i < j < items.len() ==> precedes((#[trigger] items[i]).0@, (#[trigger] items[j]).0@)
}

/// The entries of `column` whose key is the identifier `prefix` and 32 bytes
/// more and whose value has `value_len` bytes. Entries of another shape are
/// passed over.
fn suffix_listing(database: &Database, column: Column, prefix: &ContractId, value_len: usize) -> (items: Vec<
    (Bytes32, Vec<u8>),
>)
    ensures
        is_listing(items@, database.table(column), prefix@, value_len as nat),
{
    let entries = database.iter_all_by_prefix(column, Some(prefix.as_slice()));
    let ghost table = database.table(column);
    let mut items: Vec<(Bytes32, Vec<u8>)> = Vec::new();
    let ghost mut source: Seq<int> = Seq::empty();
    let mut n: usize = 0;
    assert(prefix@.len() == 32);
    while n < entries.len()
        invariant
            n <= entries@.len(),
            prefix@.len() == 32,
            is_scan(entries@, table, Some(prefix@), None, IterDirection::Forward),
            source.len() == items@.len(),
            forall|m: int|
                0 <= m < source.len() ==> 0 <= #[trigger] source[m] < n && entries@[source[m]].0@ == prefix@
                    + items@[m].0@ && entries@[source[m]].1@ == items@[m].1@ && items@[m].1@.len() == value_len,
            forall|m: int, k: int| 0 <= m < k < source.len() ==> #[trigger] source[m] < #[trigger] source[k],
            forall|j: int|
                0 <= j < n && (#[trigger] entries@[j]).0@.len() == 64 && entries@[j].1@.len() == value_len
                    ==> exists|m: int| 0 <= m < source.len() && #[trigger] source[m] == j,
        decreases entries@.len() - n,
    {
        let entry = &entries[n];
        if entry.0.len() == 64 && entry.1.len() == value_len {
            let suffix = array32(entry.0.as_slice(), 32);
            let ghost earlier = source;
            proof {
                assert(in_range(entry.0@, Some(prefix@), None, IterDirection::Forward));
                lemma_prefix_splits(entry.0@, prefix@);
                assert(entry.0@.skip(32) =~= entry.0@.subrange(32, 64));
            }
            items.push((suffix, copy_bytes(entry.1.as_slice())));
            proof {
                source = source.push(n as int);
                assert forall|j: int|
                    0 <= j < n + 1 && (#[trigger] entries@[j]).0@.len() == 64 && entries@[j].1@.len()
                        == value_len implies exists|m: int| 0 <= m < source.len() && #[trigger] source[m] == j by {
                    if j < n {
                        let m = choose|m: int| 0 <= m < earlier.len() && #[trigger] earlier[m] == j;
                        assert(source[m] == j);
                    } else {
                        assert(source[earlier.len() as int] == j);
                    }
                }
            }
        }
        n += 1;
    }
    proof {
        assert forall|i: int| 0 <= i < items@.len() implies table.contains_pair(
            prefix@ + (#[trigger] items@[i]).0@,
            items@[i].1@,
        ) && items@[i].1@.len() == value_len by {
            let at = source[i];
            assert(table.contains_pair(entries@[at].0@, entries@[at].1@));
        }
        assert forall|suffix: Seq<u8>| #[trigger]
            table.dom().contains(prefix@ + suffix) && suffix.len() == 32 && table[prefix@ + suffix].len()
                == value_len implies exists|i: int| 0 <= i < items@.len() && (#[trigger] items@[i]).0@ == suffix by {
            let key = prefix@ + suffix;
            assert(key.take(32) =~= prefix@);
            assert(in_range(key, Some(prefix@), None, IterDirection::Forward));
            let j = choose|j: int| 0 <= j < entries@.len() && (#[trigger] entries@[j]).0@ == key;
            assert(table.contains_pair(entries@[j].0@, entries@[j].1@));
            let m = choose|m: int| 0 <= m < source.len() && #[trigger] source[m] == j;
            assert(items@[m].0@ =~= (prefix@ + items@[m].0@).skip(32));
            assert(suffix =~= key.skip(32));
        }
        assert forall|i: int, j: int| 0 <= i < j < items@.len() implies precedes(
            (#[trigger] items@[i]).0@,
            (#[trigger] items@[j]).0@,
        ) by {
            assert(source[i] < source[j]);
            assert(precedes(entries@[source[i]].0@, entries@[source[j]].0@));
            lemma_precedes_common_prefix(prefix@, items@[i].0@, items@[j].0@);
        }
    }
    items
}

/// Whether `state` is the state of the contract `contract` in `table`: every
/// slot of 32 bytes that the table holds under the contract's identifier and
/// 32 bytes more, with what follows the identifier as the slot's key, in the
/// order of the keys. Entries of another shape are no slots.
pub open spec fn is_state_of(state: Seq<(Bytes32, Bytes32)>, table: Map<Seq<u8>, Seq<u8>>, contract: Seq<u8>) -> bool {
    &&& forall|i: int|
        0 <= i < state.len() ==> table.contains_pair(contract + (#[trigger] state[i]).0@, state[i].1@)
    &&& forall|slot: Seq<u8>| #[trigger]
        table.dom().contains(contract + slot) && slot.len() == 32 && table[contract + slot].len() == 32
            ==> exists|i: int| 0 <= i < state.len() && (#[trigger] state[i]).0@ == slot
    &&& forall|i: int, j: int|
        0 <= i < j < state.len() ==> precedes((#[trigger] state[i]).0@, (#[trigger] state[j]).0@)
}

/// Whether `balances` are the balances of the contract `contract` in `table`:
/// every amount of 8 bytes that the table holds under the contract's
/// identifier and 32 bytes more, with what follows the identifier as the
/// asset, in the order of the keys. Entries of another shape are no balances.
pub open spec fn is_balances_of(balances: Seq<(AssetId, Word)>, table: Map<Seq<u8>, Seq<u8>>, contract: Seq<u8>) -> bool {
    &&& forall|i: int|
        0 <= i < balances.len() ==> table.contains_pair(
            contract + (#[trigger] balances[i]).0@,
            be_bytes(balances[i].1 as nat, 8),
        )
    &&& forall|asset: Seq<u8>| #[trigger]
        table.dom().contains(contract + asset) && asset.len() == 32 && table[contract + asset].len() == 8
            ==> exists|i: int| 0 <= i < balances.len() && (#[trigger] balances[i]).0@ == asset
    &&& forall|i: int, j: int|
        0 <= i < j < balances.len() ==> precedes((#[trigger] balances[i]).0@, (#[trigger] balances[j]).0@)
}

/// What the store holds of one contract.
#[derive(Debug, Clone, PartialEq, Eq)]
pub struct ContractConfig {
    pub code: Vec<u8>,
    pub salt: Salt,
    pub state: Option<Vec<(Bytes32, Bytes32)>>,
    pub balances: Option<Vec<(AssetId, Word)>>,
    pub tx_id: Option<TxId>,
    pub output_index: Option<u16>,
    pub tx_pointer_block_height: Option<u32>,
    pub tx_pointer_tx_idx: Option<u16>,
}

/// The number of bytes that the salt and the root of a contract are stored
/// with, the salt first.
pub const CONTRACT_INFO_LEN: usize = 64;

/// Whether the store holds all of the contract `contract`: its code, its
/// salt and root, and its latest output.
pub open spec fn has_config(database: Database, contract: Seq<u8>) -> bool {
    &&& database.table(Column::ContractsRawCode).dom().contains(contract)
    &&& database.table(Column::ContractsInfo).dom().contains(contract)
    &&& database.table(Column::ContractsInfo)[contract].len() == CONTRACT_INFO_LEN
    &&& database.table(Column::ContractsLatestUtxo).dom().contains(contract)
    &&& database.table(Column::ContractsLatestUtxo)[contract].len() == UTXO_INFO_LEN
}

/// Whether `config` is what `database` holds of the contract `contract`.
pub open spec fn is_config_of(config: ContractConfig, database: Database, contract: Seq<u8>) -> bool {
    &&& config.code@ == database.table(Column::ContractsRawCode)[contract]
    &&& config.salt@ == database.table(Column::ContractsInfo)[contract].subrange(0, 32)
    &&& config.tx_id is Some
    &&& config.output_index is Some
    &&& config.tx_pointer_block_height is Some
    &&& config.tx_pointer_tx_idx is Some
    &&& utxo_info_bytes(
        ContractUtxoInfo {
            utxo_id: UtxoId { tx_id: config.tx_id->0, output_index: config.output_index->0 },
            tx_pointer: TxPointer {
                block_height: config.tx_pointer_block_height->0,
                tx_index: config.tx_pointer_tx_idx->0,
            },
        },
    ) == database.table(Column::ContractsLatestUtxo)[contract]
    &&& config.state is Some
    &&& is_state_of(config.state->0@, database.table(Column::ContractsState), contract)
    &&& config.balances is Some
    &&& is_balances_of(config.balances->0@, database.table(Column::ContractsAssets), contract)
}

impl Database {
    /// Whether the store holds all of the contract `contract_id`: its code,
    /// its salt and root, and its latest output.
    pub fn holds_contract(&self, contract_id: &ContractId) -> (holds: bool)
        ensures
            holds == has_config(*self, contract_id@),
    {
        let key = contract_id.as_slice();
        self.contains_key(key, Column::ContractsRawCode) && self.size_of_value(key, Column::ContractsInfo)
            == Some(CONTRACT_INFO_LEN) && self.size_of_value(key, Column::ContractsLatestUtxo) == Some(
            UTXO_INFO_LEN,
        )
    }

    /// What the store holds of the contract `contract_id`, which it holds: its
    /// code, salt, state, balances and latest output.
    pub fn get_contract_config_by_id(&self, contract_id: ContractId) -> (config: Result<
        ContractConfig,
        StorageError,
    >)
        requires
            has_config(*self, contract_id@),
        ensures
            config is Ok,
            is_config_of(config->Ok_0, *self, contract_id@),
    {
        let code = match self.read_alloc(contract_id.as_slice(), Column::ContractsRawCode) {
            Some(code) => code,
            None => unreached(),
        };
        let salt = match self.read_alloc(contract_id.as_slice(), Column::ContractsInfo) {
            Some(info) => array32(info.as_slice(), 0),
            None => unreached(),
        };
        let utxo = match ContractsLatestUtxo::get(self, &contract_id) {
            Ok(Some(utxo)) => utxo,
            _ => unreached(),
        };
        let slots = suffix_listing(self, Column::ContractsState, &contract_id, 32);
        let mut state: Vec<(Bytes32, Bytes32)> = Vec::new();
        let mut i: usize = 0;
        while i < slots.len()
            invariant
                i <= slots@.len(),
                state@.len() == i,
                forall|k: int| 0 <= k < slots@.len() ==> (#[trigger] slots@[k]).1@.len() == 32,
                forall|k: int|
                    0 <= k < i ==> (#[trigger] state@[k]).0 == slots@[k].0 && state@[k].1@ == slots@[k].1@,
            decreases slots@.len() - i,
        {
            let value = array32(slots[i].1.as_slice(), 0);
            assert(slots@[i as int].1@.subrange(0, 32) =~= slots@[i as int].1@);
            state.push((slots[i].0, value));
            i += 1;
        }
        let amounts = suffix_listing(self, Column::ContractsAssets, &contract_id, 8);
        let mut balances: Vec<(AssetId, Word)> = Vec::new();
        let mut j: usize = 0;
        while j < amounts.len()
            invariant
                j <= amounts@.len(),
                balances@.len() == j,
                forall|k: int| 0 <= k < amounts@.len() ==> (#[trigger] amounts@[k]).1@.len() == 8,
                forall|k: int|
                    0 <= k < j ==> (#[trigger] balances@[k]).0 == amounts@[k].0 && be_bytes(
                        balances@[k].1 as nat,
                        8,
                    ) == amounts@[k].1@,
            decreases amounts@.len() - j,
        {
            let amount = read_be(amounts[j].1.as_slice(), 0, 8);
            proof {
                assert(amounts@[j as int].1@.subrange(0, 8) =~= amounts@[j as int].1@);
                lemma_be_bytes_of_value(amounts@[j as int].1@);
            }
            balances.push((amounts[j].0, amount));
            j += 1;
        }
        proof {
            let contract = contract_id@;
            let slot_table = self.table(Column::ContractsState);
            assert forall|slot: Seq<u8>| #[trigger]
                slot_table.dom().contains(contract + slot) && slot.len() == 32 && slot_table[contract
                    + slot].len() == 32 implies exists|i: int|
                0 <= i < state@.len() && (#[trigger] state@[i]).0@ == slot by {
                let at = choose|at: int| 0 <= at < slots@.len() && (#[trigger] slots@[at]).0@ == slot;
                assert(state@[at].0 == slots@[at].0);
            }
            assert forall|i: int, j: int| 0 <= i < j < state@.len() implies precedes(
                (#[trigger] state@[i]).0@,
                (#[trigger] state@[j]).0@,
            ) by {
                assert(state@[i].0 == slots@[i].0);
                assert(state@[j].0 == slots@[j].0);
            }
            assert forall|i: int| 0 <= i < state@.len() implies slot_table.contains_pair(
                contract + (#[trigger] state@[i]).0@,
                state@[i].1@,
            ) by {
                assert(state@[i].0 == slots@[i].0);
            }
            let asset_table = self.table(Column::ContractsAssets);
            assert forall|asset: Seq<u8>| #[trigger]
                asset_table.dom().contains(contract + asset) && asset.len() == 32 && asset_table[contract
                    + asset].len() == 8 implies exists|i: int|
                0 <= i < balances@.len() && (#[trigger] balances@[i]).0@ == asset by {
                let at = choose|at: int| 0 <= at < amounts@.len() && (#[trigger] amounts@[at]).0@ == asset;
                assert(balances@[at].0 == amounts@[at].0);
            }
            assert forall|i: int, j: int| 0 <= i < j < balances@.len() implies precedes(
                (#[trigger] balances@[i]).0@,
                (#[trigger] balances@[j]).0@,
            ) by {
                assert(balances@[i].0 == amounts@[i].0);
                assert(balances@[j].0 == amounts@[j].0);
            }
            assert forall|i: int| 0 <= i < balances@.len() implies asset_table.contains_pair(
                contract + (#[trigger] balances@[i]).0@,
                be_bytes(balances@[i].1 as nat, 8),
            ) by {
                assert(balances@[i].0 == amounts@[i].0);
            }
        }
        Ok(
            ContractConfig {
                code,
                salt,
                state: Some(state),
                balances: Some(balances),
                tx_id: Some(utxo.utxo_id.tx_id),
                output_index: Some(utxo.utxo_id.output_index),
                tx_pointer_block_height: Some(utxo.tx_pointer.block_height),
                tx_pointer_tx_idx: Some(utxo.tx_pointer.tx_index),
            },
        )
    }
}

/// Whether `item` is what a walk over the balances of a contract gives for the
/// entry of `key` with `value`: the asset that follows the contract's
/// identifier in the key, with the amount that the 8 bytes of the value stand
/// for, or an error for a value of another length.
pub open spec fn is_balance_item(item: Result<(AssetId, Word), DatabaseError>, key: Seq<u8>, value: Seq<u8>) -> bool {
    if value.len() == 8 {
        item is Ok && item->Ok_0.0@ == key.skip(32) && item->Ok_0.1 == be_value(value)
    } else {
        item == Err::<(AssetId, Word), DatabaseError>(DatabaseError::Codec)
    }
}

/// The key at which a walk over the balances of `contract` begins when it is
/// to begin at `asset`.
pub open spec fn balance_start(contract: ContractId, asset: Option<AssetId>) -> Option<Seq<u8>> {
    match asset {
        Some(asset) => Some(contract@ + asset@),
        None => None,
    }
}

/// Whether every balance of `contract` that a walk from `start` in `direction`
/// comes by stands under a key of the contract's identifier and 32 bytes
/// more.
pub open spec fn balances_are_keyed(
    table: Map<Seq<u8>, Seq<u8>>,
    contract: Seq<u8>,
    start: Option<Seq<u8>>,
    direction: IterDirection,
) -> bool {
    forall|key: Seq<u8>| #[trigger]
        table.dom().contains(key) && in_range(key, Some(contract), start, direction) && table[key].len() == 8
            ==> key.len() == 64
}

/// The key under which the balance of `asset` of `contract` stands.
fn balance_key(contract: &ContractId, asset: &AssetId) -> (key: Vec<u8>)
    ensures
        key@ == contract@ + asset@,
{
    let mut key = copy_bytes(contract.as_slice());
    let mut i: usize = 0;
    while i < 32
        invariant
            i <= 32,
            asset@.len() == 32,
            key@ == contract@ + asset@.take(i as int),
        decreases 32 - i,
    {
        key.push(asset[i]);
        assert(contract@ + asset@.take(i + 1) =~= (contract@ + asset@.take(i as int)).push(asset@[i as int]));
        i += 1;
    }
    assert(asset@.take(32) =~= asset@);
    key
}

impl Database {
    /// The entries that a walk over the balances of `contract` comes by.
    fn balance_entries(&self, contract: &ContractId, start_asset: Option<AssetId>, direction: Option<IterDirection>) -> (entries:
        Vec<(Vec<u8>, Vec<u8>)>)
        ensures
            is_scan(
                entries@,
                self.table(Column::ContractsAssets),
                Some(contract@),
                balance_start(*contract, start_asset),
                direction_of(direction),
            ),
    {
        match start_asset {
            Some(asset) => {
                let key = balance_key(contract, &asset);
                self.iter_all_filtered(
                    Column::ContractsAssets,
                    Some(contract.as_slice()),
                    Some(key.as_slice()),
                    direction,
                )
            },
            None => self.iter_all_filtered(Column::ContractsAssets, Some(contract.as_slice()), None, direction),
        }
    }

    /// Whether every balance of `contract` that a walk from `start_asset` in
    /// `direction` comes by stands under a key of the contract's identifier
    /// and 32 bytes more, as `contract_balances` asks.
    pub fn has_keyed_balances(
        &self,
        contract: ContractId,
        start_asset: Option<AssetId>,
        direction: Option<IterDirection>,
    ) -> (keyed: bool)
        ensures
            keyed == balances_are_keyed(
                self.table(Column::ContractsAssets),
                contract@,
                balance_start(contract, start_asset),
                direction_of(direction),
            ),
    {
        let entries = self.balance_entries(&contract, start_asset, direction);
        let ghost table = self.table(Column::ContractsAssets);
        let ghost start = balance_start(contract, start_asset);
        let ghost way = direction_of(direction);
        let mut n: usize = 0;
        while n < entries.len()
            invariant
                n <= entries@.len(),
                table == self.table(Column::ContractsAssets),
                start == balance_start(contract, start_asset),
                way == direction_of(direction),
                is_scan(entries@, table, Some(contract@), start, way),
                forall|i: int|
                    0 <= i < n && (#[trigger] entries@[i]).1@.len() == 8 ==> entries@[i].0@.len() == 64,
            decreases entries@.len() - n,
        {
            if entries[n].1.len() == 8 && entries[n].0.len() != 64 {
                proof {
                    let key = entries@[n as int].0@;
                    assert(table.contains_pair(key, entries@[n as int].1@));
                    assert(table.dom().contains(key) && in_range(key, Some(contract@), start, way) && table[key].len()
                        == 8);
                    assert(key.len() != 64);
                    assert(!balances_are_keyed(table, contract@, start, way));
                }
                return false;
            }
            n += 1;
        }
        proof {
            assert forall|key: Seq<u8>| #[trigger]
                table.dom().contains(key) && in_range(key, Some(contract@), start, way) && table[key].len()
                    == 8 implies key.len() == 64 by {
                let at = choose|at: int| 0 <= at < entries@.len() && (#[trigger] entries@[at]).0@ == key;
                assert(table.contains_pair(entries@[at].0@, entries@[at].1@));
            }
        }
        true
    }

    /// Whether the store holds all of every contract whose code it holds, as
    /// `get_contract_config` asks.
    pub fn holds_all_contracts(&self) -> (holds: bool)
        ensures
            holds == (forall|key: Seq<u8>| #[trigger]
                self.table(Column::ContractsRawCode).dom().contains(key) && key.len() >= 32 ==> has_config(
                    *self,
                    key.take(32),
                )),
    {
        let entries = self.iter_all(Column::ContractsRawCode, None);
        let ghost table = self.table(Column::ContractsRawCode);
        let mut n: usize = 0;
        while n < entries.len()
            invariant
                n <= entries@.len(),
                table == self.table(Column::ContractsRawCode),
                is_scan(entries@, table, None, None, IterDirection::Forward),
                forall|i: int|
                    0 <= i < n && (#[trigger] entries@[i]).0@.len() >= 32 ==> has_config(
                        *self,
                        entries@[i].0@.take(32),
                    ),
            decreases entries@.len() - n,
        {
            let key = &entries[n].0;
            if key.len() >= 32 {
                let contract_id = array32(key.as_slice(), 0);
                proof {
                    assert(key@.subrange(0, 32) =~= key@.take(32));
                }
                if !self.holds_contract(&contract_id) {
                    proof {
                        assert(table.contains_pair(entries@[n as int].0@, entries@[n as int].1@));
                    }
                    return false;
                }
            }
            n += 1;
        }
        proof {
            assert forall|key: Seq<u8>| #[trigger] table.dom().contains(key) && key.len() >= 32 implies has_config(
                *self,
                key.take(32),
            ) by {
                assert(in_range(key, None, None, IterDirection::Forward));
                let at = choose|at: int| 0 <= at < entries@.len() && (#[trigger] entries@[at]).0@ == key;
                assert(entries@[at].0@.len() >= 32);
            }
        }
        true
    }

    /// The balances of `contract` in the order of the assets, or against it,
    /// from `start_asset` on where one is given. A stored amount of another
    /// length than 8 bytes gives an error in its place.
    pub fn contract_balances(
        &self,
        contract: ContractId,
        start_asset: Option<AssetId>,
        direction: Option<IterDirection>,
    ) -> (balances: Vec<Result<(AssetId, Word), DatabaseError>>)
        requires
            balances_are_keyed(
                self.table(Column::ContractsAssets),
                contract@,
                balance_start(contract, start_asset),
                direction_of(direction),
            ),
        ensures
            exists|entries: Seq<(Vec<u8>, Vec<u8>)>|
                #![trigger is_scan(
                    entries,
                    self.table(Column::ContractsAssets),
                    Some(contract@),
                    balance_start(contract, start_asset),
                    direction_of(direction),
                )]
                is_scan(
                    entries,
                    self.table(Column::ContractsAssets),
                    Some(contract@),
                    balance_start(contract, start_asset),
                    direction_of(direction),
                ) && balances@.len() == entries.len() && forall|i: int|
                    0 <= i < entries.len() ==> is_balance_item(
                        #[trigger] balances@[i],
                        entries[i].0@,
                        entries[i].1@,
                    ),
    {
        let entries = self.balance_entries(&contract, start_asset, direction);
        let ghost table = self.table(Column::ContractsAssets);
        let ghost start = balance_start(contract, start_asset);
        let ghost way = direction_of(direction);
        let mut balances: Vec<Result<(AssetId, Word), DatabaseError>> = Vec::new();
        let mut n: usize = 0;
        while n < entries.len()
            invariant
                n <= entries@.len(),
                balances@.len() == n,
                is_scan(entries@, table, Some(contract@), start, way),
                balances_are_keyed(table, contract@, start, way),
                forall|i: int|
                    0 <= i < n ==> is_balance_item(#[trigger] balances@[i], entries@[i].0@, entries@[i].1@),
            decreases entries@.len() - n,
        {
            let entry = &entries[n];
            if entry.1.len() == 8 {
                proof {
                    assert(table.contains_pair(entry.0@, entry.1@));
                    assert(table.dom().contains(entry.0@) && in_range(entry.0@, Some(contract@), start, way));
                    assert(entry.0@.skip(32) =~= entry.0@.subrange(32, 64));
                    assert(entry.1@.subrange(0, 8) =~= entry.1@);
                }
                let asset = array32(entry.0.as_slice(), 32);
                let amount = read_be(entry.1.as_slice(), 0, 8);
                balances.push(Ok((asset, amount)));
            } else {
                balances.push(Err(DatabaseError::Codec));
            }
            n += 1;
        }
        balances
    }

    /// What the store holds of every contract, in the order of the contracts'
    /// identifiers. A key of the code table that is shorter than an
    /// identifier is an error; of the short keys the smallest is reported.
    pub fn get_contract_config(&self) -> (configs: Result<Option<Vec<ContractConfig>>, StorageError>)
        requires
            forall|key: Seq<u8>| #[trigger]
                self.table(Column::ContractsRawCode).dom().contains(key) && key.len() >= 32 ==> has_config(
                    *self,
                    key.take(32),
                ),
        ensures
            configs is Err <==> exists|key: Seq<u8>| #[trigger]
                self.table(Column::ContractsRawCode).dom().contains(key) && key.len() < 32,
            configs is Err ==> exists|key: Seq<u8>| #[trigger]
                self.table(Column::ContractsRawCode).dom().contains(key) && key.len() < 32 && configs
                    == Err::<Option<Vec<ContractConfig>>, StorageError>(
                    StorageError::Database(DatabaseError::KeyLength { expected: 32, found: key.len() as usize }),
                ) && forall|other: Seq<u8>| #[trigger]
                    self.table(Column::ContractsRawCode).dom().contains(other) && other.len() < 32 ==> !precedes(
                        other,
                        key,
                    ),
            configs is Ok ==> configs->Ok_0 is Some && exists|entries: Seq<(Vec<u8>, Vec<u8>)>|
                #![trigger is_scan(
                    entries,
                    self.table(Column::ContractsRawCode),
                    None,
                    None,
                    IterDirection::Forward,
                )]
                is_scan(entries, self.table(Column::ContractsRawCode), None, None, IterDirection::Forward)
                    && configs->Ok_0->0@.len() == entries.len() && forall|i: int|
                    0 <= i < entries.len() ==> is_config_of(
                        #[trigger] configs->Ok_0->0@[i],
                        *self,
                        entries[i].0@.take(32),
                    ),
    {
        let entries = self.iter_all(Column::ContractsRawCode, None);
        let ghost table = self.table(Column::ContractsRawCode);
        let mut configs: Vec<ContractConfig> = Vec::new();
        let mut n: usize = 0;
        while n < entries.len()
            invariant
                n <= entries@.len(),
                configs@.len() == n,
                table == self.table(Column::ContractsRawCode),
                is_scan(entries@, table, None, None, IterDirection::Forward),
                forall|key: Seq<u8>| #[trigger]
                    table.dom().contains(key) && key.len() >= 32 ==> has_config(*self, key.take(32)),
                forall|i: int| 0 <= i < n ==> (#[trigger] entries@[i]).0@.len() >= 32,
                forall|i: int|
                    0 <= i < n ==> is_config_of(#[trigger] configs@[i], *self, entries@[i].0@.take(32)),
            decreases entries@.len() - n,
        {
            let key = &entries[n].0;
            proof {
                assert(table.contains_pair(entries@[n as int].0@, entries@[n as int].1@));
            }
            if key.len() < 32 {
                proof {
                    assert forall|other: Seq<u8>| #[trigger]
                        table.dom().contains(other) && other.len() < 32 implies !precedes(other, key@) by {
                        assert(in_range(other, None, None, IterDirection::Forward));
                        let at = choose|at: int| 0 <= at < entries@.len() && (#[trigger] entries@[at]).0@ == other;
                        if at < n {
                            assert(entries@[at].0@.len() >= 32);
                        } else if at > n {
                            assert(precedes(entries@[n as int].0@, entries@[at].0@));
                            lemma_precedes_asymmetric(other, key@);
                        } else {
                            lemma_precedes_irreflexive(other);
                        }
                    }
                }
                return Err(StorageError::Database(DatabaseError::KeyLength { expected: 32, found: key.len() }));
            }
            let contract_id = array32(key.as_slice(), 0);
            proof {
                assert(key@.subrange(0, 32) =~= key@.take(32));
            }
            match self.get_contract_config_by_id(contract_id) {
                Ok(config) => {
                    configs.push(config);
                },
                Err(_) => unreached(),
            }
            n += 1;
        }
        proof {
            if exists|key: Seq<u8>| #[trigger] table.dom().contains(key) && key.len() < 32 {
                let key = choose|key: Seq<u8>| #[trigger] table.dom().contains(key) && key.len() < 32;
                assert(in_range(key, None, None, IterDirection::Forward));
                let at = choose|at: int| 0 <= at < entries@.len() && (#[trigger] entries@[at]).0@ == key;
                assert(entries@[at].0@.len() >= 32);
            }
        }
        Ok(Some(configs))
    }
}

} // verus!
