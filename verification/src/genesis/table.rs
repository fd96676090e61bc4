//! The tables of a snapshot and where each of them is written.

use crate::database::Column;
use vstd::prelude::*;

verus! {

/// The two independent stores of a node.
#[derive(Debug, Clone, Copy, PartialEq, Eq, Structural)]
pub enum StorageDomain {
    /// State that consensus depends on.
    OnChain,
    /// Indexes and history kept for queries.
    OffChain,
}

/// The tables that a snapshot holds. Every import loads all of them.
#[derive(Debug, Clone, Copy, PartialEq, Eq, Structural)]
pub enum TableKind {
    Coins,
    ContractsAssets,
    ContractsLatestUtxo,
    ContractsRawCode,
    ContractsState,
    FuelBlocks,
    Messages,
    OldFuelBlockConsensus,
    OldFuelBlocks,
    OldTransactions,
    OwnedTransactions,
    ProcessedTransactions,
    SealedBlockConsensus,
    SpentMessages,
    TransactionStatuses,
    Transactions,
}

/// The number of tables in a snapshot.
pub const TABLE_COUNT: usize = 16;

impl TableKind {
    /// The place of the table in the order in which workers are started.
    pub open spec fn ordinal(self) -> int {
        match self {
            TableKind::Coins => 0,
            TableKind::ContractsAssets => 1,
            TableKind::ContractsLatestUtxo => 2,
            TableKind::ContractsRawCode => 3,
            TableKind::ContractsState => 4,
            TableKind::FuelBlocks => 5,
            TableKind::Messages => 6,
            TableKind::OldFuelBlockConsensus => 7,
            TableKind::OldFuelBlocks => 8,
            TableKind::OldTransactions => 9,
            TableKind::OwnedTransactions => 10,
            TableKind::ProcessedTransactions => 11,
            TableKind::SealedBlockConsensus => 12,
            TableKind::SpentMessages => 13,
            TableKind::TransactionStatuses => 14,
            TableKind::Transactions => 15,
        }
    }

    /// The table at a place in the starting order.
    pub open spec fn at(ordinal: int) -> TableKind {
        if ordinal == 0 {
            TableKind::Coins
        } else if ordinal == 1 {
            TableKind::ContractsAssets
        } else if ordinal == 2 {
            TableKind::ContractsLatestUtxo
        } else if ordinal == 3 {
            TableKind::ContractsRawCode
        } else if ordinal == 4 {
            TableKind::ContractsState
        } else if ordinal == 5 {
            TableKind::FuelBlocks
        } else if ordinal == 6 {
            TableKind::Messages
        } else if ordinal == 7 {
            TableKind::OldFuelBlockConsensus
        } else if ordinal == 8 {
            TableKind::OldFuelBlocks
        } else if ordinal == 9 {
            TableKind::OldTransactions
        } else if ordinal == 10 {
            TableKind::OwnedTransactions
        } else if ordinal == 11 {
            TableKind::ProcessedTransactions
        } else if ordinal == 12 {
            TableKind::SealedBlockConsensus
        } else if ordinal == 13 {
            TableKind::SpentMessages
        } else if ordinal == 14 {
            TableKind::TransactionStatuses
        } else {
            TableKind::Transactions
        }
    }

    /// The store that receives the table's entries.
    pub open spec fn spec_domain(self) -> StorageDomain {
        match self {
            TableKind::Coins
            | TableKind::ContractsAssets
            | TableKind::ContractsLatestUtxo
            | TableKind::ContractsRawCode
            | TableKind::ContractsState
            | TableKind::FuelBlocks
            | TableKind::Messages
            | TableKind::ProcessedTransactions
            | TableKind::SealedBlockConsensus
            | TableKind::Transactions => StorageDomain::OnChain,
            TableKind::OldFuelBlockConsensus
            | TableKind::OldFuelBlocks
            | TableKind::OldTransactions
            | TableKind::OwnedTransactions
            | TableKind::SpentMessages
            | TableKind::TransactionStatuses => StorageDomain::OffChain,
        }
    }

    /// The column that receives the table's entries.
    pub open spec fn spec_column(self) -> Column {
        match self {
            TableKind::Coins => Column::Coins,
            TableKind::ContractsAssets => Column::ContractsAssets,
            TableKind::ContractsLatestUtxo => Column::ContractsLatestUtxo,
            TableKind::ContractsRawCode => Column::ContractsRawCode,
            TableKind::ContractsState => Column::ContractsState,
            TableKind::FuelBlocks => Column::FuelBlocks,
            TableKind::Messages => Column::Messages,
            TableKind::OldFuelBlockConsensus => Column::OldFuelBlockConsensus,
            TableKind::OldFuelBlocks => Column::OldFuelBlocks,
            TableKind::OldTransactions => Column::OldTransactions,
            TableKind::OwnedTransactions => Column::OwnedTransactions,
            TableKind::ProcessedTransactions => Column::ProcessedTransactions,
            TableKind::SealedBlockConsensus => Column::SealedBlockConsensus,
            TableKind::SpentMessages => Column::SpentMessages,
            TableKind::TransactionStatuses => Column::TransactionStatuses,
            TableKind::Transactions => Column::Transactions,
        }
    }

    /// The place of the table in the order in which workers are started.
    pub fn index(&self) -> (index: usize)
        ensures
            index == self.ordinal(),
            index < TABLE_COUNT,
    {
        match self {
            TableKind::Coins => 0,
            TableKind::ContractsAssets => 1,
            TableKind::ContractsLatestUtxo => 2,
            TableKind::ContractsRawCode => 3,
            TableKind::ContractsState => 4,
            TableKind::FuelBlocks => 5,
            TableKind::Messages => 6,
            TableKind::OldFuelBlockConsensus => 7,
            TableKind::OldFuelBlocks => 8,
            TableKind::OldTransactions => 9,
            TableKind::OwnedTransactions => 10,
            TableKind::ProcessedTransactions => 11,
            TableKind::SealedBlockConsensus => 12,
            TableKind::SpentMessages => 13,
            TableKind::TransactionStatuses => 14,
            TableKind::Transactions => 15,
        }
    }

    /// The table at a place in the starting order, if there is one.
    pub fn from_index(index: usize) -> (table: Option<TableKind>)
        ensures
            index < TABLE_COUNT ==> table == Some(TableKind::at(index as int)),
            index >= TABLE_COUNT ==> table is None,
    {
        match index {
            0 => Some(TableKind::Coins),
            1 => Some(TableKind::ContractsAssets),
            2 => Some(TableKind::ContractsLatestUtxo),
            3 => Some(TableKind::ContractsRawCode),
            4 => Some(TableKind::ContractsState),
            5 => Some(TableKind::FuelBlocks),
            6 => Some(TableKind::Messages),
            7 => Some(TableKind::OldFuelBlockConsensus),
            8 => Some(TableKind::OldFuelBlocks),
            9 => Some(TableKind::OldTransactions),
            10 => Some(TableKind::OwnedTransactions),
            11 => Some(TableKind::ProcessedTransactions),
            12 => Some(TableKind::SealedBlockConsensus),
            13 => Some(TableKind::SpentMessages),
            14 => Some(TableKind::TransactionStatuses),
            15 => Some(TableKind::Transactions),
            _ => None,
        }
    }

    /// The store that receives the table's entries.
    pub fn domain(&self) -> (domain: StorageDomain)
        ensures
            domain == self.spec_domain(),
    {
        match self {
            TableKind::Coins
            | TableKind::ContractsAssets
            | TableKind::ContractsLatestUtxo
            | TableKind::ContractsRawCode
            | TableKind::ContractsState
            | TableKind::FuelBlocks
            | TableKind::Messages
            | TableKind::ProcessedTransactions
            | TableKind::SealedBlockConsensus
            | TableKind::Transactions => StorageDomain::OnChain,
            TableKind::OldFuelBlockConsensus
            | TableKind::OldFuelBlocks
            | TableKind::OldTransactions
            | TableKind::OwnedTransactions
            | TableKind::SpentMessages
            | TableKind::TransactionStatuses => StorageDomain::OffChain,
        }
    }

    /// The column that receives the table's entries.
    pub fn column(&self) -> (column: Column)
        ensures
            column == self.spec_column(),
    {
        match self {
            TableKind::Coins => Column::Coins,
            TableKind::ContractsAssets => Column::ContractsAssets,
            TableKind::ContractsLatestUtxo => Column::ContractsLatestUtxo,
            TableKind::ContractsRawCode => Column::ContractsRawCode,
            TableKind::ContractsState => Column::ContractsState,
            TableKind::FuelBlocks => Column::FuelBlocks,
            TableKind::Messages => Column::Messages,
            TableKind::OldFuelBlockConsensus => Column::OldFuelBlockConsensus,
            TableKind::OldFuelBlocks => Column::OldFuelBlocks,
            TableKind::OldTransactions => Column::OldTransactions,
            TableKind::OwnedTransactions => Column::OwnedTransactions,
            TableKind::ProcessedTransactions => Column::ProcessedTransactions,
            TableKind::SealedBlockConsensus => Column::SealedBlockConsensus,
            TableKind::SpentMessages => Column::SpentMessages,
            TableKind::TransactionStatuses => Column::TransactionStatuses,
            TableKind::Transactions => Column::Transactions,
        }
    }
}

/// Every table has its own place in the starting order, and the places are
/// the numbers below the table count.
pub proof fn lemma_ordinal_is_place(table: TableKind)
    ensures
        0 <= table.ordinal() < TABLE_COUNT,
        TableKind::at(table.ordinal()) == table,
{
}

/// Every place in the starting order has its table.
pub proof fn lemma_place_is_ordinal(ordinal: int)
    requires
        0 <= ordinal < TABLE_COUNT,
    ensures
        TableKind::at(ordinal).ordinal() == ordinal,
{
}

/// No two tables are written to the same column, so no worker writes where
/// another one does.
pub proof fn lemma_columns_disjoint(a: TableKind, b: TableKind)
    requires
        a != b,
    ensures
        a.spec_column() != b.spec_column(),
{
}

} // verus!
