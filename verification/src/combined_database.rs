//! The two stores of a node, side by side.

use crate::database::Database;
use crate::genesis::table::{StorageDomain, TableKind};
use vstd::prelude::*;

verus! {

/// The on-chain and the off-chain store. The two are independent: a write to
/// one leaves the other as it was.
pub struct CombinedDatabase {
    pub on_chain: Database,
    pub off_chain: Database,
}

impl CombinedDatabase {
    /// The store of a domain.
    pub open spec fn store(self, domain: StorageDomain) -> Database {
        match domain {
            StorageDomain::OnChain => self.on_chain,
            StorageDomain::OffChain => self.off_chain,
        }
    }

    /// What the stores hold of a snapshot table.
    pub open spec fn content(self, table: TableKind) -> Map<Seq<u8>, Seq<u8>> {
        self.store(table.spec_domain()).table(table.spec_column())
    }

    /// Puts two stores side by side.
    pub fn new(on_chain: Database, off_chain: Database) -> (combined: CombinedDatabase)
        ensures
            combined.on_chain == on_chain,
            combined.off_chain == off_chain,
    {
        CombinedDatabase { on_chain, off_chain }
    }

    /// The on-chain store.
    pub fn on_chain(&self) -> (store: &Database)
        ensures
            *store == self.on_chain,
    {
        &self.on_chain
    }

    /// The off-chain store.
    pub fn off_chain(&self) -> (store: &Database)
        ensures
            *store == self.off_chain,
    {
        &self.off_chain
    }
}

} // verus!
