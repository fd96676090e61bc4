//! Verified core of a ledger node's start-up path: the genesis snapshot
//! import pipeline, the column-scoped storage it writes into, and the
//! execution gas price updater.

pub mod codec;
pub mod combined_database;
pub mod database;
pub mod gas_price;
pub mod gas_price_metadata;
pub mod genesis;
pub mod key_order;
