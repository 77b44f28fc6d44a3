//! A small single-user inventory and ledger library: clients with balances,
//! products with prices and stock, a checked purchase transaction, and a
//! verified textual snapshot format for persistence.

pub mod codec;
pub mod digits;
pub mod market;
pub mod records;
pub mod snapshot;
pub mod table;
pub mod text;
