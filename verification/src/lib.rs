//! A minimal UTXO ledger: a set of spendable outputs, a validator that decides
//! whether a spend transaction is admissible, a state-transition engine that
//! applies it atomically, and a reward finalizer that splits the accumulated
//! fees across the block authorities.

pub mod crypto;
pub mod encoding;
pub mod laws;
pub mod ledger;
pub mod store;
pub mod types;
pub mod validate;
