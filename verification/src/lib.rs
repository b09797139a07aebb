//! An in-memory double-entry ledger: named accounts, dated transactions
//! that move exact multi-currency amounts between them, and an invariant
//! that every stored transaction balances to zero.

pub mod data;
