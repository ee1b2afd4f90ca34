//! A value-mixing ledger: deposits against secret commitments, one-time
//! withdrawals guarded by nullifiers and chained-hash proofs, and batch routing
//! of value through derived single-use intermediate accounts.
pub mod instructions;
pub mod routing;
pub mod state;
pub mod utils;
