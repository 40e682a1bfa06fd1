//! A single-account transaction ledger with exact decimal arithmetic.
//!
//! The account owns an append-only sequence of transactions; balance and
//! statement are always derived from that sequence, never stored separately.

pub mod amount;
pub mod clock;
pub mod ledger;

pub use amount::Amount;
pub use clock::Timestamp;
pub use ledger::BankAccount;
pub use ledger::BankStatement;
pub use ledger::Error;
pub use ledger::StatementLine;
pub use ledger::Transaction;
pub use ledger::TransactionType;
