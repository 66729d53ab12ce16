//! A verified binary codec for a minimal subset of the Bitcoin transaction
//! wire format: CompactSize variable-width integers, transaction
//! identifiers, out-points, scripts, transaction inputs, and inputs-only
//! transactions.
//!
//! Every entity converts both ways between its in-memory structure and its
//! canonical byte layout through `to_bytes` and `from_bytes`, the latter
//! also returning how many bytes it consumed so that nested decoders can
//! thread a running offset. The exact byte layout, and what each decoder
//! accepts, is stated in the spec functions of [`wire`], and each
//! executable codec is proved against them.

pub mod compact_size;
pub mod errors;
pub mod outpoint;
pub mod script;
pub mod transaction;
pub mod txid;
pub mod wire;

pub use compact_size::CompactSize;
pub use errors::BitcoinError;
pub use outpoint::OutPoint;
pub use script::Script;
pub use transaction::BitcoinTransaction;
pub use transaction::TransactionInput;
pub use txid::Txid;
