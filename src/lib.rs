//! A fixed-budget in-memory cache that admits entries through a TinyLFU
//! frequency filter and evicts them with the S3-FIFO policy.
pub mod estimator;
pub mod ledger;
pub mod tinyufo;
