//! A single-pass payments ledger: deposits, withdrawals and the
//! dispute/resolve/chargeback lifecycle, folded into per-client accounts.
//!
//! The crate is split like the data flow: [`parser`] decodes comma-separated
//! rows and classifies them into indexed lookup structures, and
//! [`transactions_processor`] replays each client's history over those
//! structures to produce one [`types::Account`] per client.

pub mod parser;
pub mod transactions_processor;
pub mod types;
