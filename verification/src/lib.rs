//! Portfolio snapshot ingestion and valuation.
//!
//! Dated exports of portfolio holdings are windowed, parsed into records,
//! normalized into exact decimal amounts, filtered against the entries already
//! stored, and appended to an append-only portfolio. The latest snapshot is
//! valued as a ranked list of items with their percentage share and a total.

pub mod amount;
pub mod cli;
pub mod date;
pub mod error;
pub mod ingest;
pub mod record;
pub mod resolver;
pub mod store;
pub mod text;
pub mod valuation;
pub mod window;
