//! Converts decoded Swedish bank-export records into balanced plain-text
//! double-entry ledger postings.
//!
//! The crate holds the conversion core: the row schema ([`swedbank`]), the
//! name-mapping configuration and the row-to-entry engine ([`process`]), the
//! entry data model with its canonical text form ([`ledger`]), and the exact
//! decimal amounts those entries carry ([`amount`]). Reading the CSV bytes,
//! loading a configuration file and writing the output belong to the
//! surrounding program, which hands the core plain, already-decoded values.

pub mod amount;
pub mod ledger;
pub mod process;
pub mod swedbank;
pub mod text;
