//! Verified core of two rent-management contracts: an append-only, per-deal
//! receipt log that is read page by page through cursors, and a pausable
//! wallet of balances.
//!
//! The contracts are modelled as values: [`rent_payments::RentPayments`] and
//! [`rent_wallet::RentWallet`] hold what the contracts store, and their
//! methods are the contracts' entry points. Whatever the ledger supplies
//! (the time, the party that authorised a call) is a parameter.
//!
//! Pagination is built from small parts: the byte order of identifiers
//! ([`order`]), positions and their wire form ([`cursor`], [`wire`]), the
//! canonical order of a set of receipts ([`canonical`], [`sort`]), the page
//! itself ([`pagination`]) and what a caller sees who reads page after page
//! ([`walk`]).

pub mod address;
pub mod order;
pub mod wire;
pub mod cursor;
pub mod receipt;
pub mod error;
pub mod canonical;
pub mod sort;
pub mod pagination;
pub mod walk;
pub mod tx_id;
pub mod rent_payments;
pub mod rent_wallet;
