//! A record-management service for a lending catalog: it stores book
//! records under unique, monotonically allocated identifiers and enforces
//! a borrow/return lifecycle with an append-only return history log.

pub mod book;
pub mod error;
pub mod history;
pub mod catalog;
pub mod store;
