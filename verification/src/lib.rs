//! A multi-version row store with snapshot isolation.
//!
//! Transactions read a fixed snapshot of the store and write new row versions
//! that stay private until commit. The store keeps, for every row identity, a
//! chain of versions ordered by commit time; a visibility rule picks the
//! version a transaction sees. Every operation is specified against an
//! abstract state ([`model::StoreView`]) and the isolation guarantees are
//! proved of that state in [`laws`].

pub mod chain_lemmas;
pub mod clock;
pub mod consistency;
pub mod cursor;
pub mod error;
pub mod laws;
pub mod model;
pub mod preservation;
pub mod row;
pub mod store;
pub mod transaction;
pub mod version;
