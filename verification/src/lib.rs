//! A partitioned, typed key-value layer over an ordered store of byte
//! strings, with the table that records whether a virtual object is locked.
//!
//! - [`varint`], [`fixed`] and [`lex`]: the encodings of numbers and the
//!   order of byte strings that the keys are built on.
//! - [`keys`]: the keys of the tables, whose bytes sort as their fields do.
//! - [`wire`] and [`status`]: the stored form of a status and its meaning.
//! - [`table`], [`storage`] and [`owned_iter`]: the ordered store, the
//!   handles on it, and the rows of a scan as bytes of their own.
//! - [`service_status_table`]: the table itself, and what holds of it.
//! - [`identifiers`] and [`ingress_integration`]: the names of entities and
//!   invocations, and the routing of a request to an entity.

pub mod errors;
pub mod fixed;
pub mod identifiers;
pub mod ingress_integration;
pub mod keys;
pub mod lex;
pub mod owned_iter;
pub mod service_status_table;
pub mod status;
pub mod storage;
pub mod table;
pub mod varint;
pub mod wire;
