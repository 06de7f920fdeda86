//! An index of a block chain by script fingerprint, kept in step with a full
//! node, with the answers it gives about a script: its history, its unspent
//! outputs, its transactions.
//!
//! The parts, from the ground up:
//!
//! - [`hash`], [`encoding`], [`script`]: 256-bit identifiers, their text, and
//!   the fingerprint of a script.
//! - [`model`]: blocks and transactions as the index reads them.
//! - [`rows`], [`codec`], [`store`]: the keys and rows of the index, their
//!   bytes, and the ordered store that holds them.
//! - [`index`]: the rows that a block gives, and taking them back.
//! - [`bulk`]: indexing a chain in chunks, computed in any order and written
//!   in order.
//! - [`chain`]: following the node's best chain, through reorganisations.
//! - [`mempool`]: the mirror of the node's unconfirmed transactions.
//! - [`cache`], [`query`]: the transaction cache, and the answers.
//! - [`daemon`]: the credential for the node, and what to do when a call fails.
//! - [`config`]: the settings, with their defaults by network.
//! - [`engine`]: all of it as one value.
//!
//! Every function is verified against its contract. What is taken on trust
//! is the behaviour of the calls into other crates; each such call stands in
//! a function of its own that says what it relies on.

pub mod bulk;
pub mod cache;
pub mod chain;
pub mod codec;
pub mod config;
pub mod daemon;
pub mod encoding;
pub mod engine;
pub mod hash;
pub mod index;
pub mod mempool;
pub mod model;
pub mod query;
pub mod rows;
pub mod script;
pub mod store;
