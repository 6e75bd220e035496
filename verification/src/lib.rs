//! Transactional neighbor cache for a layered proximity graph, the canonical
//! edge keys it commits, and the configuration model of the tooling around
//! the database.
//!
//! - [`vector`], [`records`]: vector records and sets of them, keyed by id.
//! - [`edge_key`]: the byte layout of edge keys and its laws.
//! - [`overlay`]: the model of the pending neighbor sets and the laws of
//!   the operations on it.
//! - [`store`]: the store that holds the overlay in memory.
//! - [`txn`]: the write transaction and the plan of a commit.
//! - [`table`], [`config`]: the project configuration.
//! - [`cloud`]: requests and addresses of the cloud service.
//! - [`gateway`]: how gateway threads are spread over cores.
//!
//! Every executable function carries a contract that Verus proves. The laws
//! that relate several functions are public proof functions next to the
//! items they speak of.

pub mod edge_key;
pub mod vector;
pub mod records;
pub mod overlay;
pub mod store;
pub mod txn;
pub mod table;
pub mod config;
pub mod cloud;
pub mod gateway;
