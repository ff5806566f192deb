//! Verified rules of a namespaced memory server.
//!
//! - `protocol`: the values that clients and server exchange, and their limits.
//! - `auth`, `config`, `router`: who may use the server, and which requests are admitted.
//! - `rows`, `table`: the memory database as a value, and the statements that run on it.
//! - `store`: the operations of a namespace-bound store, each one transaction; `mutations`,
//!   `queries` and `snapshot` say what they give.
//! - `storage`: what a storage engine is asked to do with the outcome.
//! - `mutation_laws`, `reading_laws`, `snapshot_laws`, `export_laws`, `admission_laws`,
//!   `auth_laws`, `config_laws`, `text_laws`: what each operation is for, in the words of `terms`.
//! - `laws`, `sync_laws`, `capacity_laws`, `router_laws`, `history`: what holds across operations.
//! - `text`: strings as sequences of characters.

pub mod admission_laws;
pub mod auth;
pub mod auth_laws;
pub mod capacity_laws;
pub mod config;
pub mod config_laws;
pub mod export_laws;
pub mod history;
pub mod laws;
pub mod mutation_laws;
pub mod mutations;
pub mod protocol;
pub mod queries;
pub mod reading_laws;
pub mod router;
pub mod router_laws;
pub mod rows;
pub mod snapshot;
pub mod snapshot_laws;
pub mod storage;
pub mod store;
pub mod sync_laws;
pub mod table;
pub mod terms;
pub mod text;
pub mod text_laws;
