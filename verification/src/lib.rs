//! A local mirror of a cloud document store: the synchronization rules that
//! keep the mirror current, the folder graph of each account, and the
//! resolution of short textual specifiers into documents.

pub mod accounts;
pub mod app;
pub mod colors;
pub mod errors;
pub mod folders;
pub mod graph;
pub mod idempotence;
pub mod linkage;
pub mod listing;
pub mod paging;
pub mod pattern;
pub mod records;
pub mod resolve;
pub mod rows;
pub mod scopes;
pub mod snapshots;
pub mod store;
pub mod sync;
