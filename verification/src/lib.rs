//! A content-addressed version-control library: commits forming a DAG,
//! mutable "perspective" pointers encoded as an append-only versioned log,
//! "context" groupings, an address-indirection (proxy) layer, and a
//! three-way merge engine with deterministic conflict detection.
//!
//! The storage substrate (a content-addressed entry store plus a link
//! index keyed by base address and link type) is modeled explicitly by
//! [`store::Store`], so that every rule of the library is verified against
//! it. Only the externally visible content-address computation calls out
//! to other crates.

pub mod errors;
pub mod num;
pub mod entries;
pub mod store;
pub mod tags;
pub mod log;
pub mod proxy;
pub mod commits;
pub mod merge;
pub mod perspectives;
pub mod laws;
pub mod apps;
