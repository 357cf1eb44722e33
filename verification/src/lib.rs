//! Query resolution over an in-memory credential store.
//!
//! The library resolves a query string to a single node (an entry or a
//! group) of a tree of groups and entries, supporting three addressing
//! styles: absolute paths, partial subpaths and bare names.  It also
//! extracts named fields from a resolved entry.  Opening and decrypting a
//! store, and presenting field values, are left to the surrounding
//! application; the library works on an already materialized tree.
#![verifier::loop_isolation(false)]

pub mod output;
pub mod search;
pub mod strutil;
pub mod tree;
