//! Topic matching for publish/subscribe and access control.
//!
//! Subscribers register patterns built from segments, which may hold
//! wildcards, single-segment placeholders, numeric formulas and regular
//! expressions; a query with a concrete topic returns every client whose
//! pattern matches it.
pub mod aclmap;
pub mod bcast;
pub mod broadcastmap;
pub mod client;
pub mod mkmf;
pub mod rule;
pub mod rx;
pub mod segments;
pub mod submap;
pub mod trie;

pub use crate::aclmap::AclMap;
pub use crate::broadcastmap::BroadcastMap;
pub use crate::client::Client;
pub use crate::mkmf::{Error, Formula};
pub use crate::submap::SubMap;
