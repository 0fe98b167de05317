//! Tooling for a binary resource-container format ("RDB"): a deterministic
//! string-to-identifier hash, a byte-exact little-endian codec for the
//! container's header and entry records, and a patch engine that switches
//! entries from inline to external payload storage.

pub mod flags;
pub mod hex;
pub mod ktid;
pub mod patch;
pub mod rdb;
pub mod typeinfo;
pub mod wire;

pub use ktid::ktid;
pub use ktid::ktid_hash;
pub use ktid::KTID;
