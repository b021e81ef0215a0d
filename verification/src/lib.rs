//! Streaming construction of binary object packs.
//!
//! The pipeline has three stages, each with a verified contract:
//! graph traversal ([`traverse::count_objects`]) walks an object store from a
//! set of roots and emits one [`count::Count`] per reachable object; entry
//! construction ([`entries::objects_to_entries`]) turns each count into a
//! compressed [`entries::Entry`], choosing a delta representation when it is
//! smaller; serialization ([`ser::entries_to_bytes`]) emits the binary pack:
//! header, entries, and a trailing integrity digest.  An independent reader
//! ([`reader::parse_pack`]) parses such a pack back and checks its digest;
//! reading a serialized pack is proved to undo writing it.

pub mod bytes;
pub mod codec;
pub mod count;
pub mod delta;
pub mod entries;
pub mod ids;
pub mod reader;
pub mod ser;
pub mod store;
pub mod traverse;
pub mod varint;
