use vstd::prelude::*;
use crate::ids::ObjectId;

verus! {

/// The kind of an object in the store.
#[derive(Clone, Copy, Debug, Hash, PartialEq, Eq, Structural)]
pub enum Kind {
    Commit,
    Tree,
    Blob,
    Tag,
}

/// How an entry's payload represents its object.
#[derive(Clone, Copy, Debug, Hash, PartialEq, Eq, Structural)]
pub enum EntryKind {
    /// The full object, compressed.
    Base,
    /// A delta against another object named by identifier.
    DeltaOid,
    /// A delta against an object at an earlier byte position in this pack.
    DeltaOffset,
    /// Compressed bytes copied verbatim from an existing pack.
    CopyFromExistingPack,
}

/// A non-owning reference to an entry inside an existing pack.
#[derive(Clone, Copy, Debug, Hash, PartialEq, Eq, Structural)]
pub struct PackLocation {
    pub pack_id: u64,
    pub pack_offset: u64,
}

/// An item representing a future entry in the leanest way possible.
///
/// One of these exists per object destined for the pack, so it holds only what
/// entry construction needs.
#[derive(Clone, Debug, PartialEq, Eq, Hash)]
pub struct Count {
    /// The hash of the object to write.
    pub id: ObjectId,
    /// The kind of packed object.
    pub object_kind: Kind,
    /// The size in bytes of the object's content once decompressed.
    pub decompressed_size: usize,
    /// The kind of entry this count will become.
    pub entry_kind: EntryKind,
    /// Where reusable compressed bytes for this object already sit, if anywhere.
    pub entry_pack_location: Option<PackLocation>,
}

/// The error returned by [`Count::from_data`].
#[derive(Clone, Copy, Debug)]
pub enum Error {
    ZlibDeflate,
}

/// An object's decompressed content together with the identifiers it references.
#[derive(Clone, Debug)]
pub struct Object {
    /// The kind of the object.
    pub kind: Kind,
    /// The decompressed content bytes.
    pub data: Vec<u8>,
    /// Identifiers of the objects this one references: a commit names its
    /// parents and its tree, a tree its subtrees and blobs, a tag its target.
    pub refs: Vec<ObjectId>,
}

impl Count {
    /// Create a new instance from the given `oid` and its corresponding object data.
    pub fn from_data(oid: ObjectId, obj: &Object) -> (r: Result<Count, Error>)
        ensures
            r matches Ok(c) && c.id@ == oid@ && c.object_kind == obj.kind
                && c.decompressed_size == obj.data@.len()
                && c.entry_kind == EntryKind::Base
                && c.entry_pack_location is None,
    {
        Ok(Count {
            id: oid,
            object_kind: obj.kind,
            entry_kind: EntryKind::Base,
            decompressed_size: obj.data.len(),
            entry_pack_location: None,
        })
    }
}

} // verus!
