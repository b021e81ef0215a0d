use vstd::prelude::*;
use crate::codec::{crc32_of, inflate_of};
use crate::count::{Count, EntryKind, Kind, Object, PackLocation};
use crate::ids::ObjectId;

verus! {

/// Compressed bytes for an object that already sit in an existing pack,
/// reusable verbatim together with their checksum.
#[derive(Clone, Debug)]
pub struct PackedCopy {
    /// Where the bytes sit.
    pub location: PackLocation,
    /// The compressed bytes themselves.
    pub bytes: Vec<u8>,
    /// The CRC-32 checksum of `bytes`.
    pub crc32: u32,
}

/// One object as the store holds it.
#[derive(Clone, Debug)]
pub struct StoredObject {
    /// The object's identifier.
    pub id: ObjectId,
    /// Its decompressed content and references.
    pub obj: Object,
    /// Reusable compressed bytes in an existing pack, if known.
    pub packed: Option<PackedCopy>,
}

/// An in-memory object database: the collaborator the pipeline reads from.
///
/// Each identifier occurs at most once, and any recorded packed copy really
/// decompresses to the object's content with a matching checksum.
pub struct ObjectStore {
    objects: Vec<StoredObject>,
}

impl ObjectStore {
    /// The identifiers the store holds, in insertion order.
    pub closed spec fn ids(&self) -> Seq<Seq<u8>> {
        self.objects@.map_values(|o: StoredObject| o.id@)
    }

    /// Whether the store holds an object named `id`.
    pub open spec fn has(&self, id: Seq<u8>) -> bool {
        self.ids().contains(id)
    }

    closed spec fn index_of(&self, id: Seq<u8>) -> int {
        choose|i: int| 0 <= i < self.objects@.len() && self.objects@[i].id@ == id
    }

    closed spec fn rec(&self, id: Seq<u8>) -> StoredObject {
        self.objects@[self.index_of(id)]
    }

    /// The kind of the object named `id` (meaningful only when `has(id)`).
    pub closed spec fn kind_of(&self, id: Seq<u8>) -> Kind {
        self.rec(id).obj.kind
    }

    /// The decompressed content of the object named `id`.
    pub closed spec fn data_of(&self, id: Seq<u8>) -> Seq<u8> {
        self.rec(id).obj.data@
    }

    /// The identifiers the object named `id` references.
    pub closed spec fn refs_of(&self, id: Seq<u8>) -> Seq<Seq<u8>> {
        self.rec(id).obj.refs@.map_values(|r: ObjectId| r@)
    }

    /// The packed copy recorded for the object named `id`, if any.
    pub closed spec fn packed_of(&self, id: Seq<u8>) -> Option<PackedCopy> {
        self.rec(id).packed
    }

    /// The pack location recorded for the object named `id`, if any.
    pub open spec fn packed_loc_of(&self, id: Seq<u8>) -> Option<PackLocation> {
        match self.packed_of(id) {
            Option::Some(p) => Option::Some(p.location),
            Option::None => Option::None,
        }
    }

    closed spec fn stored_wf(o: StoredObject) -> bool {
        match o.packed {
            Option::Some(p) => inflate_of(p.bytes@) == Option::Some(o.obj.data@)
                && p.crc32 == crc32_of(p.bytes@),
            Option::None => true,
        }
    }

    /// Well-formedness: identifiers are unique, and every recorded packed copy
    /// decompresses to its object's content with a matching checksum.
    pub closed spec fn wf(&self) -> bool {
        &&& forall|i: int, j: int|
            0 <= i < j < self.ids().len() ==> self.ids()[i] != self.ids()[j]
        &&& forall|i: int|
            0 <= i < self.objects@.len() ==> Self::stored_wf(#[trigger] self.objects@[i])
    }

    proof fn lemma_index_of(&self, id: Seq<u8>)
        requires
            self.wf(),
            self.has(id),
        ensures
            0 <= self.index_of(id) < self.objects@.len(),
            self.objects@[self.index_of(id)].id@ == id,
            forall|i: int|
                0 <= i < self.objects@.len() && (#[trigger] self.objects@[i]).id@ == id
                    ==> i == self.index_of(id),
    {
        let k = choose|i: int| 0 <= i < self.ids().len() && self.ids()[i] == id;
        assert(self.objects@[k].id@ == id);
        assert(0 <= self.index_of(id) < self.objects@.len() && self.objects@[self.index_of(
            id,
        )].id@ == id);
        assert forall|i: int|
            0 <= i < self.objects@.len() && (#[trigger] self.objects@[i]).id@ == id implies i
            == self.index_of(id) by {
            let j = self.index_of(id);
            if i != j {
                assert(self.ids()[i] == id && self.ids()[j] == id);
            }
        }
    }

    /// An empty store.
    pub fn new() -> (r: ObjectStore)
        ensures
            r.wf(),
            forall|x: Seq<u8>| !r.has(x),
    {
        let r = ObjectStore { objects: Vec::new() };
        proof {
            assert(r.ids().len() == 0);
        }
        r
    }

    /// Adds an object under `id`; refuses a duplicate identifier.
    pub fn insert(&mut self, id: ObjectId, obj: Object) -> (r: bool)
        requires
            old(self).wf(),
        ensures
            final(self).wf(),
            r == !old(self).has(id@),
            final(self).has(id@),
            !r ==> *final(self) == *old(self),
            r ==> final(self).kind_of(id@) == obj.kind && final(self).data_of(id@) == obj.data@
                && final(self).refs_of(id@) == obj.refs@.map_values(|x: ObjectId| x@)
                && final(self).packed_of(id@) is None,
            forall|x: Seq<u8>| #[trigger]
                final(self).has(x) == (old(self).has(x) || x == id@),
            forall|x: Seq<u8>|
                old(self).has(x) ==> final(self).kind_of(x) == old(self).kind_of(x)
                    && final(self).data_of(x) == old(self).data_of(x) && final(self).refs_of(x)
                    == old(self).refs_of(x) && final(self).packed_of(x) == old(self).packed_of(x),
    {
        self.insert_stored(StoredObject { id, obj, packed: None })
    }

    /// Adds an object under `id` together with a reusable packed copy, after
    /// checking that the copy decompresses to `obj`'s content and that its
    /// checksum matches; refuses the object otherwise, or on a duplicate.
    pub fn insert_packed(
        &mut self,
        id: ObjectId,
        obj: Object,
        location: PackLocation,
        bytes: Vec<u8>,
        crc: u32,
    ) -> (r: bool)
        requires
            old(self).wf(),
        ensures
            final(self).wf(),
            r == (!old(self).has(id@) && inflate_of(bytes@) == Some(obj.data@) && crc == crc32_of(
                bytes@,
            )),
            r ==> final(self).has(id@) && final(self).kind_of(id@) == obj.kind
                && final(self).data_of(id@) == obj.data@
                && final(self).refs_of(id@) == obj.refs@.map_values(|x: ObjectId| x@)
                && (final(self).packed_loc_of(id@) matches Some(l) && l == location),
            !r ==> *final(self) == *old(self),
            forall|x: Seq<u8>| #[trigger]
                final(self).has(x) == (old(self).has(x) || (r && x == id@)),
            forall|x: Seq<u8>|
                old(self).has(x) ==> final(self).kind_of(x) == old(self).kind_of(x)
                    && final(self).data_of(x) == old(self).data_of(x) && final(self).refs_of(x)
                    == old(self).refs_of(x) && final(self).packed_of(x) == old(self).packed_of(x),
    {
        if self.contains(&id) {
            return false;
        }
        let inflated = crate::codec::inflate(&bytes);
        let ok = match &inflated {
            Some(v) => crate::bytes::bytes_eq(v, &obj.data),
            None => false,
        };
        if !ok {
            return false;
        }
        let actual = crate::codec::crc32(&bytes);
        if actual != crc {
            return false;
        }
        self.insert_stored(
            StoredObject { id, obj, packed: Some(PackedCopy { location, bytes, crc32: crc }) },
        )
    }

    fn insert_stored(&mut self, stored: StoredObject) -> (r: bool)
        requires
            old(self).wf(),
            Self::stored_wf(stored),
        ensures
            final(self).wf(),
            r == !old(self).has(stored.id@),
            final(self).has(stored.id@),
            r ==> final(self).kind_of(stored.id@) == stored.obj.kind && final(self).data_of(
                stored.id@,
            ) == stored.obj.data@ && final(self).refs_of(stored.id@)
                == stored.obj.refs@.map_values(|x: ObjectId| x@) && final(self).packed_of(
                stored.id@,
            ) == stored.packed,
            !r ==> *final(self) == *old(self),
            forall|x: Seq<u8>| #[trigger]
                final(self).has(x) == (old(self).has(x) || x == stored.id@),
            forall|x: Seq<u8>|
                old(self).has(x) ==> final(self).kind_of(x) == old(self).kind_of(x)
                    && final(self).data_of(x) == old(self).data_of(x) && final(self).refs_of(x)
                    == old(self).refs_of(x) && final(self).packed_of(x) == old(self).packed_of(x),
    {
        if self.contains(&stored.id) {
            proof {
                self.lemma_index_of(stored.id@);
            }
            return false;
        }
        let ghost pre = *self;
        let ghost s = stored;
        self.objects.push(stored);
        proof {
            let n = pre.objects@.len() as int;
            assert(self.ids() =~= pre.ids().push(s.id@));
            assert(forall|i: int| 0 <= i < n ==> self.ids()[i] == pre.ids()[i]);
            assert forall|i: int, j: int|
                0 <= i < j < self.ids().len() implies self.ids()[i] != self.ids()[j] by {
                if j < n {
                } else {
                    assert(self.ids()[j] == s.id@);
                    if self.ids()[i] == s.id@ {
                        assert(pre.ids().contains(pre.ids()[i]));
                    }
                }
            }
            assert(self.objects@[n].id@ == s.id@);
            assert(self.ids()[n] == s.id@);
            assert(self.has(s.id@));
            self.lemma_index_of(s.id@);
            assert(self.index_of(s.id@) == n);
            assert(self.rec(s.id@) == s);
            assert forall|x: Seq<u8>| #[trigger]
                self.has(x) == (pre.has(x) || x == s.id@) by {
                if pre.has(x) {
                    let i = choose|i: int| 0 <= i < pre.ids().len() && pre.ids()[i] == x;
                    assert(self.ids()[i] == x);
                }
                if self.has(x) && x != s.id@ {
                    let i = choose|i: int| 0 <= i < self.ids().len() && self.ids()[i] == x;
                    assert(i < n);
                    assert(pre.ids()[i] == x);
                }
            }
            assert forall|x: Seq<u8>| pre.has(x) implies self.kind_of(x) == pre.kind_of(x)
                && self.data_of(x) == pre.data_of(x) && self.refs_of(x) == pre.refs_of(x)
                && self.packed_of(x) == pre.packed_of(x) by {
                pre.lemma_index_of(x);
                let i = pre.index_of(x);
                assert(self.objects@[i] == pre.objects@[i]);
                self.lemma_index_of(x);
                assert(self.index_of(x) == i);
            }
        }
        true
    }

    /// Whether the store holds an object named `id`.
    pub fn contains(&self, id: &ObjectId) -> (r: bool)
        requires
            self.wf(),
        ensures
            r == self.has(id@),
    {
        let mut i: usize = 0;
        while i < self.objects.len()
            invariant
                self.wf(),
                0 <= i <= self.objects@.len(),
                forall|j: int| 0 <= j < i ==> self.ids()[j] != id@,
            decreases self.objects@.len() - i,
        {
            if self.objects[i].id == *id {
                proof {
                    assert(self.ids()[i as int] == id@);
                }
                return true;
            }
            i = i + 1;
        }
        proof {
            if self.has(id@) {
                let j = choose|j: int| 0 <= j < self.ids().len() && self.ids()[j] == id@;
                assert(self.ids()[j] != id@);
            }
        }
        false
    }

    /// Looks the object named `id` up: its kind, content and references.
    pub fn lookup(&self, id: &ObjectId) -> (r: Option<&Object>)
        requires
            self.wf(),
        ensures
            r matches Some(o) ==> self.has(id@) && o.kind == self.kind_of(id@) && o.data@
                == self.data_of(id@) && o.refs@.map_values(|x: ObjectId| x@) == self.refs_of(id@),
            r is None ==> !self.has(id@),
    {
        let mut i: usize = 0;
        while i < self.objects.len()
            invariant
                self.wf(),
                0 <= i <= self.objects@.len(),
                forall|j: int| 0 <= j < i ==> self.ids()[j] != id@,
            decreases self.objects@.len() - i,
        {
            if self.objects[i].id == *id {
                proof {
                    assert(self.ids()[i as int] == id@);
                    self.lemma_index_of(id@);
                }
                return Some(&self.objects[i].obj);
            }
            i = i + 1;
        }
        proof {
            if self.has(id@) {
                let j = choose|j: int| 0 <= j < self.ids().len() && self.ids()[j] == id@;
                assert(self.ids()[j] != id@);
            }
        }
        None
    }

    /// Hands out the reusable packed copy recorded for `id`, if any.
    pub fn packed_copy(&self, id: &ObjectId) -> (r: Option<&PackedCopy>)
        requires
            self.wf(),
        ensures
            r matches Some(p) ==> self.has(id@) && self.packed_of(id@) == Some(*p)
                && inflate_of(p.bytes@) == Some(self.data_of(id@)) && p.crc32 == crc32_of(
                p.bytes@,
            ),
            r is None ==> !self.has(id@) || self.packed_of(id@) is None,
    {
        let mut i: usize = 0;
        while i < self.objects.len()
            invariant
                self.wf(),
                0 <= i <= self.objects@.len(),
                forall|j: int| 0 <= j < i ==> self.ids()[j] != id@,
            decreases self.objects@.len() - i,
        {
            if self.objects[i].id == *id {
                proof {
                    assert(self.ids()[i as int] == id@);
                    self.lemma_index_of(id@);
                    assert(Self::stored_wf(self.objects@[i as int]));
                }
                return match &self.objects[i].packed {
                    Some(p) => Some(p),
                    None => None,
                };
            }
            i = i + 1;
        }
        proof {
            if self.has(id@) {
                let j = choose|j: int| 0 <= j < self.ids().len() && self.ids()[j] == id@;
                assert(self.ids()[j] != id@);
            }
        }
        None
    }

    /// Where the object named `id` already sits in an existing pack, if known.
    pub fn locate(&self, id: &ObjectId) -> (r: Option<PackLocation>)
        requires
            self.wf(),
        ensures
            r == if self.has(id@) {
                self.packed_loc_of(id@)
            } else {
                Option::<PackLocation>::None
            },
    {
        match self.packed_copy(id) {
            Some(p) => Some(p.location),
            None => {
                proof {
                    if self.has(id@) {
                        assert(self.packed_of(id@) is None);
                    }
                }
                None
            },
        }
    }

    /// Whether a count describes the object the store holds under its id:
    /// matching kind, true decompressed size, and the recorded pack location.
    pub open spec fn count_matches(&self, c: Count) -> bool {
        &&& self.has(c.id@)
        &&& c.object_kind == self.kind_of(c.id@)
        &&& c.decompressed_size == self.data_of(c.id@).len()
        &&& c.entry_pack_location == self.packed_loc_of(c.id@)
        &&& c.entry_kind == EntryKind::Base
    }
}

} // verus!
