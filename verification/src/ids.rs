use vstd::prelude::*;

verus! {

/// Number of bytes in an object identifier.
pub const ID_LEN: usize = 20;

/// A fixed-size cryptographic hash naming one object's content.
///
/// Identifiers are compared byte for byte; in contracts an identifier is its
/// byte sequence (the view).
#[derive(Clone, Copy, Debug, Hash, Eq)]
pub struct ObjectId {
    pub bytes: [u8; 20],
}

impl View for ObjectId {
    type V = Seq<u8>;

    open spec fn view(&self) -> Seq<u8> {
        self.bytes@
    }
}

impl PartialEq for ObjectId {
    fn eq(&self, other: &ObjectId) -> (r: bool) {
        let mut i: usize = 0;
        while i < 20
            invariant
                0 <= i <= 20,
                forall|j: int| 0 <= j < i ==> self.bytes@[j] == other.bytes@[j],
            decreases 20 - i,
        {
            if self.bytes[i] != other.bytes[i] {
                return false;
            }
            i = i + 1;
        }
        proof {
            assert(self.bytes@ =~= other.bytes@);
        }
        true
    }
}

impl vstd::std_specs::cmp::PartialEqSpecImpl for ObjectId {
    open spec fn obeys_eq_spec() -> bool {
        true
    }

    open spec fn eq_spec(&self, other: &ObjectId) -> bool {
        self.bytes@ == other.bytes@
    }
}

impl ObjectId {
    /// Builds an identifier from its twenty bytes.
    pub fn from_bytes(bytes: [u8; 20]) -> (r: ObjectId)
        ensures
            r@ == bytes@,
    {
        ObjectId { bytes }
    }
}

/// The byte sequences of a sequence of identifiers, in order.
pub open spec fn id_views(s: Seq<ObjectId>) -> Seq<Seq<u8>> {
    s.map_values(|o: ObjectId| o@)
}

/// Whether `v` holds an identifier with `id`'s bytes.
pub fn ids_contain(v: &Vec<ObjectId>, id: &ObjectId) -> (r: bool)
    ensures
        r == id_views(v@).contains(id@),
{
    let mut i: usize = 0;
    while i < v.len()
        invariant
            0 <= i <= v@.len(),
            forall|j: int| 0 <= j < i ==> id_views(v@)[j] != id@,
        decreases v@.len() - i,
    {
        if v[i] == *id {
            proof {
                assert(id_views(v@)[i as int] == id@);
            }
            return true;
        }
        i = i + 1;
    }
    proof {
        if id_views(v@).contains(id@) {
            let j = choose|j: int| 0 <= j < id_views(v@).len() && id_views(v@)[j] == id@;
            assert(id_views(v@)[j] != id@);
        }
    }
    false
}

} // verus!
