use vstd::prelude::*;
use crate::codec::{crc32, crc32_of, deflate, inflate_of};
use crate::count::{Count, EntryKind, Kind};
use crate::delta::{apply_delta_spec, encode_delta};
use crate::ids::ObjectId;
use crate::store::ObjectStore;

verus! {

broadcast use vstd::seq_lib::group_seq_lib_default;

/// The error returned by entry construction.
#[derive(Clone, Copy, Debug)]
pub enum CompressionError {
    /// The codec reported a failure.
    CodecFailure,
}

/// Which object a delta entry is encoded against.
#[derive(Clone, Copy, Debug)]
pub enum DeltaBase {
    /// A base named by identifier.
    Id(ObjectId),
    /// A base this many bytes before the entry in the same pack.
    Offset(u64),
}

/// A count completed with its payload: compressed bytes, an optional delta
/// base, and the payload's checksum.
#[derive(Clone, Debug)]
pub struct Entry {
    /// The hash of the object this entry holds.
    pub id: ObjectId,
    /// The kind of packed object.
    pub object_kind: Kind,
    /// The size in bytes of the object's content once decompressed.
    pub decompressed_size: usize,
    /// How the payload represents the object.
    pub entry_kind: EntryKind,
    /// The delta base, present exactly for delta entries.
    pub delta_base: Option<DeltaBase>,
    /// The compressed payload: the full content, or a delta, compressed.
    pub compressed_payload: Vec<u8>,
    /// The CRC-32 checksum of `compressed_payload`.
    pub crc32: u32,
}

/// What holds of the entry built from `counts[i]`: identifiers, kind and size
/// match the count; the checksum covers the payload; a base or copied entry's
/// payload decompresses to the object's content; a delta entry names an
/// earlier count as base, and its decompressed delta turns that base's
/// content into this object's content.
pub open spec fn entry_ok(store: ObjectStore, counts: Seq<Count>, i: int, e: Entry) -> bool {
    &&& e.id@ == counts[i].id@
    &&& e.object_kind == counts[i].object_kind
    &&& e.decompressed_size == counts[i].decompressed_size
    &&& e.crc32 == crc32_of(e.compressed_payload@)
    &&& match e.entry_kind {
        EntryKind::Base => e.delta_base is None && inflate_of(e.compressed_payload@)
            == Some(store.data_of(e.id@)),
        EntryKind::CopyFromExistingPack => e.delta_base is None && inflate_of(
            e.compressed_payload@,
        ) == Some(store.data_of(e.id@)),
        EntryKind::DeltaOid => e.delta_base matches Some(DeltaBase::Id(b)) && (exists|j: int|
            0 <= j < i && (#[trigger] counts[j]).id@ == b@) && (match inflate_of(
            e.compressed_payload@,
        ) {
            Some(d) => apply_delta_spec(store.data_of(b@), d) == Some(store.data_of(e.id@)),
            None => false,
        }),
        EntryKind::DeltaOffset => false,
    }
}

/// Turns each count into exactly one entry, in input order.
///
/// A count with a recorded pack location has its compressed bytes copied
/// verbatim once their checksum is revalidated.  Otherwise the object's
/// content is fetched and compressed whole; a delta against the most recent
/// count of the same kind inside the window is tried too, and kept only when
/// it compresses strictly smaller.  Construction always succeeds: the one
/// step that could fail, compression, writes into memory and cannot.
#[verifier::rlimit(100)]
pub fn objects_to_entries(
    store: &ObjectStore,
    counts: &Vec<Count>,
    compression_level: u32,
    delta_window_size: usize,
) -> (r: Result<Vec<Entry>, CompressionError>)
    requires
        store.wf(),
        compression_level <= 9,
        forall|i: int| 0 <= i < counts@.len() ==> store.count_matches(#[trigger] counts@[i]),
    ensures
        r is Ok,
        r matches Ok(entries) ==> entries@.len() == counts@.len() && (forall|i: int|
            0 <= i < entries@.len() ==> entry_ok(*store, counts@, i, #[trigger] entries@[i])),
{
    let mut entries: Vec<Entry> = Vec::new();
    let mut i: usize = 0;
    while i < counts.len()
        invariant
            store.wf(),
            compression_level <= 9,
            forall|k: int| 0 <= k < counts@.len() ==> store.count_matches(#[trigger] counts@[k]),
            0 <= i <= counts@.len(),
            entries@.len() == i,
            forall|k: int| 0 <= k < i ==> entry_ok(*store, counts@, k, #[trigger] entries@[k]),
        decreases counts@.len() - i,
    {
        let c = &counts[i];
        proof {
            assert(store.count_matches(counts@[i as int]));
        }
        let e: Entry;
        if c.entry_pack_location.is_some() {
            match store.packed_copy(&c.id) {
                Some(p) => {
                    let actual = crc32(&p.bytes);
                    if actual == p.crc32 {
                        let mut payload: Vec<u8> = Vec::new();
                        crate::bytes::extend_bytes(&mut payload, &p.bytes);
                        proof {
                            assert(payload@ =~= p.bytes@);
                        }
                        e = Entry {
                            id: c.id,
                            object_kind: c.object_kind,
                            decompressed_size: c.decompressed_size,
                            entry_kind: EntryKind::CopyFromExistingPack,
                            delta_base: None,
                            compressed_payload: payload,
                            crc32: actual,
                        };
                    } else {
                        proof {
                            assert(false);
                        }
                        return Err(CompressionError::CodecFailure);
                    }
                },
                None => {
                    proof {
                        assert(false);
                    }
                    return Err(CompressionError::CodecFailure);
                },
            }
        } else {
            let data = match store.lookup(&c.id) {
                Some(o) => o,
                None => {
                    proof {
                        assert(false);
                    }
                    return Err(CompressionError::CodecFailure);
                },
            };
            let full = deflate(&data.data, compression_level);
            let start: usize = if delta_window_size > i {
                0
            } else {
                i - delta_window_size
            };
            let mut cand: usize = i;
            let mut j: usize = start;
            while j < i
                invariant
                    start <= j <= i < counts@.len(),
                    cand == i || (start <= cand < i && counts@[cand as int].object_kind
                        == counts@[i as int].object_kind),
                decreases i - j,
            {
                if counts[j].object_kind == counts[i].object_kind {
                    cand = j;
                }
                j = j + 1;
            }
            if cand < i {
                let bc = &counts[cand];
                proof {
                    assert(store.count_matches(counts@[cand as int]));
                }
                let bdata = match store.lookup(&bc.id) {
                    Some(o) => o,
                    None => {
                        proof {
                            assert(false);
                        }
                        return Err(CompressionError::CodecFailure);
                    },
                };
                let dbytes = encode_delta(&bdata.data, &data.data);
                let zd = deflate(&dbytes, compression_level);
                if zd.len() < full.len() {
                    let crcv = crc32(&zd);
                    e = Entry {
                        id: c.id,
                        object_kind: c.object_kind,
                        decompressed_size: c.decompressed_size,
                        entry_kind: EntryKind::DeltaOid,
                        delta_base: Some(DeltaBase::Id(bc.id)),
                        compressed_payload: zd,
                        crc32: crcv,
                    };
                    proof {
                        assert(0 <= cand < i && counts@[cand as int].id@ == bc.id@);
                        assert(apply_delta_spec(store.data_of(bc.id@), dbytes@) == Some(
                            store.data_of(c.id@),
                        ));
                        assert(entry_ok(*store, counts@, i as int, e));
                    }
                } else {
                    let crcv = crc32(&full);
                    e = Entry {
                        id: c.id,
                        object_kind: c.object_kind,
                        decompressed_size: c.decompressed_size,
                        entry_kind: EntryKind::Base,
                        delta_base: None,
                        compressed_payload: full,
                        crc32: crcv,
                    };
                }
            } else {
                let crcv = crc32(&full);
                e = Entry {
                    id: c.id,
                    object_kind: c.object_kind,
                    decompressed_size: c.decompressed_size,
                    entry_kind: EntryKind::Base,
                    delta_base: None,
                    compressed_payload: full,
                    crc32: crcv,
                };
            }
        }
        let ghost ents0 = entries@;
        entries.push(e);
        proof {
            assert(entry_ok(*store, counts@, i as int, e));
            assert forall|k: int| 0 <= k < i + 1 implies entry_ok(
                *store,
                counts@,
                k,
                #[trigger] entries@[k],
            ) by {
                if k < i {
                    assert(entries@[k] == ents0[k]);
                } else {
                    assert(entries@[k] == e);
                }
            }
        }
        i = i + 1;
    }
    Ok(entries)
}

} // verus!
