use pack_output::count::{Count, EntryKind, Error, Kind, Object, PackLocation};
use pack_output::entries::{objects_to_entries, CompressionError, DeltaBase};
use pack_output::ids::ObjectId;
use pack_output::ser::{entries_to_bytes, SerializationError};
use pack_output::store::ObjectStore;
use pack_output::traverse::{count_objects, GraphTraversalError};
use sha1::Digest;
use std::io::Write;

fn oid(n: u8) -> ObjectId {
    ObjectId::from_bytes([n; 20])
}

fn blob(data: Vec<u8>) -> Object {
    Object { kind: Kind::Blob, data, refs: Vec::new() }
}

fn zlib_compress(data: &[u8]) -> Vec<u8> {
    let mut enc = flate2::write::ZlibEncoder::new(Vec::new(), flate2::Compression::new(6));
    enc.write_all(data).unwrap();
    enc.finish().unwrap()
}

fn zlib_decompress(data: &[u8]) -> Vec<u8> {
    let mut dec = flate2::write::ZlibDecoder::new(Vec::new());
    dec.write_all(data).unwrap();
    dec.finish().unwrap()
}

#[test]
fn from_data_copies_the_object_description() {
    let obj = blob(vec![7u8; 50]);
    let c = Count::from_data(oid(1), &obj).unwrap();
    assert!(c.id == oid(1));
    assert_eq!(c.object_kind, Kind::Blob);
    assert_eq!(c.decompressed_size, 50);
    assert_eq!(c.entry_kind, EntryKind::Base);
    assert!(c.entry_pack_location.is_none());
}

#[test]
fn single_blob_counts_entries_and_pack() {
    let mut store = ObjectStore::new();
    let data = vec![42u8; 50];
    assert!(store.insert(oid(1), blob(data.clone())));

    let counts = count_objects(&store, &vec![oid(1)], false).unwrap();
    assert_eq!(counts.len(), 1);
    assert!(counts[0].id == oid(1));
    assert_eq!(counts[0].object_kind, Kind::Blob);
    assert_eq!(counts[0].decompressed_size, 50);
    assert_eq!(counts[0].entry_kind, EntryKind::Base);

    let entries = objects_to_entries(&store, &counts, 6, 16).unwrap();
    assert_eq!(entries.len(), 1);
    assert!(entries[0].id == oid(1));
    assert_eq!(entries[0].entry_kind, EntryKind::Base);
    assert_eq!(entries[0].decompressed_size, 50);
    // the payload is really compressed: an unchanged payload would decompress
    // to itself only if it were a valid zlib stream of the same bytes
    assert_ne!(entries[0].compressed_payload, data);
    assert_eq!(zlib_decompress(&entries[0].compressed_payload), data);
    assert_eq!(entries[0].crc32, crc32fast::hash(&entries[0].compressed_payload));

    let bytes = entries_to_bytes(&entries, 1, 2).unwrap();
    assert_eq!(&bytes[0..4], b"PACK");
    assert_eq!(&bytes[4..8], &[0, 0, 0, 2]);
    assert_eq!(&bytes[8..12], &[0, 0, 0, 1]);
    // the trailer is the digest of everything before it
    let body = &bytes[..bytes.len() - 20];
    let digest = sha1::Sha1::digest(body);
    assert_eq!(&bytes[bytes.len() - 20..], digest.as_slice());
}

#[test]
fn commit_tree_blob_graph_counts_three() {
    let mut store = ObjectStore::new();
    let b = oid(3);
    let t = oid(2);
    let c = oid(1);
    assert!(store.insert(b, blob(vec![9u8; 10])));
    assert!(store.insert(t, Object { kind: Kind::Tree, data: vec![1, 2, 3], refs: vec![b] }));
    assert!(store.insert(c, Object { kind: Kind::Commit, data: vec![4, 5], refs: vec![t] }));

    let counts = count_objects(&store, &vec![c], false).unwrap();
    assert_eq!(counts.len(), 3);
    for i in 0..counts.len() {
        for j in 0..i {
            assert!(!(counts[i].id == counts[j].id));
        }
    }
}

#[test]
fn missing_referenced_object_aborts_unless_tolerated() {
    // same graph, but the blob is absent from the store
    let mut store = ObjectStore::new();
    let b = oid(3);
    let t = oid(2);
    let c = oid(1);
    assert!(store.insert(t, Object { kind: Kind::Tree, data: vec![1, 2, 3], refs: vec![b] }));
    assert!(store.insert(c, Object { kind: Kind::Commit, data: vec![4, 5], refs: vec![t] }));

    match count_objects(&store, &vec![c], false) {
        Err(GraphTraversalError::ObjectMissing(m)) => assert!(m == b),
        _ => panic!("expected ObjectMissing"),
    }
    let counts = count_objects(&store, &vec![c], true).unwrap();
    assert_eq!(counts.len(), 2);
}

#[test]
fn missing_root_is_reported() {
    let store = ObjectStore::new();
    match count_objects(&store, &vec![oid(5)], false) {
        Err(GraphTraversalError::ObjectMissing(m)) => assert!(m == oid(5)),
        _ => panic!("expected ObjectMissing"),
    }
    let counts = count_objects(&store, &vec![oid(5)], true).unwrap();
    assert_eq!(counts.len(), 0);
}

#[test]
fn appended_blob_becomes_a_delta_and_applies_back() {
    let mut store = ObjectStore::new();
    let mut d1 = Vec::new();
    for i in 0..100u32 {
        d1.push(((i * 37 + 11) % 251) as u8);
    }
    let mut d2 = d1.clone();
    d2.extend_from_slice(&[250, 251, 252, 253, 254]);
    let b1 = oid(1);
    let b2 = oid(2);
    assert!(store.insert(b1, blob(d1.clone())));
    assert!(store.insert(b2, blob(d2.clone())));

    // roots ordered so the walk emits b1 first, putting it in b2's window
    let counts = count_objects(&store, &vec![b2, b1], false).unwrap();
    assert_eq!(counts.len(), 2);
    assert!(counts[0].id == b1);
    assert!(counts[1].id == b2);

    let entries = objects_to_entries(&store, &counts, 6, 16).unwrap();
    assert_eq!(entries.len(), 2);
    assert_eq!(entries[0].entry_kind, EntryKind::Base);
    assert_eq!(entries[1].entry_kind, EntryKind::DeltaOid);
    match entries[1].delta_base {
        Some(DeltaBase::Id(base)) => assert!(base == b1),
        _ => panic!("expected an identifier base"),
    }
    // applying the delta to the base's bytes reproduces the dependent object
    let delta = zlib_decompress(&entries[1].compressed_payload);
    let rebuilt = pack_output::delta::apply_delta(&d1, &delta).unwrap();
    assert_eq!(rebuilt, d2);
}

#[test]
fn packed_copy_is_reused_verbatim() {
    let mut store = ObjectStore::new();
    let data = vec![13u8; 64];
    let packed = zlib_compress(&data);
    let crc = crc32fast::hash(&packed);
    let loc = PackLocation { pack_id: 7, pack_offset: 1234 };
    assert!(store.insert_packed(oid(1), blob(data.clone()), loc, packed.clone(), crc));

    let counts = count_objects(&store, &vec![oid(1)], false).unwrap();
    assert_eq!(counts.len(), 1);
    assert_eq!(counts[0].entry_pack_location, Some(loc));

    let entries = objects_to_entries(&store, &counts, 6, 16).unwrap();
    assert_eq!(entries[0].entry_kind, EntryKind::CopyFromExistingPack);
    assert_eq!(entries[0].compressed_payload, packed);
    assert_eq!(entries[0].crc32, crc);
}

#[test]
fn packed_copy_with_wrong_checksum_is_refused() {
    let mut store = ObjectStore::new();
    let data = vec![13u8; 64];
    let packed = zlib_compress(&data);
    let crc = crc32fast::hash(&packed);
    let loc = PackLocation { pack_id: 7, pack_offset: 1234 };
    assert!(!store.insert_packed(oid(1), blob(data.clone()), loc, packed, crc.wrapping_add(1)));
    // bytes that do not decompress to the content are refused too
    assert!(!store.insert_packed(oid(1), blob(data), loc, vec![1, 2, 3], crc32fast::hash(&[1, 2, 3])));
}

#[test]
fn duplicate_identifier_is_refused() {
    let mut store = ObjectStore::new();
    assert!(store.insert(oid(1), blob(vec![1])));
    assert!(!store.insert(oid(1), blob(vec![2])));
}

#[test]
fn count_mismatch_is_a_serialization_error() {
    let store = ObjectStore::new();
    let counts = count_objects(&store, &Vec::new(), false).unwrap();
    let entries = objects_to_entries(&store, &counts, 6, 16).unwrap();
    match entries_to_bytes(&entries, 2, 2) {
        Err(SerializationError::CountMismatch) => {},
        _ => panic!("expected CountMismatch"),
    }
}

#[test]
fn error_variants_exist() {
    assert!(matches!(Error::ZlibDeflate, Error::ZlibDeflate));
    assert!(matches!(CompressionError::CodecFailure, CompressionError::CodecFailure));
    assert!(matches!(SerializationError::IoFailure, SerializationError::IoFailure));
    assert!(matches!(
        GraphTraversalError::MalformedReference,
        GraphTraversalError::MalformedReference
    ));
}
