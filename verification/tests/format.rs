use pack_output::count::{Kind, Object};
use pack_output::delta::{apply_delta, encode_delta};
use pack_output::entries::objects_to_entries;
use pack_output::ids::ObjectId;
use pack_output::reader::parse_pack;
use pack_output::ser::entries_to_bytes;
use pack_output::store::ObjectStore;
use pack_output::traverse::count_objects;
use pack_output::varint::{read_varint, write_varint};

fn oid(n: u8) -> ObjectId {
    ObjectId::from_bytes([n; 20])
}

fn sample_pack() -> (Vec<u8>, Vec<ObjectId>, Vec<usize>) {
    let mut store = ObjectStore::new();
    let a = oid(10);
    let b = oid(11);
    assert!(store.insert(a, Object { kind: Kind::Blob, data: vec![1u8; 30], refs: vec![] }));
    assert!(
        store.insert(b, Object { kind: Kind::Tree, data: vec![2u8; 44], refs: vec![a] })
    );
    let counts = count_objects(&store, &vec![b], false).unwrap();
    let entries = objects_to_entries(&store, &counts, 6, 16).unwrap();
    let ids: Vec<ObjectId> = entries.iter().map(|e| e.id).collect();
    let sizes: Vec<usize> = entries.iter().map(|e| e.decompressed_size).collect();
    let bytes = entries_to_bytes(&entries, 2, 2).unwrap();
    (bytes, ids, sizes)
}

#[test]
fn varint_round_trips() {
    for &n in &[0u64, 1, 127, 128, 129, 300, 16383, 16384, 1 << 32, u64::MAX] {
        let mut out = Vec::new();
        write_varint(&mut out, n);
        let (v, p) = read_varint(&out, 0).unwrap();
        assert_eq!(v, n);
        assert_eq!(p, out.len());
    }
    assert_eq!(read_varint(&vec![0x83u8, 0x01], 0).unwrap().0, 131);
    // a number that ends mid-byte-run cannot be read
    assert!(read_varint(&vec![0x80u8], 0).is_none());
}

#[test]
fn delta_round_trips_on_small_values() {
    let base = vec![1u8, 2, 3, 4, 5];
    let target = vec![1u8, 2, 3, 9, 9, 9];
    let d = encode_delta(&base, &target);
    assert_eq!(apply_delta(&base, &d).unwrap(), target);

    let empty: Vec<u8> = Vec::new();
    let d2 = encode_delta(&empty, &target);
    assert_eq!(apply_delta(&empty, &d2).unwrap(), target);
    let d3 = encode_delta(&base, &empty);
    assert_eq!(apply_delta(&base, &d3).unwrap(), empty);
}

#[test]
fn malformed_delta_is_rejected() {
    let base = vec![1u8, 2, 3];
    // unknown instruction tag
    assert!(apply_delta(&base, &vec![7u8]).is_none());
    // copy that reads past the base
    let mut d = Vec::new();
    d.push(1u8);
    write_varint(&mut d, 0);
    write_varint(&mut d, 99);
    assert!(apply_delta(&base, &d).is_none());
}

#[test]
fn reader_recovers_count_ids_and_sizes() {
    let (bytes, ids, sizes) = sample_pack();
    let (version, declared, parsed) = parse_pack(&bytes).unwrap();
    assert_eq!(version, 2);
    assert_eq!(declared, 2);
    assert_eq!(parsed.len(), 2);
    for i in 0..2 {
        assert!(parsed[i].id == ids[i]);
        assert_eq!(parsed[i].decompressed_size as usize, sizes[i]);
    }
}

#[test]
fn reader_rejects_bad_magic() {
    let (mut bytes, _, _) = sample_pack();
    bytes[0] = b'Q';
    assert!(parse_pack(&bytes).is_none());
}

#[test]
fn reader_rejects_corrupted_body() {
    let (mut bytes, _, _) = sample_pack();
    let mid = bytes.len() / 2;
    bytes[mid] = bytes[mid].wrapping_add(1);
    assert!(parse_pack(&bytes).is_none());
}

#[test]
fn reader_rejects_truncated_pack() {
    let (bytes, _, _) = sample_pack();
    let cut = bytes[..bytes.len() - 1].to_vec();
    assert!(parse_pack(&cut).is_none());
    assert!(parse_pack(&vec![1u8, 2, 3]).is_none());
}

#[test]
fn empty_pack_round_trips() {
    let entries = Vec::new();
    let bytes = entries_to_bytes(&entries, 0, 2).unwrap();
    assert_eq!(bytes.len(), 32);
    let (version, declared, parsed) = parse_pack(&bytes).unwrap();
    assert_eq!(version, 2);
    assert_eq!(declared, 0);
    assert!(parsed.is_empty());
}
