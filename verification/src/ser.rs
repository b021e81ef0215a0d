use vstd::prelude::*;
use crate::bytes::extend_bytes;
use crate::codec::{sha1, sha1_of};
use crate::count::Kind;
use crate::entries::{DeltaBase, Entry};
use crate::ids::ObjectId;
use crate::varint::{varint_spec, write_varint};

verus! {

broadcast use vstd::seq_lib::group_seq_lib_default;

/// The error returned by serialization.
#[derive(Clone, Copy, Debug)]
pub enum SerializationError {
    /// Writing the stream failed.
    IoFailure,
    /// The declared entry count does not match the entries handed in.
    CountMismatch,
}

/// The four magic bytes opening every pack.
pub open spec fn magic_bytes() -> Seq<u8> {
    seq![80u8, 65u8, 67u8, 75u8]
}

/// A thirty-two bit number as four big-endian bytes.
pub open spec fn be32(n: u32) -> Seq<u8> {
    seq![
        ((n >> 24u32) & 0xffu32) as u8,
        ((n >> 16u32) & 0xffu32) as u8,
        ((n >> 8u32) & 0xffu32) as u8,
        (n & 0xffu32) as u8,
    ]
}

/// The number four big-endian bytes denote.
pub open spec fn be32_val(b0: u8, b1: u8, b2: u8, b3: u8) -> u32 {
    ((b0 as u32) << 24u32) | ((b1 as u32) << 16u32) | ((b2 as u32) << 8u32) | (b3 as u32)
}

/// Reading four big-endian bytes undoes writing them.
pub proof fn lemma_be32_round_trip(n: u32)
    ensures
        be32_val(be32(n)[0], be32(n)[1], be32(n)[2], be32(n)[3]) == n,
{
    assert((n >> 24u32) & 0xffu32 < 256) by (bit_vector);
    assert((n >> 16u32) & 0xffu32 < 256) by (bit_vector);
    assert((n >> 8u32) & 0xffu32 < 256) by (bit_vector);
    assert(n & 0xffu32 < 256) by (bit_vector);
    let b0: u32 = (n >> 24u32) & 0xffu32;
    let b1: u32 = (n >> 16u32) & 0xffu32;
    let b2: u32 = (n >> 8u32) & 0xffu32;
    let b3: u32 = n & 0xffu32;
    assert((((n >> 24u32) & 0xffu32) << 24u32) | (((n >> 16u32) & 0xffu32) << 16u32) | (((n
        >> 8u32) & 0xffu32) << 8u32) | (n & 0xffu32) == n) by (bit_vector);
    assert((b0 as u8) as u32 == b0);
    assert((b1 as u8) as u32 == b1);
    assert((b2 as u8) as u32 == b2);
    assert((b3 as u8) as u32 == b3);
}

/// The code byte naming an object kind.
pub open spec fn kind_code(k: Kind) -> u8 {
    match k {
        Kind::Commit => 1u8,
        Kind::Tree => 2u8,
        Kind::Blob => 3u8,
        Kind::Tag => 4u8,
    }
}

/// The bytes of an entry's base reference field: a marker byte, then for an
/// identifier base the twenty identifier bytes, for an offset base the
/// offset as a base-128 number.
pub open spec fn base_ref_bytes(b: Option<DeltaBase>) -> Seq<u8> {
    match b {
        None => seq![0u8],
        Some(DeltaBase::Id(oid)) => seq![1u8] + oid@,
        Some(DeltaBase::Offset(off)) => seq![2u8] + varint_spec(off as nat),
    }
}

/// The bytes of one serialized entry: kind code, decompressed size as a
/// base-128 number, the entry's identifier, the base reference field, the
/// payload length as a base-128 number, then the compressed payload.
pub open spec fn entry_bytes(e: Entry) -> Seq<u8> {
    seq![kind_code(e.object_kind)] + varint_spec(e.decompressed_size as nat) + e.id@
        + base_ref_bytes(e.delta_base) + varint_spec(e.compressed_payload@.len())
        + e.compressed_payload@
}

/// The concatenated bytes of a sequence of entries.
pub open spec fn entries_bytes(es: Seq<Entry>) -> Seq<u8>
    decreases es.len(),
{
    if es.len() == 0 {
        Seq::<u8>::empty()
    } else {
        entry_bytes(es[0]) + entries_bytes(es.drop_first())
    }
}

/// Everything before the trailer: magic, version, entry count, entries.
pub open spec fn pack_body(es: Seq<Entry>, version: u32) -> Seq<u8> {
    magic_bytes() + be32(version) + be32(es.len() as u32) + entries_bytes(es)
}

/// The whole pack: the body followed by its twenty-byte digest.
pub open spec fn pack_bytes(es: Seq<Entry>, version: u32) -> Seq<u8> {
    pack_body(es, version) + sha1_of(pack_body(es, version))
}

/// Appending one entry extends the concatenated bytes by that entry's bytes.
pub proof fn lemma_entries_bytes_push(es: Seq<Entry>, e: Entry)
    ensures
        entries_bytes(es.push(e)) == entries_bytes(es) + entry_bytes(e),
    decreases es.len(),
{
    if es.len() == 0 {
        assert(es.push(e)[0] == e);
        assert(es.push(e).drop_first() =~= Seq::<Entry>::empty());
        assert(entries_bytes(Seq::<Entry>::empty()) == Seq::<u8>::empty());
        assert(entries_bytes(es.push(e)) == entry_bytes(e) + Seq::<u8>::empty());
        assert(entry_bytes(e) + Seq::<u8>::empty() =~= entry_bytes(e));
        assert(entries_bytes(es) == Seq::<u8>::empty());
        assert(Seq::<u8>::empty() + entry_bytes(e) =~= entry_bytes(e));
    } else {
        assert(es.push(e)[0] == es[0]);
        assert(es.push(e).drop_first() =~= es.drop_first().push(e));
        lemma_entries_bytes_push(es.drop_first(), e);
        assert(entry_bytes(es[0]) + (entries_bytes(es.drop_first()) + entry_bytes(e))
            =~= (entry_bytes(es[0]) + entries_bytes(es.drop_first())) + entry_bytes(e));
    }
}

/// Appends a thirty-two bit number to `out` as four big-endian bytes.
fn write_be32(out: &mut Vec<u8>, n: u32)
    ensures
        final(out)@ == old(out)@ + be32(n),
{
    proof {
        assert((n >> 24u32) & 0xffu32 < 256) by (bit_vector);
        assert((n >> 16u32) & 0xffu32 < 256) by (bit_vector);
        assert((n >> 8u32) & 0xffu32 < 256) by (bit_vector);
        assert(n & 0xffu32 < 256) by (bit_vector);
    }
    out.push(((n >> 24u32) & 0xffu32) as u8);
    out.push(((n >> 16u32) & 0xffu32) as u8);
    out.push(((n >> 8u32) & 0xffu32) as u8);
    out.push((n & 0xffu32) as u8);
    proof {
        assert(final(out)@ =~= old(out)@ + be32(n));
    }
}

/// Appends an identifier's twenty bytes to `out`.
fn write_id(out: &mut Vec<u8>, id: &ObjectId)
    ensures
        final(out)@ == old(out)@ + id@,
{
    let mut k: usize = 0;
    while k < 20
        invariant
            0 <= k <= 20,
            out@ == old(out)@ + id@.take(k as int),
        decreases 20 - k,
    {
        out.push(id.bytes[k]);
        proof {
            assert(old(out)@ + id@.take(k as int) + seq![id@[k as int]] =~= old(out)@ + id@.take(
                k + 1,
            ));
        }
        k = k + 1;
    }
    proof {
        assert(id@.take(20) =~= id@);
    }
}

/// Serializes the entries as one pack: the fixed header with the declared
/// count, each entry's bytes, and the digest trailer over everything before
/// it.
///
/// Succeeds exactly when the declared count equals the number of entries;
/// on success the output is the pack's bytes, and its last twenty bytes are
/// the digest of everything preceding them.
#[verifier::rlimit(100)]
pub fn entries_to_bytes(entries: &Vec<Entry>, declared_count: u32, version: u32) -> (r: Result<
    Vec<u8>,
    SerializationError,
>)
    ensures
        r matches Ok(v) ==> entries@.len() == declared_count && v@ == pack_bytes(
            entries@,
            version,
        ) && v@.len() >= 20 && v@.skip(v@.len() - 20) == sha1_of(v@.take(v@.len() - 20))
            && sha1_of(pack_body(entries@, version)).len() == 20,
        r matches Err(e) ==> e is CountMismatch && entries@.len() != declared_count,
        entries@.len() == declared_count ==> r is Ok,
{
    if entries.len() as u64 != declared_count as u64 {
        return Err(SerializationError::CountMismatch);
    }
    let mut out: Vec<u8> = Vec::new();
    out.push(80u8);
    out.push(65u8);
    out.push(67u8);
    out.push(75u8);
    proof {
        assert(out@ =~= magic_bytes());
    }
    write_be32(&mut out, version);
    write_be32(&mut out, declared_count);
    let ghost header = out@;
    proof {
        assert(header =~= magic_bytes() + be32(version) + be32(entries@.len() as u32));
        assert(entries@.take(0) =~= Seq::<Entry>::empty());
        assert(out@ =~= header + entries_bytes(entries@.take(0)));
    }
    let mut i: usize = 0;
    while i < entries.len()
        invariant
            0 <= i <= entries@.len(),
            header == magic_bytes() + be32(version) + be32(entries@.len() as u32),
            out@ == header + entries_bytes(entries@.take(i as int)),
        decreases entries@.len() - i,
    {
        let e = &entries[i];
        let ghost out0 = out@;
        out.push(match e.object_kind {
            Kind::Commit => 1u8,
            Kind::Tree => 2u8,
            Kind::Blob => 3u8,
            Kind::Tag => 4u8,
        });
        proof {
            assert(out@ =~= out0 + seq![kind_code(e.object_kind)]);
        }
        write_varint(&mut out, e.decompressed_size as u64);
        write_id(&mut out, &e.id);
        match &e.delta_base {
            None => {
                out.push(0u8);
                proof {
                    assert(out@ =~= out0 + seq![kind_code(e.object_kind)] + varint_spec(
                        e.decompressed_size as nat,
                    ) + e.id@ + base_ref_bytes(e.delta_base));
                }
            },
            Some(DeltaBase::Id(oid)) => {
                out.push(1u8);
                write_id(&mut out, oid);
                proof {
                    assert(base_ref_bytes(e.delta_base) =~= seq![1u8] + oid@);
                    assert(out@ =~= out0 + seq![kind_code(e.object_kind)] + varint_spec(
                        e.decompressed_size as nat,
                    ) + e.id@ + base_ref_bytes(e.delta_base));
                }
            },
            Some(DeltaBase::Offset(off)) => {
                out.push(2u8);
                let offv: u64 = *off;
                write_varint(&mut out, offv);
                proof {
                    assert(base_ref_bytes(e.delta_base) =~= seq![2u8] + varint_spec(offv as nat));
                    assert(out@ =~= out0 + seq![kind_code(e.object_kind)] + varint_spec(
                        e.decompressed_size as nat,
                    ) + e.id@ + base_ref_bytes(e.delta_base));
                }
            },
        }
        write_varint(&mut out, e.compressed_payload.len() as u64);
        extend_bytes(&mut out, &e.compressed_payload);
        proof {
            assert(out@ =~= out0 + entry_bytes(entries@[i as int]));
            lemma_entries_bytes_push(entries@.take(i as int), entries@[i as int]);
            assert(entries@.take(i as int).push(entries@[i as int]) =~= entries@.take(i + 1));
            assert(out@ =~= header + entries_bytes(entries@.take(i + 1)));
        }
        i = i + 1;
    }
    proof {
        assert(entries@.take(entries@.len() as int) =~= entries@);
        assert(out@ == pack_body(entries@, version));
    }
    let digest = sha1(&out);
    let ghost body = out@;
    extend_bytes(&mut out, &digest);
    proof {
        assert(out@ == pack_bytes(entries@, version));
        assert(out@.len() == body.len() + 20);
        assert(out@.skip(out@.len() - 20) =~= digest@);
        assert(out@.take(out@.len() - 20) =~= body);
    }
    Ok(out)
}

} // verus!
