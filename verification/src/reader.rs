use vstd::prelude::*;
use crate::bytes::{bytes_eq, copy_range};
use crate::codec::{sha1, sha1_of};
use crate::entries::{DeltaBase, Entry};
use crate::ids::ObjectId;
use crate::ser::{be32, be32_val, base_ref_bytes, entries_bytes, entry_bytes, kind_code,
    lemma_be32_round_trip, magic_bytes, pack_body, pack_bytes};
use crate::varint::{lemma_parse_varint_rest, lemma_varint_round_trip, parse_varint, read_varint,
    varint_spec};

verus! {

broadcast use vstd::seq_lib::group_seq_lib_default;

/// What an independent reader recovers for one entry.
pub struct EntryInfo {
    /// The code byte naming the object's kind.
    pub kind_code: u8,
    /// The declared decompressed size.
    pub size: nat,
    /// The entry's identifier bytes.
    pub id: Seq<u8>,
    /// The base identifier, when the entry is a delta against a named object.
    pub base_id: Option<Seq<u8>>,
    /// The base offset, when the entry is a delta against an earlier position.
    pub base_offset: Option<nat>,
    /// The compressed payload.
    pub payload: Seq<u8>,
}

/// Reads one base reference field: marker byte, then an identifier, an
/// offset, or nothing.
pub open spec fn parse_base_ref(bytes: Seq<u8>) -> Option<(Option<Seq<u8>>, Option<nat>, Seq<u8>)> {
    if bytes.len() < 1 {
        None
    } else if bytes[0] == 0u8 {
        Some((None, None, bytes.drop_first()))
    } else if bytes[0] == 1u8 {
        if bytes.len() < 21 {
            None
        } else {
            Some((Some(bytes.subrange(1, 21)), None, bytes.skip(21)))
        }
    } else if bytes[0] == 2u8 {
        match parse_varint(bytes.drop_first()) {
            Some(pr) => if pr.0 <= u64::MAX {
                Some((None, Some(pr.0), pr.1))
            } else {
                None
            },
            None => None,
        }
    } else {
        None
    }
}

/// Reads one serialized entry from the front of `bytes`, returning what it
/// holds and the remaining bytes.
pub open spec fn parse_entry_spec(bytes: Seq<u8>) -> Option<(EntryInfo, Seq<u8>)> {
    if bytes.len() < 1 || !(1 <= bytes[0] <= 4) {
        None
    } else {
        match parse_varint(bytes.drop_first()) {
            Some(szp) => if szp.0 > u64::MAX || szp.1.len() < 20 {
                None
            } else {
                match parse_base_ref(szp.1.skip(20)) {
                    Some(br) => match parse_varint(br.2) {
                        Some(plp) => if plp.0 <= plp.1.len() {
                            Some(
                                (
                                    EntryInfo {
                                        kind_code: bytes[0],
                                        size: szp.0,
                                        id: szp.1.take(20),
                                        base_id: br.0,
                                        base_offset: br.1,
                                        payload: plp.1.take(plp.0 as int),
                                    },
                                    plp.1.skip(plp.0 as int),
                                ),
                            )
                        } else {
                            None
                        },
                        None => None,
                    },
                    None => None,
                }
            },
            None => None,
        }
    }
}

/// Reads `n` serialized entries from the front of `bytes`.
pub open spec fn parse_entries_spec(bytes: Seq<u8>, n: nat) -> Option<(Seq<EntryInfo>, Seq<u8>)>
    decreases n,
{
    if n == 0 {
        Some((Seq::<EntryInfo>::empty(), bytes))
    } else {
        match parse_entry_spec(bytes) {
            Some(ep) => match parse_entries_spec(ep.1, (n - 1) as nat) {
                Some(rp) => Some((seq![ep.0] + rp.0, rp.1)),
                None => None,
            },
            None => None,
        }
    }
}

/// Reads a whole pack: magic, version, declared count, that many entries,
/// and a twenty-byte trailer that must be the digest of everything before it.
pub open spec fn parse_pack_spec(bytes: Seq<u8>) -> Option<(u32, u32, Seq<EntryInfo>)> {
    if bytes.len() < 12 || bytes.take(4) != magic_bytes() {
        None
    } else {
        let version = be32_val(bytes[4], bytes[5], bytes[6], bytes[7]);
        let declared = be32_val(bytes[8], bytes[9], bytes[10], bytes[11]);
        match parse_entries_spec(bytes.skip(12), declared as nat) {
            Some(pr) => if pr.1.len() == 20 && pr.1 == sha1_of(
                bytes.take(bytes.len() - 20),
            ) {
                Some((version, declared, pr.0))
            } else {
                None
            },
            None => None,
        }
    }
}

/// What the reader recovers for a serialized entry.
pub open spec fn info_of(e: Entry) -> EntryInfo {
    EntryInfo {
        kind_code: kind_code(e.object_kind),
        size: e.decompressed_size as nat,
        id: e.id@,
        base_id: match e.delta_base {
            Some(DeltaBase::Id(oid)) => Some(oid@),
            _ => None,
        },
        base_offset: match e.delta_base {
            Some(DeltaBase::Offset(off)) => Some(off as nat),
            _ => None,
        },
        payload: e.compressed_payload@,
    }
}

/// What the reader recovers for each of a sequence of entries, in order.
pub open spec fn infos_of(es: Seq<Entry>) -> Seq<EntryInfo> {
    es.map_values(|e: Entry| info_of(e))
}

/// Reading one serialized entry undoes writing it, whatever follows.
#[verifier::rlimit(100)]
proof fn lemma_parse_entry_round(e: Entry, rest: Seq<u8>)
    ensures
        parse_entry_spec(entry_bytes(e) + rest) == Some((info_of(e), rest)),
{
    let whole = entry_bytes(e) + rest;
    let vsz = varint_spec(e.decompressed_size as nat);
    let brb = base_ref_bytes(e.delta_base);
    let vpl = varint_spec(e.compressed_payload@.len());
    let pay = e.compressed_payload@;
    assert(whole[0] == kind_code(e.object_kind));
    assert(1 <= kind_code(e.object_kind) <= 4);
    let tail1 = e.id@ + brb + vpl + pay + rest;
    assert(whole.drop_first() =~= vsz + tail1);
    lemma_varint_round_trip(e.decompressed_size as nat, tail1);
    assert(e.decompressed_size as nat <= u64::MAX);
    assert(tail1.len() >= 20);
    assert(tail1.take(20) =~= e.id@);
    let tail2 = brb + vpl + pay + rest;
    assert(tail1.skip(20) =~= tail2);
    let tail3 = vpl + pay + rest;
    match e.delta_base {
        None => {
            assert(tail2[0] == 0u8);
            assert(tail2.drop_first() =~= tail3);
            assert(parse_base_ref(tail2) == Some(
                (None::<Seq<u8>>, None::<nat>, tail3),
            ));
        },
        Some(DeltaBase::Id(oid)) => {
            assert(tail2[0] == 1u8);
            assert(tail2.len() >= 21);
            assert(tail2.subrange(1, 21) =~= oid@);
            assert(tail2.skip(21) =~= tail3);
            assert(parse_base_ref(tail2) == Some(
                (Some(oid@), None::<nat>, tail3),
            ));
        },
        Some(DeltaBase::Offset(off)) => {
            assert(tail2[0] == 2u8);
            assert(tail2.drop_first() =~= varint_spec(off as nat) + tail3);
            lemma_varint_round_trip(off as nat, tail3);
            assert(off as nat <= u64::MAX);
            assert(parse_base_ref(tail2) == Some(
                (None::<Seq<u8>>, Some(off as nat), tail3),
            ));
        },
    }
    lemma_varint_round_trip(pay.len(), pay + rest);
    assert(tail3 =~= vpl + (pay + rest));
    assert(pay.len() <= (pay + rest).len());
    assert((pay + rest).take(pay.len() as int) =~= pay);
    assert((pay + rest).skip(pay.len() as int) =~= rest);
}

/// Reading a run of serialized entries undoes writing them, whatever follows.
proof fn lemma_parse_entries_round(es: Seq<Entry>, rest: Seq<u8>)
    ensures
        parse_entries_spec(entries_bytes(es) + rest, es.len()) == Some((infos_of(es), rest)),
    decreases es.len(),
{
    if es.len() == 0 {
        assert(entries_bytes(es) + rest =~= rest);
        assert(infos_of(es) =~= Seq::<EntryInfo>::empty());
    } else {
        let e = es[0];
        let tl = es.drop_first();
        assert(entries_bytes(es) + rest =~= entry_bytes(e) + (entries_bytes(tl) + rest));
        lemma_parse_entry_round(e, entries_bytes(tl) + rest);
        lemma_parse_entries_round(tl, rest);
        assert(seq![info_of(e)] + infos_of(tl) =~= infos_of(es));
    }
}

/// Round trip: reading a serialized pack yields its version, its declared
/// count (the number of entries), and each entry's identifier, size, kind
/// code, base reference and payload, in order.
pub proof fn lemma_pack_round_trip(es: Seq<Entry>, version: u32)
    requires
        es.len() <= u32::MAX,
        sha1_of(pack_body(es, version)).len() == 20,
    ensures
        parse_pack_spec(pack_bytes(es, version)) == Some(
            (version, es.len() as u32, infos_of(es)),
        ),
{
    let body = pack_body(es, version);
    let trailer = sha1_of(body);
    let whole = pack_bytes(es, version);
    assert(whole =~= body + trailer);
    assert(whole.len() >= 12);
    assert(whole.take(4) =~= magic_bytes());
    let cnt: u32 = es.len() as u32;
    assert(whole[4] == be32(version)[0] && whole[5] == be32(version)[1] && whole[6] == be32(
        version,
    )[2] && whole[7] == be32(version)[3]);
    assert(whole[8] == be32(cnt)[0] && whole[9] == be32(cnt)[1] && whole[10] == be32(cnt)[2]
        && whole[11] == be32(cnt)[3]);
    lemma_be32_round_trip(version);
    lemma_be32_round_trip(cnt);
    assert(whole.skip(12) =~= entries_bytes(es) + trailer);
    lemma_parse_entries_round(es, trailer);
    assert(cnt as nat == es.len());
    assert(whole.take(whole.len() - 20) =~= body);
}

/// One entry as the reader hands it out.
pub struct ParsedEntry {
    /// The code byte naming the object's kind.
    pub kind_code: u8,
    /// The declared decompressed size.
    pub decompressed_size: u64,
    /// The entry's identifier.
    pub id: ObjectId,
    /// The base identifier, for a delta against a named object.
    pub base_id: Option<ObjectId>,
    /// The base offset, for a delta against an earlier position.
    pub base_offset: Option<u64>,
    /// The compressed payload.
    pub payload: Vec<u8>,
}

impl View for ParsedEntry {
    type V = EntryInfo;

    open spec fn view(&self) -> EntryInfo {
        EntryInfo {
            kind_code: self.kind_code,
            size: self.decompressed_size as nat,
            id: self.id@,
            base_id: match self.base_id {
                Some(b) => Some(b@),
                None => None,
            },
            base_offset: match self.base_offset {
                Some(o) => Some(o as nat),
                None => None,
            },
            payload: self.payload@,
        }
    }
}

/// Reads twenty identifier bytes starting at `pos`.
fn read_id(bytes: &Vec<u8>, pos: usize) -> (r: ObjectId)
    requires
        pos + 20 <= bytes@.len(),
    ensures
        r@ == bytes@.subrange(pos as int, pos + 20),
{
    let end = bytes.len();
    let mut arr: [u8; 20] = [0u8; 20];
    proof {
        assert(pos + 20 <= end);
    }
    let mut k: usize = 0;
    while k < 20
        invariant
            pos + 20 <= bytes@.len() <= usize::MAX,
            0 <= k <= 20,
            forall|j: int| 0 <= j < k ==> arr@[j] == bytes@[pos + j],
        decreases 20 - k,
    {
        arr[k] = bytes[pos + k];
        k = k + 1;
    }
    proof {
        assert(arr@ =~= bytes@.subrange(pos as int, pos + 20));
    }
    ObjectId { bytes: arr }
}

/// Reads four big-endian bytes starting at `pos`.
fn read_be32(bytes: &Vec<u8>, pos: usize) -> (r: u32)
    requires
        pos + 4 <= bytes@.len(),
    ensures
        r == be32_val(
            bytes@[pos as int],
            bytes@[pos as int + 1],
            bytes@[pos as int + 2],
            bytes@[pos as int + 3],
        ),
{
    let end = bytes.len();
    proof {
        assert(pos + 4 <= end);
    }
    ((bytes[pos] as u32) << 24u32) | ((bytes[pos + 1] as u32) << 16u32) | ((bytes[pos + 2] as u32)
        << 8u32) | (bytes[pos + 3] as u32)
}

/// Reads one serialized entry starting at `pos`.
#[verifier::rlimit(100)]
fn parse_entry(bytes: &Vec<u8>, pos: usize) -> (r: Option<(ParsedEntry, usize)>)
    requires
        pos <= bytes@.len(),
    ensures
        r matches Some(pr) ==> pos < pr.1 <= bytes@.len() && parse_entry_spec(
            bytes@.subrange(pos as int, bytes@.len() as int),
        ) == Some((pr.0@, bytes@.subrange(pr.1 as int, bytes@.len() as int))),
        r is None ==> parse_entry_spec(bytes@.subrange(pos as int, bytes@.len() as int)) is None,
{
    let ghost tail = bytes@.subrange(pos as int, bytes@.len() as int);
    let bl = bytes.len();
    if pos >= bl {
        return None;
    }
    let kc = bytes[pos];
    proof {
        assert(tail[0] == kc);
    }
    if !(1 <= kc && kc <= 4) {
        return None;
    }
    proof {
        assert(tail.drop_first() =~= bytes@.subrange(pos + 1, bytes@.len() as int));
    }
    let (size, p1) = match read_varint(bytes, pos + 1) {
        Some(pr) => pr,
        None => {
            proof {
                if parse_varint(tail.drop_first()) is Some {
                    let szp = parse_varint(tail.drop_first())->Some_0;
                    assert(szp.0 > u64::MAX);
                }
            }
            return None;
        },
    };
    let ghost r1 = bytes@.subrange(p1 as int, bytes@.len() as int);
    if bl - p1 < 20 {
        return None;
    }
    let idv = read_id(bytes, p1);
    proof {
        assert(r1.take(20) =~= bytes@.subrange(p1 as int, p1 + 20));
        assert(r1.skip(20) =~= bytes@.subrange(p1 + 20, bytes@.len() as int));
    }
    let p2 = p1 + 20;
    let ghost r2 = bytes@.subrange(p2 as int, bytes@.len() as int);
    if p2 >= bl {
        return None;
    }
    let marker = bytes[p2];
    proof {
        assert(r2[0] == marker);
        assert(r2.drop_first() =~= bytes@.subrange(p2 + 1, bytes@.len() as int));
    }
    let base_id: Option<ObjectId>;
    let base_offset: Option<u64>;
    let p3: usize;
    if marker == 0 {
        base_id = None;
        base_offset = None;
        p3 = p2 + 1;
    } else if marker == 1 {
        if bl - p2 < 21 {
            return None;
        }
        let b = read_id(bytes, p2 + 1);
        proof {
            assert(r2.subrange(1, 21) =~= bytes@.subrange(p2 + 1, p2 + 21));
            assert(r2.skip(21) =~= bytes@.subrange(p2 + 21, bytes@.len() as int));
        }
        base_id = Some(b);
        base_offset = None;
        p3 = p2 + 21;
    } else if marker == 2 {
        let (off, po) = match read_varint(bytes, p2 + 1) {
            Some(pr) => pr,
            None => {
                proof {
                    if parse_varint(r2.drop_first()) is Some {
                        let op = parse_varint(r2.drop_first())->Some_0;
                        assert(op.0 > u64::MAX);
                    }
                }
                return None;
            },
        };
        base_id = None;
        base_offset = Some(off);
        p3 = po;
    } else {
        return None;
    }
    let ghost r3 = bytes@.subrange(p3 as int, bytes@.len() as int);
    proof {
        if p3 < bl {
            assert(r3.drop_first() =~= bytes@.subrange(p3 + 1, bytes@.len() as int));
        }
    }
    let (pl, p4) = match read_varint(bytes, p3) {
        Some(pr) => pr,
        None => {
            proof {
                if parse_varint(r3) is Some {
                    let pp = parse_varint(r3)->Some_0;
                    assert(pp.0 > u64::MAX);
                    lemma_parse_varint_rest(r3);
                    assert(pp.1.len() < r3.len() <= bytes@.len() <= u64::MAX);
                    assert(pp.0 > pp.1.len());
                }
            }
            return None;
        },
    };
    if pl > (bl - p4) as u64 {
        proof {
            let r4 = bytes@.subrange(p4 as int, bytes@.len() as int);
            assert(r4.len() == bytes@.len() - p4);
        }
        return None;
    }
    let plu = pl as usize;
    let payload = copy_range(bytes, p4, p4 + plu);
    let p5 = p4 + plu;
    proof {
        let r4 = bytes@.subrange(p4 as int, bytes@.len() as int);
        assert(r4.take(pl as int) =~= bytes@.subrange(p4 as int, p4 + plu));
        assert(r4.skip(pl as int) =~= bytes@.subrange(p5 as int, bytes@.len() as int));
    }
    let pe = ParsedEntry { kind_code: kc, decompressed_size: size, id: idv, base_id, base_offset, payload };
    proof {
        let r4 = bytes@.subrange(p4 as int, bytes@.len() as int);
        let r5 = bytes@.subrange(p5 as int, bytes@.len() as int);
        assert(parse_varint(tail.drop_first()) == Some((size as nat, r1)));
        assert(r1.len() >= 20);
        assert(parse_varint(r3) == Some((pl as nat, r4)));
        assert(pl as nat <= r4.len());
        assert(pe@.id == r1.take(20));
        assert(pe@.payload == r4.take(pl as int));
        assert(parse_entry_spec(tail) matches Some(pr) && pr.0 == pe@ && pr.1 == r5);
    }
    Some((pe, p5))
}

/// Reads a whole pack: the version and declared count from the header, each
/// entry, and the digest trailer, which is checked against a fresh digest of
/// everything before it.
#[verifier::rlimit(100)]
pub fn parse_pack(bytes: &Vec<u8>) -> (r: Option<(u32, u32, Vec<ParsedEntry>)>)
    ensures
        r matches Some(t) ==> parse_pack_spec(bytes@) == Some(
            (t.0, t.1, t.2@.map_values(|pe: ParsedEntry| pe@)),
        ),
        r is None ==> parse_pack_spec(bytes@) is None,
{
    let bl = bytes.len();
    if bl < 12 {
        return None;
    }
    if !(bytes[0] == 80 && bytes[1] == 65 && bytes[2] == 67 && bytes[3] == 75) {
        proof {
            assert(bytes@.take(4) != magic_bytes());
        }
        return None;
    }
    proof {
        assert(bytes@.take(4) =~= magic_bytes());
    }
    let version = read_be32(bytes, 4);
    let declared = read_be32(bytes, 8);
    let mut acc: Vec<ParsedEntry> = Vec::new();
    let mut pos: usize = 12;
    let mut k: u32 = 0;
    proof {
        assert(acc@.map_values(|pe: ParsedEntry| pe@) =~= Seq::<EntryInfo>::empty());
    }
    while k < declared
        invariant
            0 <= k <= declared,
            12 <= pos <= bytes@.len(),
            bytes@.len() >= 12,
            bytes@.take(4) == magic_bytes(),
            version == be32_val(bytes@[4], bytes@[5], bytes@[6], bytes@[7]),
            declared == be32_val(bytes@[8], bytes@[9], bytes@[10], bytes@[11]),
            parse_entries_spec(bytes@.subrange(12, bytes@.len() as int), declared as nat) == (
            match parse_entries_spec(
                bytes@.subrange(pos as int, bytes@.len() as int),
                (declared - k) as nat,
            ) {
                Some(pr) => Some(
                    (acc@.map_values(|pe: ParsedEntry| pe@) + pr.0, pr.1),
                ),
                None => None::<(Seq<EntryInfo>, Seq<u8>)>,
            }),
        decreases declared - k,
    {
        let ghost acc0 = acc@;
        let ghost sub_pos = bytes@.subrange(pos as int, bytes@.len() as int);
        match parse_entry(bytes, pos) {
            Some((pe, p)) => {
                let ghost sub_p = bytes@.subrange(p as int, bytes@.len() as int);
                proof {
                    assert(parse_entries_spec(sub_pos, (declared - k) as nat) == (
                    match parse_entries_spec(sub_p, (declared - k - 1) as nat) {
                        Some(rp) => Some((seq![pe@] + rp.0, rp.1)),
                        None => None::<(Seq<EntryInfo>, Seq<u8>)>,
                    }));
                }
                acc.push(pe);
                proof {
                    assert(acc@ == acc0.push(pe));
                    assert(acc@.map_values(|q: ParsedEntry| q@) =~= acc0.map_values(
                        |q: ParsedEntry| q@,
                    ).push(pe@));
                    assert forall|s: Seq<EntryInfo>|
                        true implies acc0.map_values(|q: ParsedEntry| q@) + (seq![pe@] + s)
                        =~= acc@.map_values(|q: ParsedEntry| q@) + s by {}
                }
                pos = p;
            },
            None => {
                proof {
                    assert(parse_entries_spec(sub_pos, (declared - k) as nat) is None);
                    assert(bytes@.subrange(12, bytes@.len() as int) =~= bytes@.skip(12));
                }
                return None;
            },
        }
        k = k + 1;
    }
    proof {
        assert(parse_entries_spec(
            bytes@.subrange(pos as int, bytes@.len() as int),
            (declared - k) as nat,
        ) == Some(
            (
                Seq::<EntryInfo>::empty(),
                bytes@.subrange(pos as int, bytes@.len() as int),
            ),
        ));
        assert(acc@.map_values(|pe: ParsedEntry| pe@) + Seq::<EntryInfo>::empty() =~= acc@
            .map_values(|pe: ParsedEntry| pe@));
    }
    proof {
        assert(bytes@.subrange(12, bytes@.len() as int) =~= bytes@.skip(12));
    }
    if bl - pos != 20 {
        return None;
    }
    let body = copy_range(bytes, 0, pos);
    let trailer = copy_range(bytes, pos, bl);
    let digest = sha1(&body);
    proof {
        assert(body@ =~= bytes@.take(bytes@.len() - 20));
        assert(trailer@ =~= bytes@.subrange(pos as int, bytes@.len() as int));
    }
    if !bytes_eq(&digest, &trailer) {
        return None;
    }
    proof {
        assert(bytes@.subrange(12, bytes@.len() as int) =~= bytes@.skip(12));
    }
    Some((version, declared, acc))
}

} // verus!
