use vstd::prelude::*;
use crate::varint::{lemma_varint_len, lemma_varint_round_trip, parse_varint, read_varint,
    varint_spec, write_varint};

verus! {

broadcast use vstd::seq_lib::group_seq_lib_default;

/// What applying a delta to a base yields: the delta is a sequence of
/// instructions, each either a copy (tag byte one, then base offset and
/// length) or an insert (tag byte two, then a length and that many raw
/// bytes); `None` when the delta is malformed or reads outside the base.
pub open spec fn apply_delta_spec(base: Seq<u8>, delta: Seq<u8>) -> Option<Seq<u8>>
    decreases delta.len(),
{
    if delta.len() == 0 {
        Some(Seq::<u8>::empty())
    } else if delta[0] == 1u8 {
        match parse_varint(delta.drop_first()) {
            Some(pr1) => match parse_varint(pr1.1) {
                Some(pr2) => {
                    if pr1.0 + pr2.0 <= base.len() && pr2.1.len() < delta.len() {
                        match apply_delta_spec(base, pr2.1) {
                            Some(tail) => Some(
                                base.subrange(pr1.0 as int, (pr1.0 + pr2.0) as int) + tail,
                            ),
                            None => None,
                        }
                    } else {
                        None
                    }
                },
                None => None,
            },
            None => None,
        }
    } else if delta[0] == 2u8 {
        match parse_varint(delta.drop_first()) {
            Some(pr) => {
                if pr.0 <= pr.1.len() && pr.1.len() < delta.len() {
                    match apply_delta_spec(base, pr.1.skip(pr.0 as int)) {
                        Some(tail) => Some(pr.1.take(pr.0 as int) + tail),
                        None => None,
                    }
                } else {
                    None
                }
            },
            None => None,
        }
    } else {
        None
    }
}

/// A copy instruction in front of a delta copies the named base range.
proof fn lemma_apply_copy(base: Seq<u8>, off: nat, cnt: nat, rest: Seq<u8>)
    requires
        off + cnt <= base.len(),
    ensures
        apply_delta_spec(base, seq![1u8] + varint_spec(off) + varint_spec(cnt) + rest) == (
        match apply_delta_spec(base, rest) {
            Some(tail) => Some(base.subrange(off as int, (off + cnt) as int) + tail),
            None => None,
        }),
{
    let delta = seq![1u8] + varint_spec(off) + varint_spec(cnt) + rest;
    assert(delta[0] == 1u8);
    assert(delta.drop_first() =~= varint_spec(off) + (varint_spec(cnt) + rest));
    lemma_varint_round_trip(off, varint_spec(cnt) + rest);
    lemma_varint_round_trip(cnt, rest);
    lemma_varint_len(off);
    lemma_varint_len(cnt);
    assert(rest.len() < delta.len());
}

/// An insert instruction in front of a delta contributes its raw bytes.
proof fn lemma_apply_insert(base: Seq<u8>, data: Seq<u8>, rest: Seq<u8>)
    ensures
        apply_delta_spec(base, seq![2u8] + varint_spec(data.len()) + data + rest) == (
        match apply_delta_spec(base, rest) {
            Some(tail) => Some(data + tail),
            None => None,
        }),
{
    let delta = seq![2u8] + varint_spec(data.len()) + data + rest;
    assert(delta[0] == 2u8);
    assert(delta.drop_first() =~= varint_spec(data.len()) + (data + rest));
    lemma_varint_round_trip(data.len(), data + rest);
    lemma_varint_len(data.len());
    assert((data + rest).len() < delta.len());
    assert((data + rest).take(data.len() as int) =~= data);
    assert((data + rest).skip(data.len() as int) =~= rest);
}

/// Builds a delta that turns `base`'s bytes into `target`'s: one copy of the
/// longest common prefix, then one insert of the remainder.
///
/// Applying the returned delta to `base` always reproduces `target` exactly.
#[verifier::rlimit(100)]
pub fn encode_delta(base: &Vec<u8>, target: &Vec<u8>) -> (r: Vec<u8>)
    ensures
        apply_delta_spec(base@, r@) == Some(target@),
{
    let mut p: usize = 0;
    while p < base.len() && p < target.len() && base[p as usize] == target[p as usize]
        invariant
            0 <= p <= base@.len(),
            0 <= p <= target@.len(),
            forall|j: int| 0 <= j < p ==> base@[j] == target@[j],
        decreases base@.len() - p,
    {
        p = p + 1;
    }
    let mut delta: Vec<u8> = Vec::new();
    if p > 0 {
        delta.push(1u8);
        write_varint(&mut delta, 0u64);
        write_varint(&mut delta, p as u64);
    }
    let ghost copy_part = delta@;
    let mut ins: Vec<u8> = Vec::new();
    let mut k: usize = p;
    while k < target.len()
        invariant
            p <= k <= target@.len(),
            ins@ == target@.subrange(p as int, k as int),
        decreases target@.len() - k,
    {
        ins.push(target[k]);
        proof {
            assert(target@.subrange(p as int, k as int).push(target@[k as int]) =~= target@
                .subrange(p as int, k + 1));
        }
        k = k + 1;
    }
    if ins.len() > 0 {
        delta.push(2u8);
        write_varint(&mut delta, ins.len() as u64);
        crate::bytes::extend_bytes(&mut delta, &ins);
    }
    proof {
        let tail = target@.subrange(p as int, target@.len() as int);
        if ins@.len() > 0 {
            assert(delta@ =~= copy_part + (seq![2u8] + varint_spec(tail.len()) + tail
                + Seq::<u8>::empty()));
            lemma_apply_insert(base@, tail, Seq::<u8>::empty());
            assert(apply_delta_spec(base@, seq![2u8] + varint_spec(tail.len()) + tail
                + Seq::<u8>::empty()) == Some(tail + Seq::<u8>::empty()));
            assert(tail + Seq::<u8>::empty() =~= tail);
        } else {
            assert(delta@ =~= copy_part + Seq::<u8>::empty());
            assert(delta@ =~= copy_part);
        }
        let ins_delta: Seq<u8> = if ins@.len() > 0 {
            seq![2u8] + varint_spec(tail.len()) + tail + Seq::<u8>::empty()
        } else {
            Seq::<u8>::empty()
        };
        assert(apply_delta_spec(base@, ins_delta) == Some(tail));
        if p > 0 {
            assert(copy_part =~= seq![1u8] + varint_spec(0) + varint_spec(p as nat));
            assert(delta@ =~= seq![1u8] + varint_spec(0) + varint_spec(p as nat) + ins_delta);
            lemma_apply_copy(base@, 0, p as nat, ins_delta);
            assert(apply_delta_spec(base@, delta@) == Some(
                base@.subrange(0, p as int) + tail,
            ));
            assert(base@.subrange(0, p as int) =~= target@.subrange(0, p as int));
            assert(target@.subrange(0, p as int) + tail =~= target@);
        } else {
            assert(delta@ == ins_delta);
            assert(tail =~= target@);
        }
    }
    delta
}

/// Applies a delta to a base, following its copy and insert instructions.
pub fn apply_delta(base: &Vec<u8>, delta: &Vec<u8>) -> (r: Option<Vec<u8>>)
    ensures
        r matches Some(v) ==> apply_delta_spec(base@, delta@) == Some(v@),
        r is None ==> apply_delta_spec(base@, delta@) is None,
{
    let mut out: Vec<u8> = Vec::new();
    let mut pos: usize = 0;
    proof {
        assert(delta@.subrange(0, delta@.len() as int) =~= delta@);
    }
    while pos < delta.len()
        invariant
            0 <= pos <= delta@.len(),
            apply_delta_spec(base@, delta@) == (match apply_delta_spec(
                base@,
                delta@.subrange(pos as int, delta@.len() as int),
            ) {
                Some(tail) => Some(out@ + tail),
                None => None::<Seq<u8>>,
            }),
        decreases delta@.len() - pos,
    {
        let ghost remaining = delta@.subrange(pos as int, delta@.len() as int);
        let ghost out0 = out@;
        let tag = delta[pos];
        proof {
            assert(remaining[0] == tag);
        }
        if tag == 1 {
            proof {
                assert(remaining.drop_first() =~= delta@.subrange(
                    pos + 1,
                    delta@.len() as int,
                ));
            }
            let bl = base.len();
            let (off, p1) = match read_varint(delta, pos + 1) {
                Some(pr) => pr,
                None => {
                    proof {
                        if parse_varint(remaining.drop_first()) is Some {
                            let pr1 = parse_varint(remaining.drop_first())->Some_0;
                            assert(pr1.0 > u64::MAX);
                            assert(base@.len() <= u64::MAX);
                        }
                        assert(apply_delta_spec(base@, remaining) is None);
                    }
                    return None;
                },
            };
            let (cnt, p2) = match read_varint(delta, p1) {
                Some(pr) => pr,
                None => {
                    proof {
                        let r1 = delta@.subrange(p1 as int, delta@.len() as int);
                        if parse_varint(r1) is Some {
                            let pr2 = parse_varint(r1)->Some_0;
                            assert(pr2.0 > u64::MAX);
                            assert(base@.len() <= u64::MAX);
                        }
                        assert(apply_delta_spec(base@, remaining) is None);
                    }
                    return None;
                },
            };
            if off > bl as u64 || cnt > bl as u64 - off {
                proof {
                    assert(off as nat + cnt as nat > base@.len());
                    assert(apply_delta_spec(base@, remaining) is None);
                }
                return None;
            }
            let offu = off as usize;
            let cntu = cnt as usize;
            let mut k: usize = 0;
            while k < cntu
                invariant
                    base@.len() <= usize::MAX,
                    offu + cntu <= base@.len(),
                    offu == off && cntu == cnt,
                    0 <= k <= cntu,
                    out@ == out0 + base@.subrange(offu as int, offu + k),
                decreases cntu - k,
            {
                out.push(base[offu + k]);
                proof {
                    assert(out0 + base@.subrange(offu as int, offu + k as int) + seq![base@[offu
                        + k]] =~= out0 + base@.subrange(offu as int, offu + k + 1));
                }
                k = k + 1;
            }
            proof {
                let rest2 = delta@.subrange(p2 as int, delta@.len() as int);
                assert(rest2.len() < remaining.len());
                assert(apply_delta_spec(base@, remaining) == (match apply_delta_spec(
                    base@,
                    rest2,
                ) {
                    Some(tail) => Some(
                        base@.subrange(off as int, off as int + cnt as int) + tail,
                    ),
                    None => None::<Seq<u8>>,
                }));
                assert forall|tail: Seq<u8>|
                    true implies out0 + (base@.subrange(off as int, off as int + cnt as int)
                    + tail) =~= out@ + tail by {}
            }
            pos = p2;
        } else if tag == 2 {
            proof {
                assert(remaining.drop_first() =~= delta@.subrange(
                    pos + 1,
                    delta@.len() as int,
                ));
            }
            let dl = delta.len();
            let (cnt, p1) = match read_varint(delta, pos + 1) {
                Some(pr) => pr,
                None => {
                    proof {
                        if parse_varint(remaining.drop_first()) is Some {
                            let pr1 = parse_varint(remaining.drop_first())->Some_0;
                            assert(pr1.0 > u64::MAX);
                            assert(delta@.len() <= u64::MAX);
                        }
                        assert(apply_delta_spec(base@, remaining) is None);
                    }
                    return None;
                },
            };
            if cnt > (dl - p1) as u64 {
                proof {
                    let r1 = delta@.subrange(p1 as int, delta@.len() as int);
                    assert(r1.len() == delta@.len() - p1);
                    assert(apply_delta_spec(base@, remaining) is None);
                }
                return None;
            }
            let cntu = cnt as usize;
            let mut k: usize = 0;
            while k < cntu
                invariant
                    delta@.len() <= usize::MAX,
                    p1 + cntu <= delta@.len(),
                    cntu == cnt,
                    0 <= k <= cntu,
                    out@ == out0 + delta@.subrange(p1 as int, p1 + k),
                decreases cntu - k,
            {
                out.push(delta[p1 + k]);
                proof {
                    assert(out0 + delta@.subrange(p1 as int, p1 + k as int) + seq![delta@[p1
                        + k]] =~= out0 + delta@.subrange(p1 as int, p1 + k + 1));
                }
                k = k + 1;
            }
            proof {
                let rest1 = delta@.subrange(p1 as int, delta@.len() as int);
                let rest2 = delta@.subrange(p1 + cntu, delta@.len() as int);
                assert(rest1.len() < remaining.len());
                assert(rest1.take(cnt as int) =~= delta@.subrange(p1 as int, p1 + cntu));
                assert(rest1.skip(cnt as int) =~= rest2);
                assert(apply_delta_spec(base@, remaining) == (match apply_delta_spec(
                    base@,
                    rest2,
                ) {
                    Some(tail) => Some(delta@.subrange(p1 as int, p1 + cntu) + tail),
                    None => None::<Seq<u8>>,
                }));
                assert forall|tail: Seq<u8>|
                    true implies out0 + (delta@.subrange(p1 as int, p1 + cntu) + tail) =~= out@
                    + tail by {}
            }
            pos = p1 + cntu;
        } else {
            return None;
        }
    }
    proof {
        assert(delta@.subrange(pos as int, delta@.len() as int) =~= Seq::<u8>::empty());
        assert(apply_delta_spec(base@, Seq::<u8>::empty()) == Some(Seq::<u8>::empty()));
        assert(out@ + Seq::<u8>::empty() =~= out@);
    }
    Some(out)
}

} // verus!
