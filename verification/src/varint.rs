use vstd::prelude::*;

verus! {

/// The base-128 little-endian encoding of `n`: seven value bits per byte,
/// the high bit set on every byte except the last.
pub open spec fn varint_spec(n: nat) -> Seq<u8>
    decreases n,
{
    if n < 128 {
        seq![n as u8]
    } else {
        seq![(128 + (n % 128)) as u8] + varint_spec(n / 128)
    }
}

/// Reads one base-128 number from the front of `bytes`, returning it with
/// the remaining bytes; `None` when `bytes` ends inside the number.
pub open spec fn parse_varint(bytes: Seq<u8>) -> Option<(nat, Seq<u8>)>
    decreases bytes.len(),
{
    if bytes.len() == 0 {
        None
    } else if bytes[0] < 128 {
        Some((bytes[0] as nat, bytes.drop_first()))
    } else {
        match parse_varint(bytes.drop_first()) {
            Some(pr) => Some((((bytes[0] - 128) as nat + 128 * pr.0) as nat, pr.1)),
            None => None,
        }
    }
}

/// An encoded number is at least one byte long.
pub proof fn lemma_varint_len(n: nat)
    ensures
        varint_spec(n).len() >= 1,
{
}

/// A parsed number consumes at least one byte.
pub proof fn lemma_parse_varint_rest(bytes: Seq<u8>)
    ensures
        parse_varint(bytes) matches Some(pr) ==> pr.1.len() < bytes.len(),
    decreases bytes.len(),
{
    if bytes.len() > 0 && bytes[0] >= 128 {
        lemma_parse_varint_rest(bytes.drop_first());
    }
}

/// Parsing undoes encoding, whatever follows.
pub proof fn lemma_varint_round_trip(n: nat, rest: Seq<u8>)
    ensures
        parse_varint(varint_spec(n) + rest) == Some((n, rest)),
    decreases n,
{
    let whole = varint_spec(n) + rest;
    if n < 128 {
        assert(whole[0] == n as u8);
        assert(whole.drop_first() =~= rest);
    } else {
        let b: u8 = (128 + (n % 128)) as u8;
        assert(whole[0] == b);
        assert(b >= 128);
        assert(whole.drop_first() =~= varint_spec(n / 128) + rest);
        lemma_varint_round_trip(n / 128, rest);
        assert((b - 128) as nat == n % 128);
        assert(n % 128 + 128 * (n / 128) == n) by {
            vstd::arithmetic::div_mod::lemma_fundamental_div_mod(n as int, 128);
        }
    }
}

/// Appends the base-128 encoding of `n` to `out`.
pub fn write_varint(out: &mut Vec<u8>, n: u64)
    ensures
        final(out)@ == old(out)@ + varint_spec(n as nat),
{
    let mut m: u64 = n;
    let ghost start = out@;
    while m >= 128
        invariant
            start + varint_spec(n as nat) == out@ + varint_spec(m as nat),
        decreases m,
    {
        let ghost out0 = out@;
        let ghost m0 = m;
        out.push((128 + (m % 128)) as u8);
        m = m / 128;
        proof {
            assert(varint_spec(m0 as nat) == seq![(128 + (m0 as nat % 128)) as u8] + varint_spec(
                m0 as nat / 128,
            ));
            assert(m0 as nat % 128 == (m0 % 128) as nat);
            assert(m0 as nat / 128 == (m0 / 128) as nat);
            assert(out@ + varint_spec(m as nat) =~= out0 + varint_spec(m0 as nat));
        }
    }
    let ghost out0 = out@;
    out.push(m as u8);
    proof {
        assert(varint_spec(m as nat) == seq![m as u8]);
        assert(out@ =~= out0 + varint_spec(m as nat));
        assert(final(out)@ =~= start + varint_spec(n as nat));
    }
}

/// Reads one base-128 number starting at `pos`; `None` when the bytes end
/// inside the number or the value does not fit in sixty-four bits.
pub fn read_varint(bytes: &Vec<u8>, pos: usize) -> (r: Option<(u64, usize)>)
    requires
        pos <= bytes@.len(),
    ensures
        r matches Some(pr) ==> pos < pr.1 <= bytes@.len() && parse_varint(
            bytes@.subrange(pos as int, bytes@.len() as int),
        ) == Some((pr.0 as nat, bytes@.subrange(pr.1 as int, bytes@.len() as int))),
        r is None ==> (parse_varint(bytes@.subrange(pos as int, bytes@.len() as int)) matches Some(
            pr,
        ) ==> pr.0 > u64::MAX),
    decreases bytes@.len() - pos,
{
    let ghost tail = bytes@.subrange(pos as int, bytes@.len() as int);
    if pos >= bytes.len() {
        return None;
    }
    let b = bytes[pos];
    proof {
        assert(tail[0] == b);
    }
    if b < 128 {
        proof {
            assert(tail.drop_first() =~= bytes@.subrange(pos + 1, bytes@.len() as int));
        }
        Some((b as u64, pos + 1))
    } else {
        proof {
            assert(tail.drop_first() =~= bytes@.subrange(pos + 1, bytes@.len() as int));
        }
        match read_varint(bytes, pos + 1) {
            None => None,
            Some((m, p)) => {
                let low: u64 = (b - 128) as u64;
                if m > (u64::MAX - low) / 128 {
                    proof {
                        assert(parse_varint(tail) matches Some(pr) ==> pr.0 == low + 128 * (
                        m as nat));
                        assert(low + 128 * (m as nat) > u64::MAX);
                    }
                    None
                } else {
                    proof {
                        assert(low + 128 * m <= u64::MAX);
                    }
                    Some((low + 128 * m, p))
                }
            },
        }
    }
}

} // verus!
