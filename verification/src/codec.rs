use vstd::prelude::*;

verus! {

/// What the zlib codec produces for a given compression level and input.
pub uninterp spec fn deflate_of(level: u32, bytes: Seq<u8>) -> Seq<u8>;

/// What zlib decompression yields on a byte sequence: `None` when the bytes
/// are not one well-formed zlib stream.
pub uninterp spec fn inflate_of(bytes: Seq<u8>) -> Option<Seq<u8>>;

/// The CRC-32 checksum of a byte sequence.
pub uninterp spec fn crc32_of(bytes: Seq<u8>) -> u32;

/// The SHA-1 digest of a byte sequence.
pub uninterp spec fn sha1_of(bytes: Seq<u8>) -> Seq<u8>;

/// Relies on flate2's `write::ZlibEncoder`: the compressed stream is a
/// function of the level and the input bytes alone, and decompressing it
/// yields the input again.  Compressing into an in-memory vector cannot
/// fail for a valid level (the encoder only propagates the sink's write
/// errors, and a vector sink has none), so the bytes are returned outright.
#[verifier::external_body]
pub(crate) fn deflate(bytes: &Vec<u8>, level: u32) -> (r: Vec<u8>)
    requires
        level <= 9,
    ensures
        r@ == deflate_of(level, bytes@),
        inflate_of(r@) == Some(bytes@),
{
    let mut enc = flate2::write::ZlibEncoder::new(Vec::new(), flate2::Compression::new(level));
    std::io::Write::write_all(&mut enc, bytes.as_slice()).unwrap();
    enc.finish().unwrap()
}

/// Relies on flate2's `write::ZlibDecoder`: decompression is a function of
/// the input bytes alone, and fails exactly on malformed streams.
#[verifier::external_body]
pub(crate) fn inflate(bytes: &Vec<u8>) -> (r: Option<Vec<u8>>)
    ensures
        r matches Some(v) ==> inflate_of(bytes@) == Some(v@),
        r is None ==> inflate_of(bytes@) is None,
{
    let mut dec = flate2::write::ZlibDecoder::new(Vec::new());
    if std::io::Write::write_all(&mut dec, bytes.as_slice()).is_err() {
        return None;
    }
    dec.finish().ok()
}

/// Relies on `crc32fast::hash`: the checksum depends on the bytes alone.
#[verifier::external_body]
pub(crate) fn crc32(bytes: &Vec<u8>) -> (r: u32)
    ensures
        r == crc32_of(bytes@),
{
    crc32fast::hash(bytes.as_slice())
}

/// Relies on `sha1::Sha1` through the `Digest` interface: a twenty-byte
/// digest that depends on the bytes alone.
#[verifier::external_body]
pub(crate) fn sha1(bytes: &Vec<u8>) -> (r: Vec<u8>)
    ensures
        r@ == sha1_of(bytes@),
        r@.len() == 20,
{
    let digest = <sha1::Sha1 as sha1::Digest>::digest(bytes.as_slice());
    digest.as_slice().to_vec()
}

} // verus!
