//! Byte-level codecs for the index file: verified little-endian framing for
//! the fixed-width footer fields, and trusted wrappers around the zstd and
//! bincode calls that compress and serialize the variable-width sections.
use vstd::prelude::*;

verus! {

/// The eight little-endian bytes of a 64-bit integer.
pub open spec fn u64_le_bytes(x: u64) -> Seq<u8> {
    seq![
        (x & 0xff) as u8,
        ((x >> 8) & 0xff) as u8,
        ((x >> 16) & 0xff) as u8,
        ((x >> 24) & 0xff) as u8,
        ((x >> 32) & 0xff) as u8,
        ((x >> 40) & 0xff) as u8,
        ((x >> 48) & 0xff) as u8,
        ((x >> 56) & 0xff) as u8,
    ]
}

/// The 64-bit integer read from eight little-endian bytes.
pub open spec fn u64_from_le_bytes(s: Seq<u8>) -> u64
    recommends
        s.len() == 8,
{
    (s[0] as u64) | ((s[1] as u64) << 8) | ((s[2] as u64) << 16) | ((s[3] as u64) << 24)
        | ((s[4] as u64) << 32) | ((s[5] as u64) << 40) | ((s[6] as u64) << 48)
        | ((s[7] as u64) << 56)
}

/// Reading back the eight little-endian bytes of `x` yields `x` again.
pub proof fn lemma_u64_le_round_trip(x: u64)
    ensures
        u64_from_le_bytes(u64_le_bytes(x)) == x,
{
    let s = u64_le_bytes(x);
    assert(s[0] == (x & 0xff) as u8);
    assert(s[1] == ((x >> 8) & 0xff) as u8);
    assert(s[2] == ((x >> 16) & 0xff) as u8);
    assert(s[3] == ((x >> 24) & 0xff) as u8);
    assert(s[4] == ((x >> 32) & 0xff) as u8);
    assert(s[5] == ((x >> 40) & 0xff) as u8);
    assert(s[6] == ((x >> 48) & 0xff) as u8);
    assert(s[7] == ((x >> 56) & 0xff) as u8);
    assert(((x & 0xff) as u8 as u64) | ((((x >> 8) & 0xff) as u8 as u64) << 8) | ((((x >> 16)
        & 0xff) as u8 as u64) << 16) | ((((x >> 24) & 0xff) as u8 as u64) << 24) | ((((x >> 32)
        & 0xff) as u8 as u64) << 32) | ((((x >> 40) & 0xff) as u8 as u64) << 40) | ((((x >> 48)
        & 0xff) as u8 as u64) << 48) | ((((x >> 56) & 0xff) as u8 as u64) << 56) == x) by (bit_vector);
}

/// Appends the eight little-endian bytes of `x` to `out`.
pub fn push_u64_le(out: &mut Vec<u8>, x: u64)
    ensures
        final(out)@ == old(out)@ + u64_le_bytes(x),
{
    out.push((x & 0xff) as u8);
    out.push(((x >> 8) & 0xff) as u8);
    out.push(((x >> 16) & 0xff) as u8);
    out.push(((x >> 24) & 0xff) as u8);
    out.push(((x >> 32) & 0xff) as u8);
    out.push(((x >> 40) & 0xff) as u8);
    out.push(((x >> 48) & 0xff) as u8);
    out.push(((x >> 56) & 0xff) as u8);
    assert(out@ =~= old(out)@ + u64_le_bytes(x));
}

/// Reads the 64-bit little-endian integer stored at `pos` in `bytes`.
pub fn read_u64_le(bytes: &Vec<u8>, pos: usize) -> (r: u64)
    requires
        pos + 8 <= bytes@.len(),
    ensures
        r == u64_from_le_bytes(bytes@.subrange(pos as int, pos + 8)),
{
    let n = bytes.len();
    let r = (bytes[pos] as u64) | ((bytes[pos + 1] as u64) << 8u64)
        | ((bytes[pos + 2] as u64) << 16u64) | ((bytes[pos + 3] as u64) << 24u64)
        | ((bytes[pos + 4] as u64) << 32u64) | ((bytes[pos + 5] as u64) << 40u64)
        | ((bytes[pos + 6] as u64) << 48u64) | ((bytes[pos + 7] as u64) << 56u64);
    proof {
        let s = bytes@.subrange(pos as int, pos + 8);
        assert(s[0] == bytes@[pos as int]);
        assert(s[1] == bytes@[pos + 1]);
        assert(s[2] == bytes@[pos + 2]);
        assert(s[3] == bytes@[pos + 3]);
        assert(s[4] == bytes@[pos + 4]);
        assert(s[5] == bytes@[pos + 5]);
        assert(s[6] == bytes@[pos + 6]);
        assert(s[7] == bytes@[pos + 7]);
    }
    r
}

/// The zstd frame produced by compressing `data` at `level`.  zstd is
/// deterministic for a fixed library version and level, so the result is a
/// function of the arguments alone.
pub uninterp spec fn zstd_of(data: Seq<u8>, level: int) -> Seq<u8>;

/// The bincode encoding of a vector of bytes.
pub uninterp spec fn bincode_u8s_of(data: Seq<u8>) -> Seq<u8>;

/// The bincode encoding of a vector of 64-bit integers.
pub uninterp spec fn bincode_u64s_of(data: Seq<u64>) -> Seq<u8>;

/// Relies on zstd::stream::encode_all: compressing an in-memory buffer at a
/// valid level (0 selects the default) succeeds and yields a non-empty zstd
/// frame that depends on the input and level alone.
#[verifier::external_body]
pub fn zstd_compress(data: &Vec<u8>, level: i32) -> (r: Option<Vec<u8>>)
    requires
        0 <= level <= 22,
    ensures
        r is Some,
        r matches Some(v) ==> v@ == zstd_of(data@, level as int) && v@.len() > 0,
{
    zstd::stream::encode_all(&data[..], level).ok()
}

/// Relies on zstd::stream::decode_all: decompressing a zstd frame returns
/// exactly the bytes that were compressed to produce it.
#[verifier::external_body]
pub fn zstd_decompress(data: &Vec<u8>) -> (r: Option<Vec<u8>>)
    ensures
        r is Some <== exists|orig: Seq<u8>, level: int| data@ == #[trigger] zstd_of(orig, level),
        r matches Some(v) ==> forall|orig: Seq<u8>, level: int| data@ == #[trigger] zstd_of(orig, level) ==> v@ == orig,
{
    zstd::stream::decode_all(&data[..]).ok()
}

/// Relies on bincode::serialize for `Vec<u8>`: a deterministic encoding of the
/// input bytes; with no size limit and an in-memory writer it cannot fail.
#[verifier::external_body]
pub fn bincode_serialize_u8s(data: &Vec<u8>) -> (r: Option<Vec<u8>>)
    ensures
        r is Some,
        r matches Some(v) ==> v@ == bincode_u8s_of(data@),
{
    bincode::serialize(data).ok()
}

/// Relies on bincode::deserialize for `Vec<u8>`: deserializing a bincode
/// encoding returns exactly the vector that was serialized.
#[verifier::external_body]
pub fn bincode_deserialize_u8s(data: &Vec<u8>) -> (r: Option<Vec<u8>>)
    ensures
        r is Some <== exists|orig: Seq<u8>| data@ == #[trigger] bincode_u8s_of(orig),
        r matches Some(v) ==> forall|orig: Seq<u8>| data@ == #[trigger] bincode_u8s_of(orig) ==> v@ == orig,
{
    bincode::deserialize(&data[..]).ok()
}

/// Relies on bincode::serialize for `Vec<u64>`: a deterministic encoding of
/// the input integers; with no size limit and an in-memory writer it cannot
/// fail.
#[verifier::external_body]
pub fn bincode_serialize_u64s(data: &Vec<u64>) -> (r: Option<Vec<u8>>)
    ensures
        r is Some,
        r matches Some(v) ==> v@ == bincode_u64s_of(data@),
{
    bincode::serialize(data).ok()
}

/// Relies on bincode::deserialize for `Vec<u64>`: deserializing a bincode
/// encoding returns exactly the vector that was serialized.
#[verifier::external_body]
pub fn bincode_deserialize_u64s(data: &Vec<u8>) -> (r: Option<Vec<u64>>)
    ensures
        r is Some <== exists|orig: Seq<u64>| data@ == #[trigger] bincode_u64s_of(orig),
        r matches Some(v) ==> forall|orig: Seq<u64>| data@ == #[trigger] bincode_u64s_of(orig) ==> v@ == orig,
{
    bincode::deserialize(&data[..]).ok()
}

} // verus!
