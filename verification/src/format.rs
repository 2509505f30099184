//! The on-disk index layout (chunked-FM variant): FM chunks, posting-list
//! chunks, the two offset tables, the cumulative-count table, and a
//! fixed-width footer of four little-endian offsets, written once and
//! sequentially.  A reader bootstraps from the footer alone.
use vstd::prelude::*;
use crate::codec::{
    bincode_deserialize_u64s, bincode_deserialize_u8s, bincode_serialize_u64s,
    bincode_serialize_u8s, bincode_u64s_of, bincode_u8s_of, lemma_u64_le_round_trip, push_u64_le,
    read_u64_le, u64_from_le_bytes, u64_le_bytes, zstd_compress, zstd_decompress, zstd_of,
};
use crate::error::IndexError;
use crate::fm::{
    build_cumulative_counts, build_fm_chunks, chunk_count, chunk_wf, count_lt, fm_wf, occ,
    FmChunk, lemma_occ_bounds, lemma_count_lt_bounds,
};
use crate::search::{
    bs_spec, cc_wf, fm_backward_search, lemma_bs_from_bounds, postings_of, resolve_postings,
};
use crate::suffix::{build_suffix_array, bwt_of, derive_bwt_and_owners, owners_of, sa_sorted};
use crate::encode::{corpus_owners, corpus_symbols, encode_corpus};
use crate::wavelet::{wavelet_backward_search, wnode_wf, WaveletNode};
use crate::FM_CHUNK_TOKS;

verus! {

/// The end position of chunk `j` in a stream of length `n`.
pub open spec fn chunk_end(n: int, j: int, stride: int) -> int {
    if (j + 1) * stride <= n {
        (j + 1) * stride
    } else {
        n
    }
}

/// The cumulative-count table of a BWT, as the 257 stored integers.
pub open spec fn cc_seq(bwt: Seq<u8>) -> Seq<u64> {
    Seq::new(257, |v: int| count_lt(bwt, v) as u64)
}

/// The per-symbol frequencies before chunk `j`, as the 256 stored integers.
pub open spec fn chunk_base_seq(bwt: Seq<u8>, j: int, stride: int) -> Seq<u64> {
    Seq::new(256, |v: int| occ(bwt, v as u8, j * stride) as u64)
}

/// The symbols of chunk `j`.
pub open spec fn chunk_syms(bwt: Seq<u8>, j: int, stride: int) -> Seq<u8> {
    bwt.subrange(j * stride, chunk_end(bwt.len() as int, j, stride))
}

/// The serialized bytes of FM chunk `j`: a length-prefixed compressed
/// base-frequency table followed by the compressed chunk symbols.
pub open spec fn fm_chunk_blob(bwt: Seq<u8>, j: int, stride: int) -> Seq<u8> {
    let cb = zstd_of(bincode_u64s_of(chunk_base_seq(bwt, j, stride)), 10);
    let sb = zstd_of(bincode_u8s_of(chunk_syms(bwt, j, stride)), 10);
    u64_le_bytes(cb.len() as u64) + cb + sb
}

/// The serialized bytes of posting-list chunk `j`: the compressed owner-id
/// slice cut at the same stride as the FM chunks.
pub open spec fn plist_blob(idx: Seq<u64>, j: int, stride: int) -> Seq<u8> {
    zstd_of(bincode_u64s_of(idx.subrange(j * stride, chunk_end(idx.len() as int, j, stride))), 0)
}

/// The full byte layout of a chunked-FM index file for `bwt` and `idx`,
/// with the two offset tables and the three section offsets named: the FM
/// chunk section starts at byte 0, the posting section follows it seamlessly
/// and ends at `fco`, where the three compressed tables and the footer sit.
pub open spec fn fm_file_layout(
    file: Seq<u8>,
    bwt: Seq<u8>,
    idx: Seq<u64>,
    stride: int,
    fmoff: Seq<u64>,
    ploff: Seq<u64>,
    fco: u64,
    plo: u64,
    tco: u64,
) -> bool {
    let m = file.len() as int;
    let n = bwt.len() as int;
    let nch = chunk_count(n, stride);
    &&& idx.len() == n
    &&& n <= usize::MAX
    &&& stride >= 1
    &&& m >= 32
    &&& file.subrange(m - 32, m - 24) == u64_le_bytes(fco)
    &&& file.subrange(m - 24, m - 16) == u64_le_bytes(plo)
    &&& file.subrange(m - 16, m - 8) == u64_le_bytes(tco)
    &&& file.subrange(m - 8, m) == u64_le_bytes(n as u64)
    &&& fco as int <= plo as int <= tco as int <= m - 32
    &&& file.subrange(fco as int, plo as int) == zstd_of(bincode_u64s_of(fmoff), 0)
    &&& file.subrange(plo as int, tco as int) == zstd_of(bincode_u64s_of(ploff), 0)
    &&& file.subrange(tco as int, m - 32) == zstd_of(bincode_u64s_of(cc_seq(bwt)), 0)
    &&& fmoff.len() == nch + 1
    &&& ploff.len() == nch + 1
    &&& fmoff[0] == 0
    &&& ploff[0] == fmoff[nch]
    &&& ploff[nch] as int == fco as int
    &&& forall|j: int| 0 <= j < nch ==> (#[trigger] fmoff[j] as int) < fmoff[j + 1] as int
    &&& forall|j: int| 0 <= j < nch ==> (#[trigger] ploff[j] as int) < ploff[j + 1] as int
    &&& forall|j: int| 0 <= j <= nch ==> #[trigger] fmoff[j] as int <= m
    &&& forall|j: int| 0 <= j <= nch ==> #[trigger] ploff[j] as int <= m
    &&& forall|j: int|
        0 <= j < nch ==> file.subrange(#[trigger] fmoff[j] as int, fmoff[j + 1] as int)
            == fm_chunk_blob(bwt, j, stride)
    &&& forall|j: int|
        0 <= j < nch ==> file.subrange(#[trigger] ploff[j] as int, ploff[j + 1] as int)
            == plist_blob(idx, j, stride)
}

/// What it means for `file` to be the serialized chunked-FM index of the BWT
/// `bwt` and owner array `idx`: some pair of offset tables and some three
/// table offsets describe it chunk for chunk.
pub open spec fn is_fm_index_file(file: Seq<u8>, bwt: Seq<u8>, idx: Seq<u64>, stride: int) -> bool {
    exists|fmoff: Seq<u64>, ploff: Seq<u64>, fco: u64, plo: u64, tco: u64| #[trigger] fm_file_layout(
        file,
        bwt,
        idx,
        stride,
        fmoff,
        ploff,
        fco,
        plo,
        tco,
    )
}

/// A later append leaves earlier byte ranges in place.
pub proof fn lemma_append_frame(a: Seq<u8>, b: Seq<u8>, x: int, y: int)
    requires
        0 <= x <= y <= a.len(),
    ensures
        (a + b).subrange(x, y) == a.subrange(x, y),
{
    assert((a + b).subrange(x, y) =~= a.subrange(x, y));
}

/// An appended blob occupies exactly the range after the old end.
pub proof fn lemma_append_tail(a: Seq<u8>, b: Seq<u8>)
    ensures
        (a + b).subrange(a.len() as int, (a + b).len() as int) == b,
{
    assert((a + b).subrange(a.len() as int, (a + b).len() as int) =~= b);
}

/// Appends `piece` to `out`.
fn append_bytes(out: &mut Vec<u8>, piece: &Vec<u8>)
    ensures
        final(out)@ == old(out)@ + piece@,
{
    let mut i: usize = 0;
    while i < piece.len()
        invariant
            i <= piece@.len(),
            out@ == old(out)@ + piece@.take(i as int),
        decreases piece@.len() - i,
    {
        out.push(piece[i]);
        proof {
            assert(old(out)@ + piece@.take(i + 1) =~= (old(out)@ + piece@.take(i as int)).push(
                piece@[i as int],
            ));
        }
        i = i + 1;
    }
    proof {
        assert(piece@.take(piece@.len() as int) =~= piece@);
    }
}

/// Serializes one FM chunk into its on-disk blob.
fn write_fm_chunk_blob(ch: &FmChunk, Ghost(bwt): Ghost<Seq<u8>>, Ghost(j): Ghost<int>, stride:
    usize) -> (blob: Vec<u8>)
    requires
        chunk_wf(*ch, bwt, j * (stride as int), stride as int),
        0 <= j,
        bwt.len() <= usize::MAX,
    ensures
        blob@ == fm_chunk_blob(bwt, j, stride as int),
{
    proof {
        assert forall|v: int| 0 <= v < 256 implies #[trigger] chunk_base_seq(bwt, j, stride as int)[v]
            == ch.counts@[v] by {
            lemma_occ_bounds(bwt, v as u8, j * (stride as int));
        }
        assert(ch.counts@ =~= chunk_base_seq(bwt, j, stride as int));
        assert((j + 1) * (stride as int) == j * (stride as int) + stride) by (nonlinear_arith);
        assert(ch.symbols@ =~= chunk_syms(bwt, j, stride as int));
    }
    let sc = match bincode_serialize_u64s(&ch.counts) {
        Some(v) => v,
        None => vstd::pervasive::unreached(),
    };
    let cb = match zstd_compress(&sc, 10) {
        Some(v) => v,
        None => vstd::pervasive::unreached(),
    };
    let ss = match bincode_serialize_u8s(&ch.symbols) {
        Some(v) => v,
        None => vstd::pervasive::unreached(),
    };
    let sb = match zstd_compress(&ss, 10) {
        Some(v) => v,
        None => vstd::pervasive::unreached(),
    };
    let mut blob: Vec<u8> = Vec::new();
    push_u64_le(&mut blob, cb.len() as u64);
    append_bytes(&mut blob, &cb);
    append_bytes(&mut blob, &sb);
    proof {
        assert(blob@ =~= fm_chunk_blob(bwt, j, stride as int));
    }
    blob
}

/// Serializes one posting-list chunk into its on-disk blob.
fn write_plist_blob(idx: &Vec<u64>, start: usize, end: usize, Ghost(j): Ghost<int>, stride: usize)
    -> (blob: Vec<u8>)
    requires
        0 <= j,
        start == j * (stride as int),
        end as int == chunk_end(idx@.len() as int, j, stride as int),
        start <= end <= idx@.len(),
    ensures
        blob@ == plist_blob(idx@, j, stride as int),
        blob@.len() > 0,
{
    let mut slice: Vec<u64> = Vec::new();
    let mut i: usize = start;
    while i < end
        invariant
            start <= i <= end <= idx@.len(),
            slice@ == idx@.subrange(start as int, i as int),
        decreases end - i,
    {
        slice.push(idx[i]);
        proof {
            assert(idx@.subrange(start as int, i + 1) =~= idx@.subrange(
                start as int,
                i as int,
            ).push(idx@[i as int]));
        }
        i = i + 1;
    }
    let sl = match bincode_serialize_u64s(&slice) {
        Some(v) => v,
        None => vstd::pervasive::unreached(),
    };
    let blob = match zstd_compress(&sl, 0) {
        Some(v) => v,
        None => vstd::pervasive::unreached(),
    };
    blob
}

/// Serializes all FM chunks into one section, returning the section bytes
/// and the chunk byte offsets within it (one per boundary, starting at 0).
fn write_fm_section(chunks: &Vec<FmChunk>, Ghost(bwt): Ghost<Seq<u8>>, stride: usize) -> (t: (
    Vec<u8>,
    Vec<u64>,
))
    requires
        fm_wf(chunks@, bwt, stride as int),
        bwt.len() <= usize::MAX,
    ensures
        ({
            let nch = chunks@.len() as int;
            &&& t.1@.len() == nch + 1
            &&& t.1@[0] == 0
            &&& forall|j: int| 0 <= j < nch ==> (#[trigger] t.1@[j] as int) < t.1@[j + 1] as int
            &&& forall|j: int| 0 <= j <= nch ==> #[trigger] t.1@[j] as int <= t.0@.len()
            &&& t.1@[nch] as int == t.0@.len()
            &&& forall|j: int|
                0 <= j < nch ==> t.0@.subrange(#[trigger] t.1@[j] as int, t.1@[j + 1] as int)
                    == fm_chunk_blob(bwt, j, stride as int)
        }),
{
    let nch = chunks.len();
    let mut out: Vec<u8> = Vec::new();
    let mut off: Vec<u64> = Vec::new();
    off.push(0);
    let mut j: usize = 0;
    while j < nch
        invariant
            nch == chunks@.len(),
            fm_wf(chunks@, bwt, stride as int),
            bwt.len() <= usize::MAX,
            j <= nch,
            off@.len() == j + 1,
            off@[0] == 0,
            forall|t: int| 0 <= t < j ==> (#[trigger] off@[t] as int) < off@[t + 1] as int,
            forall|t: int| 0 <= t <= j ==> #[trigger] off@[t] as int <= out@.len(),
            off@[j as int] as int == out@.len(),
            forall|t: int|
                0 <= t < j ==> out@.subrange(#[trigger] off@[t] as int, off@[t + 1] as int)
                    == fm_chunk_blob(bwt, t, stride as int),
        decreases nch - j,
    {
        let ghost gj = j as int;
        proof {
            assert(chunk_wf(chunks@[gj], bwt, gj * (stride as int), stride as int));
        }
        let blob = write_fm_chunk_blob(&chunks[j], Ghost(bwt), Ghost(gj), stride);
        let ghost old_out = out@;
        append_bytes(&mut out, &blob);
        off.push(out.len() as u64);
        proof {
            assert(blob@.len() >= 8);
            lemma_append_tail(old_out, blob@);
            assert forall|t: int| 0 <= t < gj implies out@.subrange(
                #[trigger] off@[t] as int,
                off@[t + 1] as int,
            ) == fm_chunk_blob(bwt, t, stride as int) by {
                lemma_append_frame(old_out, blob@, off@[t] as int, off@[t + 1] as int);
            }
        }
        j = j + 1;
    }
    (out, off)
}

/// Serializes all posting-list chunks into one section, cut at the same
/// boundaries as the FM chunks, with offsets within the section.
fn write_plist_section(idx: &Vec<u64>, nch: usize, stride: usize) -> (t: (Vec<u8>, Vec<u64>))
    requires
        stride >= 1,
        nch as int == chunk_count(idx@.len() as int, stride as int),
    ensures
        t.1@.len() == nch + 1,
        t.1@[0] == 0,
        forall|j: int| 0 <= j < nch ==> (#[trigger] t.1@[j] as int) < t.1@[j + 1] as int,
        forall|j: int| 0 <= j <= nch ==> #[trigger] t.1@[j] as int <= t.0@.len(),
        t.1@[nch as int] as int == t.0@.len(),
        forall|j: int|
            0 <= j < nch ==> t.0@.subrange(#[trigger] t.1@[j] as int, t.1@[j + 1] as int)
                == plist_blob(idx@, j, stride as int),
{
    let n = idx.len();
    let mut out: Vec<u8> = Vec::new();
    let mut off: Vec<u64> = Vec::new();
    off.push(0);
    let mut j: usize = 0;
    let mut start: usize = 0;
    while j < nch
        invariant
            stride >= 1,
            n == idx@.len(),
            nch as int == chunk_count(n as int, stride as int),
            j <= nch,
            start == j * (stride as int) || (j == nch && start == n),
            start <= n,
            off@.len() == j + 1,
            off@[0] == 0,
            forall|t: int| 0 <= t < j ==> (#[trigger] off@[t] as int) < off@[t + 1] as int,
            forall|t: int| 0 <= t <= j ==> #[trigger] off@[t] as int <= out@.len(),
            off@[j as int] as int == out@.len(),
            forall|t: int|
                0 <= t < j ==> out@.subrange(#[trigger] off@[t] as int, off@[t + 1] as int)
                    == plist_blob(idx@, t, stride as int),
        decreases nch - j,
    {
        let ghost gj = j as int;
        let ghost gst = stride as int;
        let ghost gn = n as int;
        proof {
            assert(start == gj * gst);
            assert((gj + 1) * gst == gj * gst + gst) by (nonlinear_arith);
            if gj + 1 < nch as int {
                // interior chunk: the next boundary is within the stream
                vstd::arithmetic::div_mod::lemma_fundamental_div_mod(gn - 1, gst);
                assert((gj + 1) * gst <= gn) by (nonlinear_arith)
                    requires
                        gj + 1 <= (gn - 1) / gst,
                        gst >= 1,
                        gn - 1 == gst * ((gn - 1) / gst) + (gn - 1) % gst,
                        0 <= (gn - 1) % gst,
                ;
            }
        }
        let end = if n - start >= stride {
            start + stride
        } else {
            n
        };
        proof {
            assert(end as int == chunk_end(gn, gj, gst));
        }
        let blob = write_plist_blob(idx, start, end, Ghost(gj), stride);
        let ghost old_out = out@;
        append_bytes(&mut out, &blob);
        off.push(out.len() as u64);
        proof {
            lemma_append_tail(old_out, blob@);
            assert forall|t: int| 0 <= t < gj implies out@.subrange(
                #[trigger] off@[t] as int,
                off@[t + 1] as int,
            ) == plist_blob(idx@, t, stride as int) by {
                lemma_append_frame(old_out, blob@, off@[t] as int, off@[t + 1] as int);
            }
        }
        j = j + 1;
        if end < n {
            start = end;
        } else {
            start = n;
            proof {
                // only the last chunk ends at the stream's tail
                if (j as int) < nch as int {
                    vstd::arithmetic::div_mod::lemma_fundamental_div_mod(gn - 1, gst);
                    assert(false) by (nonlinear_arith)
                        requires
                            chunk_end(gn, gj, gst) == gn,
                            (gj + 1) * gst > gn || (gj + 1) * gst == gn,
                            gj + 1 < (gn - 1) / gst + 1,
                            gst >= 1,
                            gn - 1 == gst * ((gn - 1) / gst) + (gn - 1) % gst,
                            0 <= (gn - 1) % gst < gst,
                            gn >= 1,
                    ;
                }
            }
        }
    }
    (out, off)
}

/// Compresses one table of 64-bit integers for the metadata area.
fn write_table_blob(table: &Vec<u64>) -> (b: Vec<u8>)
    ensures
        b@ == zstd_of(bincode_u64s_of(table@), 0),
{
    let st = match bincode_serialize_u64s(table) {
        Some(v) => v,
        None => vstd::pervasive::unreached(),
    };
    match zstd_compress(&st, 0) {
        Some(v) => v,
        None => vstd::pervasive::unreached(),
    }
}

/// Shifts section-relative offsets by the section's base position.
fn shift_offsets(off: &Vec<u64>, base: usize) -> (v: Vec<u64>)
    requires
        forall|t: int| 0 <= t < off@.len() ==> #[trigger] off@[t] as int + base <= usize::MAX,
    ensures
        v@.len() == off@.len(),
        forall|t: int| 0 <= t < off@.len() ==> #[trigger] v@[t] as int == off@[t] as int + base,
{
    let mut out: Vec<u64> = Vec::new();
    let mut i: usize = 0;
    while i < off.len()
        invariant
            i <= off@.len(),
            out@.len() == i,
            forall|t: int| 0 <= t < off@.len() ==> #[trigger] off@[t] as int + base <= usize::MAX,
            forall|t: int| 0 <= t < i ==> #[trigger] out@[t] as int == off@[t] as int + base,
        decreases off@.len() - i,
    {
        out.push(off[i] + base as u64);
        i = i + 1;
    }
    out
}

/// The assembled byte string of sections, tables and footer satisfies the
/// file-layout predicate.
#[verifier::rlimit(100)]
pub proof fn lemma_assembled_file(
    out: Seq<u8>,
    s_fm: Seq<u8>,
    pl_sec: Seq<u8>,
    fm_table: Seq<u8>,
    pl_table: Seq<u8>,
    cc_table: Seq<u8>,
    fco: u64,
    plo: u64,
    tco: u64,
    bwt: Seq<u8>,
    idx: Seq<u64>,
    fmoff: Seq<u64>,
    ploff: Seq<u64>,
    pl_rel: Seq<u64>,
    stride: int,
)
    requires
        out == s_fm + pl_sec + fm_table + pl_table + cc_table + u64_le_bytes(fco) + u64_le_bytes(
            plo,
        ) + u64_le_bytes(tco) + u64_le_bytes(bwt.len() as u64),
        idx.len() == bwt.len(),
        bwt.len() <= usize::MAX,
        stride >= 1,
        fco as int == s_fm.len() + pl_sec.len(),
        plo as int == fco as int + fm_table.len(),
        tco as int == plo as int + pl_table.len(),
        fm_table == zstd_of(bincode_u64s_of(fmoff), 0),
        pl_table == zstd_of(bincode_u64s_of(ploff), 0),
        cc_table == zstd_of(bincode_u64s_of(cc_seq(bwt)), 0),
        fmoff.len() == chunk_count(bwt.len() as int, stride) + 1,
        ploff.len() == chunk_count(bwt.len() as int, stride) + 1,
        pl_rel.len() == ploff.len(),
        fmoff[0] == 0,
        fmoff[fmoff.len() - 1] as int == s_fm.len(),
        pl_rel[0] == 0,
        pl_rel[pl_rel.len() - 1] as int == pl_sec.len(),
        forall|j: int|
            0 <= j < fmoff.len() - 1 ==> (#[trigger] fmoff[j] as int) < fmoff[j + 1] as int,
        forall|j: int| 0 <= j < fmoff.len() ==> #[trigger] fmoff[j] as int <= s_fm.len(),
        forall|j: int|
            0 <= j < pl_rel.len() - 1 ==> (#[trigger] pl_rel[j] as int) < pl_rel[j + 1] as int,
        forall|j: int| 0 <= j < pl_rel.len() ==> #[trigger] pl_rel[j] as int <= pl_sec.len(),
        forall|j: int|
            0 <= j < pl_rel.len() ==> #[trigger] ploff[j] as int == pl_rel[j] as int + s_fm.len(),
        forall|j: int|
            0 <= j < fmoff.len() - 1 ==> s_fm.subrange(
                #[trigger] fmoff[j] as int,
                fmoff[j + 1] as int,
            ) == fm_chunk_blob(bwt, j, stride),
        forall|j: int|
            0 <= j < pl_rel.len() - 1 ==> pl_sec.subrange(
                #[trigger] pl_rel[j] as int,
                pl_rel[j + 1] as int,
            ) == plist_blob(idx, j, stride),
    ensures
        fm_file_layout(out, bwt, idx, stride, fmoff, ploff, fco, plo, tco),
        is_fm_index_file(out, bwt, idx, stride),
        out.subrange(out.len() - 32, out.len() - 24) == u64_le_bytes(fco),
{
    let m = out.len() as int;
    let nch = chunk_count(bwt.len() as int, stride);
    assert(out.subrange(m - 32, m - 24) =~= u64_le_bytes(fco));
    assert(out.subrange(m - 24, m - 16) =~= u64_le_bytes(plo));
    assert(out.subrange(m - 16, m - 8) =~= u64_le_bytes(tco));
    assert(out.subrange(m - 8, m) =~= u64_le_bytes(bwt.len() as u64));
    assert(out.subrange(fco as int, plo as int) =~= fm_table);
    assert(out.subrange(plo as int, tco as int) =~= pl_table);
    assert(out.subrange(tco as int, m - 32) =~= cc_table);
    assert forall|j: int| 0 <= j < nch implies out.subrange(
        #[trigger] fmoff[j] as int,
        fmoff[j + 1] as int,
    ) == fm_chunk_blob(bwt, j, stride) by {
        assert(out.subrange(fmoff[j] as int, fmoff[j + 1] as int) =~= s_fm.subrange(
            fmoff[j] as int,
            fmoff[j + 1] as int,
        ));
    }
    assert forall|j: int| 0 <= j < nch implies out.subrange(
        #[trigger] ploff[j] as int,
        ploff[j + 1] as int,
    ) == plist_blob(idx, j, stride) by {
        assert(out.subrange(ploff[j] as int, ploff[j + 1] as int) =~= pl_sec.subrange(
            pl_rel[j] as int,
            pl_rel[j + 1] as int,
        ));
    }
    assert(fm_file_layout(out, bwt, idx, stride, fmoff, ploff, fco, plo, tco)) by {
        assert(forall|j: int|
            0 <= j < nch ==> (#[trigger] ploff[j] as int) < ploff[j + 1] as int);
        assert(forall|j: int| 0 <= j <= nch ==> #[trigger] fmoff[j] as int <= m);
        assert(forall|j: int| 0 <= j <= nch ==> #[trigger] ploff[j] as int <= m);
    }
}

/// Writes the complete chunked-FM index file for a BWT and its owner array:
/// FM chunks, posting-list chunks, the two offset tables, the C table and the
/// footer, in one forward-only pass.  Writing an in-memory file always
/// succeeds; the result holds the file bytes and the `(cache_start,
/// cache_end)` byte range of the cacheable metadata, which starts exactly at
/// the offset-table position the footer records and runs to the file's end.
#[verifier::rlimit(100)]
pub fn write_fm_index(bwt: &Vec<u8>, idx: &Vec<u64>) -> (r: Result<
    (Vec<u8>, usize, usize),
    IndexError,
>)
    requires
        idx@.len() == bwt@.len(),
    ensures
        r is Ok,
        r matches Ok(t) ==> is_fm_index_file(t.0@, bwt@, idx@, FM_CHUNK_TOKS as int),
        r matches Ok(t) ==> t.1 <= t.2 == t.0@.len() && t.0@.len() >= 32,
        r matches Ok(t) ==> u64_from_le_bytes(
            t.0@.subrange(t.0@.len() - 32, t.0@.len() - 24),
        ) == t.1 as u64,
{
    let stride = FM_CHUNK_TOKS;
    let ghost gst = stride as int;
    let n = bwt.len();
    let ghost gn = n as int;
    let chunks = build_fm_chunks(bwt, stride);
    let c = build_cumulative_counts(bwt);
    let nch = chunks.len();

    let (fm_sec, fm_rel) = write_fm_section(&chunks, Ghost(bwt@), stride);
    let (pl_sec, pl_rel) = write_plist_section(idx, nch, stride);
    let fm_len = fm_sec.len();
    let mut out = fm_sec;
    let ghost s_fm = out@;
    append_bytes(&mut out, &pl_sec);
    let cache_start = out.len();
    let fco = cache_start as u64;
    proof {
        assert(cache_start == fm_len + pl_sec@.len());
        assert forall|t: int| 0 <= t < pl_rel@.len() implies #[trigger] pl_rel@[t] as int + fm_len
            <= usize::MAX by {
            assert(pl_rel@[t] as int <= pl_sec@.len());
        }
    }
    let fmoff = shift_offsets(&fm_rel, 0);
    let ploff = shift_offsets(&pl_rel, fm_len);

    proof {
        assert forall|v: int| 0 <= v < 257 implies #[trigger] cc_seq(bwt@)[v] == c@[v] by {
            lemma_count_lt_bounds(bwt@, v);
        }
        assert(c@ =~= cc_seq(bwt@));
        assert(fmoff@ =~= fm_rel@);
    }
    let fm_table = write_table_blob(&fmoff);
    let pl_table = write_table_blob(&ploff);
    let cc_table = write_table_blob(&c);

    append_bytes(&mut out, &fm_table);
    let plo = out.len() as u64;
    append_bytes(&mut out, &pl_table);
    let tco = out.len() as u64;
    append_bytes(&mut out, &cc_table);
    push_u64_le(&mut out, fco);
    push_u64_le(&mut out, plo);
    push_u64_le(&mut out, tco);
    push_u64_le(&mut out, n as u64);
    let cache_end = out.len();

    proof {
        lemma_assembled_file(
            out@,
            s_fm,
            pl_sec@,
            fm_table@,
            pl_table@,
            cc_table@,
            fco,
            plo,
            tco,
            bwt@,
            idx@,
            fmoff@,
            ploff@,
            pl_rel@,
            gst,
        );
        lemma_u64_le_round_trip(fco);
    }
    Ok((out, cache_start, cache_end))
}

/// Copies the byte range `[a, b)` of `v`.
fn subvec(v: &Vec<u8>, a: usize, b: usize) -> (r: Vec<u8>)
    requires
        a <= b <= v@.len(),
    ensures
        r@ == v@.subrange(a as int, b as int),
{
    let mut r: Vec<u8> = Vec::new();
    let mut i: usize = a;
    while i < b
        invariant
            a <= i <= b <= v@.len(),
            r@ == v@.subrange(a as int, i as int),
        decreases b - i,
    {
        r.push(v[i]);
        proof {
            assert(v@.subrange(a as int, i + 1) =~= v@.subrange(a as int, i as int).push(
                v@[i as int],
            ));
        }
        i = i + 1;
    }
    r
}

/// Compares two integer tables.
fn eq_u64_vec(a: &Vec<u64>, b: &Vec<u64>) -> (r: bool)
    ensures
        r <==> a@ =~= b@,
{
    if a.len() != b.len() {
        return false;
    }
    let mut i: usize = 0;
    while i < a.len()
        invariant
            i <= a@.len(),
            a@.len() == b@.len(),
            forall|t: int| 0 <= t < i ==> a@[t] == #[trigger] b@[t],
        decreases a@.len() - i,
    {
        if a[i] != b[i] {
            return false;
        }
        i = i + 1;
    }
    true
}

/// Decompresses and deserializes one stored table of 64-bit integers; on a
/// blob that some table compresses to, it succeeds and returns that table.
fn read_table(bytes: &Vec<u8>) -> (r: Result<Vec<u64>, IndexError>)
    ensures
        r is Ok <== exists|orig: Seq<u64>, lvl: int|
            bytes@ == #[trigger] zstd_of(bincode_u64s_of(orig), lvl),
        r matches Ok(v) ==> forall|orig: Seq<u64>, lvl: int|
            bytes@ == #[trigger] zstd_of(bincode_u64s_of(orig), lvl) ==> v@ == orig,
{
    let d = match zstd_decompress(bytes) {
        Some(v) => v,
        None => {
            return Err(IndexError::Decode);
        },
    };
    match bincode_deserialize_u64s(&d) {
        Some(v) => Ok(v),
        None => {
            proof {
                if exists|orig: Seq<u64>, lvl: int|
                    bytes@ == #[trigger] zstd_of(bincode_u64s_of(orig), lvl) {
                    let (orig, lvl): (Seq<u64>, int) = choose|orig: Seq<u64>, lvl: int|
                        bytes@ == #[trigger] zstd_of(bincode_u64s_of(orig), lvl);
                    assert(d@ == bincode_u64s_of(orig));
                }
            }
            Err(IndexError::Decode)
        },
    }
}

/// Decompresses and deserializes one stored byte vector; on a blob that some
/// vector compresses to, it succeeds and returns that vector.
fn read_byte_blob(bytes: &Vec<u8>) -> (r: Result<Vec<u8>, IndexError>)
    ensures
        r is Ok <== exists|orig: Seq<u8>, lvl: int|
            bytes@ == #[trigger] zstd_of(bincode_u8s_of(orig), lvl),
        r matches Ok(v) ==> forall|orig: Seq<u8>, lvl: int|
            bytes@ == #[trigger] zstd_of(bincode_u8s_of(orig), lvl) ==> v@ == orig,
{
    let d = match zstd_decompress(bytes) {
        Some(v) => v,
        None => {
            return Err(IndexError::Decode);
        },
    };
    match bincode_deserialize_u8s(&d) {
        Some(v) => Ok(v),
        None => {
            proof {
                if exists|orig: Seq<u8>, lvl: int|
                    bytes@ == #[trigger] zstd_of(bincode_u8s_of(orig), lvl) {
                    let (orig, lvl): (Seq<u8>, int) = choose|orig: Seq<u8>, lvl: int|
                        bytes@ == #[trigger] zstd_of(bincode_u8s_of(orig), lvl);
                    assert(d@ == bincode_u8s_of(orig));
                }
            }
            Err(IndexError::Decode)
        },
    }
}

/// A chunked-FM index decoded back into memory: the BWT, its FM chunking and
/// C table (re-derived and cross-checked against the stored tables), and the
/// owner array.
pub struct FmIndex {
    pub bwt: Vec<u8>,
    pub chunks: Vec<FmChunk>,
    pub c: Vec<u64>,
    pub owners: Vec<u64>,
}

/// The facts a parser learns about the decoded scalars and tables from the
/// file alone, for every BWT and owner array the file serializes.
pub open spec fn fm_tables_match(
    file: Seq<u8>,
    b: Seq<u8>,
    ixm: Seq<u64>,
    stride: int,
    n: usize,
    nch: usize,
    fmoff: Seq<u64>,
    ploff: Seq<u64>,
    stored_cc: Seq<u64>,
) -> bool {
    &&& n == b.len()
    &&& ixm.len() == b.len()
    &&& nch as int == chunk_count(b.len() as int, stride)
    &&& fmoff.len() == nch + 1
    &&& ploff.len() == nch + 1
    &&& stored_cc == cc_seq(b)
    &&& forall|t: int| 0 <= t < nch ==> (#[trigger] fmoff[t] as int) < fmoff[t + 1] as int
    &&& forall|t: int| 0 <= t < nch ==> (#[trigger] ploff[t] as int) < ploff[t + 1] as int
    &&& forall|t: int| 0 <= t <= nch ==> #[trigger] fmoff[t] as int <= file.len()
    &&& forall|t: int| 0 <= t <= nch ==> #[trigger] ploff[t] as int <= file.len()
    &&& forall|t: int|
        0 <= t < nch ==> file.subrange(#[trigger] fmoff[t] as int, fmoff[t + 1] as int)
            == fm_chunk_blob(b, t, stride)
    &&& forall|t: int|
        0 <= t < nch ==> file.subrange(#[trigger] ploff[t] as int, ploff[t + 1] as int)
            == plist_blob(ixm, t, stride)
}

/// Under any BWT/owner pair the file serializes, the bytes between two
/// FM-table offsets are exactly that chunk's serialized blob, which starts
/// with the eight-byte length of its compressed count table.
#[verifier::rlimit(100)]
proof fn lemma_chunk_blob_under_model(
    file: Seq<u8>,
    gst: int,
    n: usize,
    nch: usize,
    fmoff: Seq<u64>,
    ploff: Seq<u64>,
    stored_cc: Seq<u64>,
    gj: int,
    blob: Seq<u8>,
)
    requires
        0 <= gj < nch,
        blob == file.subrange(fmoff[gj] as int, fmoff[gj + 1] as int) || fmoff.len() != nch + 1,
        forall|b: Seq<u8>, ixm: Seq<u64>|
            #[trigger] is_fm_index_file(file, b, ixm, gst) ==> fm_tables_match(
                file,
                b,
                ixm,
                gst,
                n,
                nch,
                fmoff,
                ploff,
                stored_cc,
            ),
    ensures
        forall|b: Seq<u8>, ixm: Seq<u64>|
            #[trigger] is_fm_index_file(file, b, ixm, gst) ==> {
                &&& blob == fm_chunk_blob(b, gj, gst)
                &&& blob.len() >= 8
                &&& u64_from_le_bytes(blob.subrange(0, 8)) as int + 8 <= blob.len()
                &&& blob.subrange(8, 8 + u64_from_le_bytes(blob.subrange(0, 8)) as int)
                    == zstd_of(bincode_u64s_of(chunk_base_seq(b, gj, gst)), 10)
                &&& blob.subrange(
                    8 + u64_from_le_bytes(blob.subrange(0, 8)) as int,
                    blob.len() as int,
                ) == zstd_of(bincode_u8s_of(chunk_syms(b, gj, gst)), 10)
            },
{
    assert forall|b: Seq<u8>, ixm: Seq<u64>| #[trigger] is_fm_index_file(file, b, ixm, gst)
        implies {
        &&& blob == fm_chunk_blob(b, gj, gst)
        &&& blob.len() >= 8
        &&& u64_from_le_bytes(blob.subrange(0, 8)) as int + 8 <= blob.len()
        &&& blob.subrange(8, 8 + u64_from_le_bytes(blob.subrange(0, 8)) as int) == zstd_of(
            bincode_u64s_of(chunk_base_seq(b, gj, gst)),
            10,
        )
        &&& blob.subrange(8 + u64_from_le_bytes(blob.subrange(0, 8)) as int, blob.len() as int)
            == zstd_of(bincode_u8s_of(chunk_syms(b, gj, gst)), 10)
    } by {
        assert(fm_tables_match(file, b, ixm, gst, n, nch, fmoff, ploff, stored_cc));
        assert(file.subrange(fmoff[gj] as int, fmoff[gj + 1] as int) == fm_chunk_blob(
            b,
            gj,
            gst,
        ));
        let cbm = zstd_of(bincode_u64s_of(chunk_base_seq(b, gj, gst)), 10);
        let sbm = zstd_of(bincode_u8s_of(chunk_syms(b, gj, gst)), 10);
        assert(blob == u64_le_bytes(cbm.len() as u64) + cbm + sbm);
        assert(blob.subrange(0, 8) =~= u64_le_bytes(cbm.len() as u64));
        lemma_u64_le_round_trip(cbm.len() as u64);
        let cl = cbm.len() as int;
        assert(blob.subrange(8, 8 + cl) =~= cbm);
        assert(blob.subrange(8 + cl, blob.len() as int) =~= sbm);
    }
}

/// Appending the next slice of a sequence to a prefix yields the longer
/// prefix.
proof fn lemma_take_extend_u8(b: Seq<u8>, older: Seq<u8>, add: Seq<u8>, lo: int, hi: int)
    requires
        0 <= lo <= hi <= b.len(),
        older == b.take(lo),
        add == b.subrange(lo, hi),
    ensures
        older + add == b.take(hi),
{
    assert(older + add =~= b.take(hi));
}

/// Appending the next slice of a sequence to a prefix yields the longer
/// prefix.
proof fn lemma_take_extend_u64(b: Seq<u64>, older: Seq<u64>, add: Seq<u64>, lo: int, hi: int)
    requires
        0 <= lo <= hi <= b.len(),
        older == b.take(lo),
        add == b.subrange(lo, hi),
    ensures
        older + add == b.take(hi),
{
    assert(older + add =~= b.take(hi));
}

/// One decoded chunk extends the decoded BWT and owner prefixes by exactly
/// the model's next chunk, under any pair the file serializes.
#[verifier::rlimit(100)]
proof fn lemma_parse_chunk_step(
    file: Seq<u8>,
    gst: int,
    n: usize,
    nch: usize,
    fmoff: Seq<u64>,
    ploff: Seq<u64>,
    stored_cc: Seq<u64>,
    gj: int,
    blob: Seq<u8>,
    clen: usize,
    cb: Seq<u8>,
    sb: Seq<u8>,
    counts: Seq<u64>,
    syms: Seq<u8>,
    pblob: Seq<u8>,
    own: Seq<u64>,
    bwt_old: Seq<u8>,
    owners_old: Seq<u64>,
    bwt_new: Seq<u8>,
    owners_new: Seq<u64>,
)
    requires
        0 <= gj < nch,
        gst >= 1,
        blob == file.subrange(fmoff[gj] as int, fmoff[gj + 1] as int) || fmoff.len() != nch + 1,
        blob.len() >= 8,
        clen as u64 == u64_from_le_bytes(blob.subrange(0, 8)),
        clen + 8 <= blob.len(),
        cb == blob.subrange(8, 8 + clen),
        sb == blob.subrange(8 + clen, blob.len() as int),
        pblob == file.subrange(ploff[gj] as int, ploff[gj + 1] as int) || ploff.len() != nch + 1,
        forall|orig: Seq<u64>, lvl: int|
            cb == #[trigger] zstd_of(bincode_u64s_of(orig), lvl) ==> counts == orig,
        forall|orig: Seq<u8>, lvl: int|
            sb == #[trigger] zstd_of(bincode_u8s_of(orig), lvl) ==> syms == orig,
        forall|orig: Seq<u64>, lvl: int|
            pblob == #[trigger] zstd_of(bincode_u64s_of(orig), lvl) ==> own == orig,
        bwt_new == bwt_old + syms,
        owners_new == owners_old + own,
        forall|b: Seq<u8>, ixm: Seq<u64>|
            #[trigger] is_fm_index_file(file, b, ixm, gst) ==> fm_tables_match(
                file,
                b,
                ixm,
                gst,
                n,
                nch,
                fmoff,
                ploff,
                stored_cc,
            ),
        forall|b: Seq<u8>, ixm: Seq<u64>|
            #[trigger] is_fm_index_file(file, b, ixm, gst) ==> bwt_old == b.take(
                chunk_end(b.len() as int, gj - 1, gst),
            ) && owners_old == ixm.take(chunk_end(b.len() as int, gj - 1, gst)),
    ensures
        forall|b: Seq<u8>, ixm: Seq<u64>|
            #[trigger] is_fm_index_file(file, b, ixm, gst) ==> {
                &&& bwt_new == b.take(chunk_end(b.len() as int, gj, gst))
                &&& owners_new == ixm.take(chunk_end(b.len() as int, gj, gst))
                &&& counts == chunk_base_seq(b, gj, gst)
            },
{
    lemma_chunk_blob_under_model(file, gst, n, nch, fmoff, ploff, stored_cc, gj, blob);
    assert forall|b: Seq<u8>, ixm: Seq<u64>| #[trigger] is_fm_index_file(file, b, ixm, gst)
        implies {
        &&& bwt_new == b.take(chunk_end(b.len() as int, gj, gst))
        &&& owners_new == ixm.take(chunk_end(b.len() as int, gj, gst))
        &&& counts == chunk_base_seq(b, gj, gst)
    } by {
        let nn = b.len() as int;
        assert(fm_tables_match(file, b, ixm, gst, n, nch, fmoff, ploff, stored_cc));
        assert(counts == chunk_base_seq(b, gj, gst));
        assert(syms == chunk_syms(b, gj, gst));
        assert(pblob == plist_blob(ixm, gj, gst));
        assert(own == ixm.subrange(gj * gst, chunk_end(nn, gj, gst)));
        assert(gj * gst <= nn && chunk_end(nn, gj, gst) <= nn && gj * gst <= chunk_end(
            nn,
            gj,
            gst,
        )) by {
            assert((gj + 1) * gst == gj * gst + gst) by (nonlinear_arith);
            vstd::arithmetic::div_mod::lemma_fundamental_div_mod(nn - 1, gst);
            assert(gj * gst <= nn) by (nonlinear_arith)
                requires
                    gj <= (nn - 1) / gst,
                    gst >= 1,
                    nn - 1 == gst * ((nn - 1) / gst) + (nn - 1) % gst,
                    0 <= (nn - 1) % gst,
            ;
        }
        assert(chunk_end(nn, gj - 1, gst) == gj * gst) by {
            assert((gj - 1 + 1) * gst == gj * gst);
        }
        lemma_take_extend_u8(b, bwt_old, syms, gj * gst, chunk_end(nn, gj, gst));
        lemma_take_extend_u64(ixm, owners_old, own, gj * gst, chunk_end(nn, gj, gst));
    }
}

/// Decodes a chunked-FM index file: footer, offset tables, FM chunks and
/// posting chunks.  The FM chunking and C table handed back are re-derived
/// from the decoded BWT and cross-checked against the stored tables, so they
/// are well-formed over the decoded BWT whatever bytes came in; and a file
/// that serializes a BWT and owner array always parses, to exactly those
/// arrays.
#[verifier::rlimit(100)]
pub fn parse_fm_index(file: &Vec<u8>) -> (r: Result<FmIndex, IndexError>)
    ensures
        r matches Ok(ix) ==> {
            &&& fm_wf(ix.chunks@, ix.bwt@, FM_CHUNK_TOKS as int)
            &&& crate::search::cc_wf(ix.c@, ix.bwt@)
            &&& ix.owners@.len() == ix.bwt@.len()
        },
        forall|b: Seq<u8>, ixm: Seq<u64>|
            #[trigger] is_fm_index_file(file@, b, ixm, FM_CHUNK_TOKS as int) ==> (r matches Ok(
                ix,
            ) && ix.bwt@ == b && ix.owners@ == ixm),
{
    let stride = FM_CHUNK_TOKS;
    let ghost gst = stride as int;
    let m = file.len();
    if m < 32 {
        proof {
            assert forall|b: Seq<u8>, ixm: Seq<u64>| ! #[trigger] is_fm_index_file(
                file@,
                b,
                ixm,
                gst,
            ) by {
                if is_fm_index_file(file@, b, ixm, gst) {
                    let (f1, p1, a1, b1, c1) = choose|
                        f1: Seq<u64>,
                        p1: Seq<u64>,
                        a1: u64,
                        b1: u64,
                        c1: u64,
                    | fm_file_layout(file@, b, ixm, gst, f1, p1, a1, b1, c1);
                    assert(false);
                }
            }
        }
        return Err(IndexError::Decode);
    }
    let fco = read_u64_le(file, m - 32);
    let plo = read_u64_le(file, m - 24);
    let tco = read_u64_le(file, m - 16);
    let nw = read_u64_le(file, m - 8);
    proof {
        assert forall|b: Seq<u8>, ixm: Seq<u64>| #[trigger] is_fm_index_file(file@, b, ixm, gst)
            implies {
            &&& nw == b.len() as u64
            &&& b.len() <= usize::MAX
            &&& fco as int <= plo as int <= tco as int <= m - 32
        } by {
            let (f1, p1, a1, b1, c1) = choose|
                f1: Seq<u64>,
                p1: Seq<u64>,
                a1: u64,
                b1: u64,
                c1: u64,
            | fm_file_layout(file@, b, ixm, gst, f1, p1, a1, b1, c1);
            lemma_u64_le_round_trip(a1);
            lemma_u64_le_round_trip(b1);
            lemma_u64_le_round_trip(c1);
            lemma_u64_le_round_trip(b.len() as u64);
        }
    }
    if nw > usize::MAX as u64 {
        proof {
            assert forall|b: Seq<u8>, ixm: Seq<u64>| ! #[trigger] is_fm_index_file(
                file@,
                b,
                ixm,
                gst,
            ) by {}
        }
        return Err(IndexError::Decode);
    }
    let n = nw as usize;
    let mf = m as u64;
    if !(fco <= plo && plo <= tco && tco <= mf - 32) {
        proof {
            assert forall|b: Seq<u8>, ixm: Seq<u64>| ! #[trigger] is_fm_index_file(
                file@,
                b,
                ixm,
                gst,
            ) by {}
        }
        return Err(IndexError::Decode);
    }
    let fm_table_bytes = subvec(file, fco as usize, plo as usize);
    let pl_table_bytes = subvec(file, plo as usize, tco as usize);
    let cc_table_bytes = subvec(file, tco as usize, m - 32);
    proof {
        assert forall|b: Seq<u8>, ixm: Seq<u64>| #[trigger] is_fm_index_file(file@, b, ixm, gst)
            implies {
            exists|orig: Seq<u64>, lvl: int|
                fm_table_bytes@ == #[trigger] zstd_of(bincode_u64s_of(orig), lvl)
        } by {
            let (f1, p1, a1, b1, c1) = choose|
                f1: Seq<u64>,
                p1: Seq<u64>,
                a1: u64,
                b1: u64,
                c1: u64,
            | fm_file_layout(file@, b, ixm, gst, f1, p1, a1, b1, c1);
            lemma_u64_le_round_trip(a1);
            lemma_u64_le_round_trip(b1);
            assert(fm_table_bytes@ == zstd_of(bincode_u64s_of(f1), 0));
        }
    }
    let fmoff = match read_table(&fm_table_bytes) {
        Ok(v) => v,
        Err(e) => {
            return Err(e);
        },
    };
    proof {
        assert forall|b: Seq<u8>, ixm: Seq<u64>| #[trigger] is_fm_index_file(file@, b, ixm, gst)
            implies {
            exists|orig: Seq<u64>, lvl: int|
                pl_table_bytes@ == #[trigger] zstd_of(bincode_u64s_of(orig), lvl)
        } by {
            let (f1, p1, a1, b1, c1) = choose|
                f1: Seq<u64>,
                p1: Seq<u64>,
                a1: u64,
                b1: u64,
                c1: u64,
            | fm_file_layout(file@, b, ixm, gst, f1, p1, a1, b1, c1);
            lemma_u64_le_round_trip(b1);
            lemma_u64_le_round_trip(c1);
            assert(pl_table_bytes@ == zstd_of(bincode_u64s_of(p1), 0));
        }
    }
    let ploff = match read_table(&pl_table_bytes) {
        Ok(v) => v,
        Err(e) => {
            return Err(e);
        },
    };
    proof {
        assert forall|b: Seq<u8>, ixm: Seq<u64>| #[trigger] is_fm_index_file(file@, b, ixm, gst)
            implies {
            exists|orig: Seq<u64>, lvl: int|
                cc_table_bytes@ == #[trigger] zstd_of(bincode_u64s_of(orig), lvl)
        } by {
            let (f1, p1, a1, b1, c1) = choose|
                f1: Seq<u64>,
                p1: Seq<u64>,
                a1: u64,
                b1: u64,
                c1: u64,
            | fm_file_layout(file@, b, ixm, gst, f1, p1, a1, b1, c1);
            lemma_u64_le_round_trip(c1);
            assert(cc_table_bytes@ == zstd_of(bincode_u64s_of(cc_seq(b)), 0));
        }
    }
    let stored_cc = match read_table(&cc_table_bytes) {
        Ok(v) => v,
        Err(e) => {
            return Err(e);
        },
    };
    let nch: usize = if n == 0 {
        0
    } else {
        (n - 1) / stride + 1
    };
    proof {
        assert forall|b: Seq<u8>, ixm: Seq<u64>| #[trigger] is_fm_index_file(file@, b, ixm, gst)
            implies fm_tables_match(file@, b, ixm, gst, n, nch, fmoff@, ploff@, stored_cc@) by {
            let (f1, p1, a1, b1, c1) = choose|
                f1: Seq<u64>,
                p1: Seq<u64>,
                a1: u64,
                b1: u64,
                c1: u64,
            | fm_file_layout(file@, b, ixm, gst, f1, p1, a1, b1, c1);
            lemma_u64_le_round_trip(a1);
            lemma_u64_le_round_trip(b1);
            lemma_u64_le_round_trip(c1);
            lemma_u64_le_round_trip(b.len() as u64);
            assert(fm_table_bytes@ == zstd_of(bincode_u64s_of(f1), 0));
            assert(pl_table_bytes@ == zstd_of(bincode_u64s_of(p1), 0));
            assert(cc_table_bytes@ == zstd_of(bincode_u64s_of(cc_seq(b)), 0));
            assert(fmoff@ == f1);
            assert(ploff@ == p1);
            assert(stored_cc@ == cc_seq(b));
            assert(n == b.len());
            assert(nch as int == chunk_count(b.len() as int, gst));
        }
    }
    if fmoff.len() != nch + 1 || ploff.len() != nch + 1 {
        proof {
            assert forall|b: Seq<u8>, ixm: Seq<u64>| ! #[trigger] is_fm_index_file(
                file@,
                b,
                ixm,
                gst,
            ) by {}
        }
        return Err(IndexError::Decode);
    }
    let mut bwt: Vec<u8> = Vec::new();
    let mut owners: Vec<u64> = Vec::new();
    let mut counts_tabs: Vec<Vec<u64>> = Vec::new();
    let mut j: usize = 0;
    while j < nch
        invariant
            j <= nch,
            gst == FM_CHUNK_TOKS as int,
            gst >= 1,
            m == file@.len(),
            m >= 32,
            mf == m as u64,
            fmoff@.len() == nch + 1,
            ploff@.len() == nch + 1,
            counts_tabs@.len() == j,
            forall|b: Seq<u8>, ixm: Seq<u64>|
                #[trigger] is_fm_index_file(file@, b, ixm, gst) ==> fm_tables_match(
                    file@,
                    b,
                    ixm,
                    gst,
                    n,
                    nch,
                    fmoff@,
                    ploff@,
                    stored_cc@,
                ),
            forall|b: Seq<u8>, ixm: Seq<u64>|
                #[trigger] is_fm_index_file(file@, b, ixm, gst) ==> {
                    &&& bwt@ == b.take(chunk_end(b.len() as int, j - 1, gst))
                    &&& owners@ == ixm.take(chunk_end(b.len() as int, j - 1, gst))
                    &&& forall|t: int|
                        0 <= t < j ==> #[trigger] counts_tabs@[t]@ == chunk_base_seq(b, t, gst)
                },
        decreases nch - j,
    {
        let ghost gj = j as int;
        if !(fmoff[j] <= fmoff[j + 1] && fmoff[j + 1] <= mf) {
            proof {
                assert forall|b: Seq<u8>, ixm: Seq<u64>| ! #[trigger] is_fm_index_file(
                    file@,
                    b,
                    ixm,
                    gst,
                ) by {
                    if is_fm_index_file(file@, b, ixm, gst) {
                        assert(fm_tables_match(
                            file@,
                            b,
                            ixm,
                            gst,
                            n,
                            nch,
                            fmoff@,
                            ploff@,
                            stored_cc@,
                        ));
                        assert((fmoff@[gj] as int) < fmoff@[gj + 1] as int);
                        assert(fmoff@[gj + 1] as int <= m);
                    }
                }
            }
            return Err(IndexError::Decode);
        }
        proof {
            assert(fmoff@[gj] <= mf);
        }
        let blob = subvec(file, fmoff[j] as usize, fmoff[j + 1] as usize);
        proof {
            lemma_chunk_blob_under_model(
                file@,
                gst,
                n,
                nch,
                fmoff@,
                ploff@,
                stored_cc@,
                gj,
                blob@,
            );
        }
        if blob.len() < 8 {
            return Err(IndexError::Decode);
        }
        let clen64 = read_u64_le(&blob, 0);
        if clen64 > (blob.len() - 8) as u64 {
            return Err(IndexError::Decode);
        }
        let clen = clen64 as usize;
        let cb = subvec(&blob, 8, 8 + clen);
        let sb = subvec(&blob, 8 + clen, blob.len());
        proof {
            assert forall|b: Seq<u8>, ixm: Seq<u64>| #[trigger] is_fm_index_file(
                file@,
                b,
                ixm,
                gst,
            ) implies {
                &&& (exists|orig: Seq<u64>, lvl: int|
                    cb@ == #[trigger] zstd_of(bincode_u64s_of(orig), lvl))
                &&& (exists|orig: Seq<u8>, lvl: int|
                    sb@ == #[trigger] zstd_of(bincode_u8s_of(orig), lvl))
            } by {
                assert(cb@ == zstd_of(bincode_u64s_of(chunk_base_seq(b, gj, gst)), 10));
                assert(sb@ == zstd_of(bincode_u8s_of(chunk_syms(b, gj, gst)), 10));
            }
        }
        let counts = match read_table(&cb) {
            Ok(v) => v,
            Err(e) => {
                return Err(e);
            },
        };
        let syms = match read_byte_blob(&sb) {
            Ok(v) => v,
            Err(e) => {
                return Err(e);
            },
        };
        if !(ploff[j] <= ploff[j + 1] && ploff[j + 1] <= mf) {
            proof {
                assert forall|b: Seq<u8>, ixm: Seq<u64>| ! #[trigger] is_fm_index_file(
                    file@,
                    b,
                    ixm,
                    gst,
                ) by {
                    if is_fm_index_file(file@, b, ixm, gst) {
                        assert(fm_tables_match(
                            file@,
                            b,
                            ixm,
                            gst,
                            n,
                            nch,
                            fmoff@,
                            ploff@,
                            stored_cc@,
                        ));
                        assert((ploff@[gj] as int) < ploff@[gj + 1] as int);
                        assert(ploff@[gj + 1] as int <= m);
                    }
                }
            }
            return Err(IndexError::Decode);
        }
        proof {
            assert(ploff@[gj] <= mf);
        }
        let pblob = subvec(file, ploff[j] as usize, ploff[j + 1] as usize);
        proof {
            assert forall|b: Seq<u8>, ixm: Seq<u64>| #[trigger] is_fm_index_file(
                file@,
                b,
                ixm,
                gst,
            ) implies {
                exists|orig: Seq<u64>, lvl: int|
                    pblob@ == #[trigger] zstd_of(bincode_u64s_of(orig), lvl)
            } by {
                assert(fm_tables_match(file@, b, ixm, gst, n, nch, fmoff@, ploff@, stored_cc@));
                assert(pblob@ == plist_blob(ixm, gj, gst));
            }
        }
        let own = match read_table(&pblob) {
            Ok(v) => v,
            Err(e) => {
                return Err(e);
            },
        };
        let ghost bwt_old = bwt@;
        let ghost owners_old = owners@;
        append_bytes(&mut bwt, &syms);
        let mut t: usize = 0;
        while t < own.len()
            invariant
                t <= own@.len(),
                owners@ == owners_old + own@.take(t as int),
            decreases own@.len() - t,
        {
            owners.push(own[t]);
            proof {
                assert(owners_old + own@.take(t + 1) =~= (owners_old + own@.take(
                    t as int,
                )).push(own@[t as int]));
            }
            t = t + 1;
        }
        proof {
            assert(own@.take(own@.len() as int) =~= own@);
        }
        counts_tabs.push(counts);
        proof {
            lemma_parse_chunk_step(
                file@,
                gst,
                n,
                nch,
                fmoff@,
                ploff@,
                stored_cc@,
                gj,
                blob@,
                clen,
                cb@,
                sb@,
                counts@,
                syms@,
                pblob@,
                own@,
                bwt_old,
                owners_old,
                bwt@,
                owners@,
            );
            assert forall|b: Seq<u8>, ixm: Seq<u64>| #[trigger] is_fm_index_file(
                file@,
                b,
                ixm,
                gst,
            ) implies {
                forall|t2: int|
                    0 <= t2 <= gj ==> #[trigger] counts_tabs@[t2]@ == chunk_base_seq(b, t2, gst)
            } by {
                assert(counts_tabs@[gj]@ == chunk_base_seq(b, gj, gst));
            }
        }
        j = j + 1;
    }
    proof {
        assert forall|b: Seq<u8>, ixm: Seq<u64>| #[trigger] is_fm_index_file(file@, b, ixm, gst)
            implies bwt@ == b && owners@ == ixm by {
            assert(fm_tables_match(file@, b, ixm, gst, n, nch, fmoff@, ploff@, stored_cc@));
            let nn = b.len() as int;
            if nch == 0 {
                assert(nn == 0);
                assert(bwt@ =~= b);
                assert(owners@ =~= ixm);
            } else {
                assert(chunk_end(nn, nch - 1, gst) == nn) by {
                    vstd::arithmetic::div_mod::lemma_fundamental_div_mod(nn - 1, gst);
                    assert((nch as int) * gst >= nn && (nch as int - 1) * gst <= nn - 1)
                        by (nonlinear_arith)
                        requires
                            nch as int == (nn - 1) / gst + 1,
                            gst >= 1,
                            nn - 1 == gst * ((nn - 1) / gst) + (nn - 1) % gst,
                            0 <= (nn - 1) % gst < gst,
                    ;
                }
                assert(bwt@ =~= b);
                assert(owners@ =~= ixm);
            }
        }
    }
    if bwt.len() != n || owners.len() != n {
        proof {
            assert forall|b: Seq<u8>, ixm: Seq<u64>| ! #[trigger] is_fm_index_file(
                file@,
                b,
                ixm,
                gst,
            ) by {
                if is_fm_index_file(file@, b, ixm, gst) {
                    assert(fm_tables_match(
                        file@,
                        b,
                        ixm,
                        gst,
                        n,
                        nch,
                        fmoff@,
                        ploff@,
                        stored_cc@,
                    ));
                    assert(bwt@ == b);
                    assert(owners@ == ixm);
                }
            }
        }
        return Err(IndexError::Decode);
    }
    let rebuilt = build_fm_chunks(&bwt, stride);
    let cr = build_cumulative_counts(&bwt);
    proof {
        assert(rebuilt@.len() == nch);
    }
    let mut j: usize = 0;
    while j < nch
        invariant
            j <= nch,
            gst == FM_CHUNK_TOKS as int,
            nch == rebuilt@.len(),
            counts_tabs@.len() == nch,
            fm_wf(rebuilt@, bwt@, gst),
            bwt@.len() <= usize::MAX,
            forall|b: Seq<u8>, ixm: Seq<u64>|
                #[trigger] is_fm_index_file(file@, b, ixm, gst) ==> bwt@ == b && (forall|t: int|
                    0 <= t < nch ==> #[trigger] counts_tabs@[t]@ == chunk_base_seq(b, t, gst)),
        decreases nch - j,
    {
        let ghost gj = j as int;
        if !eq_u64_vec(&counts_tabs[j], &rebuilt[j].counts) {
            proof {
                assert forall|b: Seq<u8>, ixm: Seq<u64>| ! #[trigger] is_fm_index_file(
                    file@,
                    b,
                    ixm,
                    gst,
                ) by {
                    if is_fm_index_file(file@, b, ixm, gst) {
                        assert(chunk_wf(rebuilt@[gj], bwt@, gj * gst, gst));
                        assert forall|v: int| 0 <= v < 256 implies #[trigger] rebuilt@[gj].counts@[v]
                            == chunk_base_seq(b, gj, gst)[v] by {
                            lemma_occ_bounds(bwt@, v as u8, gj * gst);
                        }
                        assert(rebuilt@[gj].counts@ =~= chunk_base_seq(b, gj, gst));
                        assert(counts_tabs@[gj]@ == chunk_base_seq(b, gj, gst));
                    }
                }
            }
            return Err(IndexError::Decode);
        }
        j = j + 1;
    }
    if !eq_u64_vec(&stored_cc, &cr) {
        proof {
            assert forall|b: Seq<u8>, ixm: Seq<u64>| ! #[trigger] is_fm_index_file(
                file@,
                b,
                ixm,
                gst,
            ) by {
                if is_fm_index_file(file@, b, ixm, gst) {
                    assert(fm_tables_match(
                        file@,
                        b,
                        ixm,
                        gst,
                        n,
                        nch,
                        fmoff@,
                        ploff@,
                        stored_cc@,
                    ));
                    assert(bwt@ == b);
                    assert forall|v: int| 0 <= v < 257 implies #[trigger] cr@[v] == cc_seq(
                        b,
                    )[v] by {
                        lemma_count_lt_bounds(bwt@, v);
                    }
                    assert(cr@ =~= cc_seq(b));
                    assert(stored_cc@ == cc_seq(b));
                }
            }
        }
        return Err(IndexError::Decode);
    }
    Ok(FmIndex { bwt, chunks: rebuilt, c: cr, owners })
}

/// The postings one query resolves to over a BWT and owner array: the owner
/// ids in the final backward-search range, paired with the file id, or
/// nothing when the range is empty.
pub open spec fn query_postings(bwt: Seq<u8>, idx: Seq<u64>, q: Seq<u8>, fid: u64) -> Seq<
    (u64, u64),
> {
    let r = bs_spec(bwt, q);
    if r.0 < r.1 {
        postings_of(idx, r.0, r.1, fid)
    } else {
        Seq::empty()
    }
}

/// The concatenated postings of a query batch, in batch order.
pub open spec fn search_results(bwt: Seq<u8>, idx: Seq<u64>, qs: Seq<Seq<u8>>, fid: u64) -> Seq<
    (u64, u64),
>
    decreases qs.len(),
{
    if qs.len() == 0 {
        Seq::empty()
    } else {
        search_results(bwt, idx, qs.drop_last(), fid) + query_postings(bwt, idx, qs.last(), fid)
    }
}

/// Runs every query of a batch against a decoded index: backward search then
/// posting-list resolution, in batch order.
pub fn search_parsed_index(ix: &FmIndex, queries: &Vec<Vec<u8>>, file_id: u64) -> (r: Vec<
    (u64, u64),
>)
    requires
        fm_wf(ix.chunks@, ix.bwt@, FM_CHUNK_TOKS as int),
        cc_wf(ix.c@, ix.bwt@),
        ix.owners@.len() == ix.bwt@.len(),
    ensures
        r@ == search_results(
            ix.bwt@,
            ix.owners@,
            queries@.map_values(|v: Vec<u8>| v@),
            file_id,
        ),
{
    let ghost qs = queries@.map_values(|v: Vec<u8>| v@);
    let nb = ix.bwt.len();
    let mut out: Vec<(u64, u64)> = Vec::new();
    let mut i: usize = 0;
    while i < queries.len()
        invariant
            i <= queries@.len(),
            qs == queries@.map_values(|v: Vec<u8>| v@),
            ix.bwt@.len() <= usize::MAX,
            fm_wf(ix.chunks@, ix.bwt@, FM_CHUNK_TOKS as int),
            cc_wf(ix.c@, ix.bwt@),
            ix.owners@.len() == ix.bwt@.len(),
            out@ == search_results(ix.bwt@, ix.owners@, qs.take(i as int), file_id),
        decreases queries@.len() - i,
    {
        let (st, en) = fm_backward_search(
            &ix.chunks,
            &ix.c,
            &queries[i],
            FM_CHUNK_TOKS,
            Ghost(ix.bwt@),
        );
        proof {
            lemma_bs_from_bounds(
                ix.bwt@,
                queries@[i as int]@,
                queries@[i as int]@.len() as int,
                0,
                ix.bwt@.len() as int,
            );
            assert(qs.take(i + 1).drop_last() =~= qs.take(i as int));
            assert(qs.take(i + 1).last() == queries@[i as int]@);
        }
        if st < en {
            let part = resolve_postings(&ix.owners, st, en, file_id);
            let ghost old_out = out@;
            append_postings(&mut out, &part);
            proof {
                assert(out@ =~= search_results(ix.bwt@, ix.owners@, qs.take(i + 1), file_id));
            }
        } else {
            proof {
                assert(out@ =~= search_results(ix.bwt@, ix.owners@, qs.take(i + 1), file_id));
            }
        }
        i = i + 1;
    }
    proof {
        assert(qs.take(qs.len() as int) =~= qs);
    }
    out
}

/// Appends one query's postings to the running result list.
fn append_postings(out: &mut Vec<(u64, u64)>, part: &Vec<(u64, u64)>)
    ensures
        final(out)@ == old(out)@ + part@,
{
    let mut i: usize = 0;
    while i < part.len()
        invariant
            i <= part@.len(),
            out@ == old(out)@ + part@.take(i as int),
        decreases part@.len() - i,
    {
        out.push(part[i]);
        proof {
            assert(old(out)@ + part@.take(i + 1) =~= (old(out)@ + part@.take(i as int)).push(
                part@[i as int],
            ));
        }
        i = i + 1;
    }
    proof {
        assert(part@.take(part@.len() as int) =~= part@);
    }
}

/// Decodes a chunked-FM index file and runs a query batch against it.  On
/// any file that serializes a BWT and owner array, the search succeeds and
/// returns exactly the backward-search postings of every query over those
/// arrays, in batch order; any result is exact for the arrays the file
/// decodes to.
pub fn search_file_char_fm(file: &Vec<u8>, queries: &Vec<Vec<u8>>, file_id: u64) -> (r: Result<
    Vec<(u64, u64)>,
    IndexError,
>)
    ensures
        r matches Ok(res) ==> exists|s: Seq<u8>, ow: Seq<u64>|
            #[trigger] ow.len() == #[trigger] s.len() && res@ == search_results(
                s,
                ow,
                queries@.map_values(|v: Vec<u8>| v@),
                file_id,
            ),
        forall|b: Seq<u8>, ixm: Seq<u64>|
            #[trigger] is_fm_index_file(file@, b, ixm, FM_CHUNK_TOKS as int) ==> (r matches Ok(
                res,
            ) && res@ == search_results(b, ixm, queries@.map_values(|v: Vec<u8>| v@), file_id)),
{
    let ix = match parse_fm_index(file) {
        Ok(v) => v,
        Err(e) => {
            return Err(e);
        },
    };
    let res = search_parsed_index(&ix, queries, file_id);
    proof {
        assert(ix.owners@.len() == ix.bwt@.len());
    }
    Ok(res)
}

/// Builds the complete character-variant index for a document collection:
/// encode, suffix-sort, derive the BWT and owner array, and serialize the
/// chunked-FM file.  It fails, with a validation error and before any work
/// past encoding, exactly when the encoded stream is too long for the
/// 32-bit suffix sorter; otherwise it returns the file bytes and the
/// cacheable byte range.
pub fn build_substring_char_index(texts: &Vec<(u64, Vec<u8>)>, char_skip_factor: u32) -> (r:
    Result<(Vec<u8>, usize, usize), IndexError>)
    requires
        char_skip_factor >= 1,
    ensures
        r is Err <==> corpus_symbols(texts@, char_skip_factor as int).len() >= 0x7fff_ffff,
        r matches Err(e) ==> e == IndexError::Validation,
        r matches Ok(t) ==> exists|sa: Seq<i32>|
            {
                let stream = corpus_symbols(texts@, char_skip_factor as int);
                let uids = corpus_owners(texts@, char_skip_factor as int);
                &&& #[trigger] sa_sorted(sa, corpus_symbols(texts@, char_skip_factor as int))
                &&& is_fm_index_file(
                    t.0@,
                    bwt_of(stream, sa),
                    owners_of(uids, sa),
                    FM_CHUNK_TOKS as int,
                )
                &&& t.1 <= t.2 == t.0@.len()
            },
        r matches Ok(t) ==> u64_from_le_bytes(
            t.0@.subrange(t.0@.len() - 32, t.0@.len() - 24),
        ) == t.1 as u64,
{
    let (stream, uids) = encode_corpus(texts, char_skip_factor);
    if stream.len() >= 0x7fff_ffff {
        return Err(IndexError::Validation);
    }
    let sa = build_suffix_array(&stream);
    let (bwt, idx) = derive_bwt_and_owners(&stream, &uids, &sa);
    proof {
        assert(sa_sorted(sa@, stream@));
        assert(bwt@ =~= bwt_of(stream@, sa@));
        assert(idx@ =~= owners_of(uids@, sa@));
    }
    write_fm_index(&bwt, &idx)
}


/// Law: oracle equivalence.  Over one encoded stream, the chunked-FM oracle
/// and the wavelet-tree oracle assign every query exactly the same
/// `[start, end)` range: each oracle determines its BWT content uniquely, and
/// the range backward search produces (`bs_spec`) depends on that content and
/// the query alone — which is also what both search drivers promise in their
/// contracts.
pub proof fn lemma_oracle_equivalence(
    chunks: Seq<FmChunk>,
    stride: int,
    root: WaveletNode,
    s: Seq<u8>,
    q: Seq<u8>,
)
    requires
        fm_wf(chunks, s, stride),
        wnode_wf(root, s),
        root.lo == 0,
        root.hi == 256,
    ensures
        forall|s1: Seq<u8>|
            #[trigger] fm_wf(chunks, s1, stride) ==> bs_spec(s1, q) == bs_spec(s, q),
        forall|s2: Seq<u8>| #[trigger] wnode_wf(root, s2) ==> bs_spec(s2, q) == bs_spec(s, q),
{
    assert forall|s1: Seq<u8>| #[trigger] fm_wf(chunks, s1, stride) implies bs_spec(s1, q)
        == bs_spec(s, q) by {
        crate::search::lemma_fm_content_unique(chunks, s1, s, stride);
    }
    assert forall|s2: Seq<u8>| #[trigger] wnode_wf(root, s2) implies bs_spec(s2, q) == bs_spec(
        s,
        q,
    ) by {
        crate::wavelet::lemma_wavelet_content_unique(root, s2, s);
    }
}

/// Pairs a text array with a parallel id array, as the build entry points
/// do; mismatched lengths are a validation error, surfaced before any work.
pub fn pair_documents(texts: Vec<Vec<u8>>, uids: Vec<u64>) -> (r: Result<
    Vec<(u64, Vec<u8>)>,
    IndexError,
>)
    ensures
        r is Ok <==> texts@.len() == uids@.len(),
        r matches Ok(v) ==> v@.len() == texts@.len() && forall|i: int|
            0 <= i < v@.len() ==> #[trigger] v@[i].0 == uids@[i] && v@[i].1@ == texts@[i]@,
{
    if texts.len() != uids.len() {
        return Err(IndexError::Validation);
    }
    let mut out: Vec<(u64, Vec<u8>)> = Vec::new();
    let n = texts.len();
    let mut texts = texts;
    let ghost orig = texts@;
    let mut i: usize = 0;
    while i < n
        invariant
            i <= n,
            n == uids@.len(),
            texts@.len() == n - i,
            out@.len() == i,
            forall|t: int|
                0 <= t < i ==> #[trigger] out@[t].0 == uids@[t] && out@[t].1@ == orig[t]@,
            forall|t: int|
                0 <= t < n - i ==> #[trigger] texts@[t]@ == orig[t + i]@,
        decreases n - i,
    {
        let text = texts.remove(0);
        out.push((uids[i], text));
        i = i + 1;
    }
    Ok(out)
}

/// Answers one backward search against an in-memory FM chunking without a
/// caller-supplied ghost stream: both rank oracles return the range `bs_spec`
/// assigns over the represented BWT.
pub fn fm_query_range(chunks: &Vec<FmChunk>, c: &Vec<u64>, query: &Vec<u8>, stride: usize) -> (r: (
    usize,
    usize,
))
    requires
        exists|s: Seq<u8>|
            #[trigger] fm_wf(chunks@, s, stride as int) && cc_wf(c@, s) && s.len() <= usize::MAX,
    ensures
        forall|s: Seq<u8>|
            #[trigger] fm_wf(chunks@, s, stride as int) && cc_wf(c@, s) ==> (
            r.0 as int,
            r.1 as int,
            ) == bs_spec(s, query@),
{
    let ghost s0 = choose|s: Seq<u8>|
        #[trigger] fm_wf(chunks@, s, stride as int) && cc_wf(c@, s) && s.len() <= usize::MAX;
    let r = fm_backward_search(chunks, c, query, stride, Ghost(s0));
    proof {
        assert forall|s: Seq<u8>|
            #[trigger] fm_wf(chunks@, s, stride as int) && cc_wf(c@, s) implies (
        r.0 as int,
        r.1 as int,
        ) == bs_spec(s, query@) by {
            crate::search::lemma_fm_content_unique(chunks@, s, s0, stride as int);
        }
    }
    r
}

/// Answers one backward search against a wavelet tree without a
/// caller-supplied ghost stream.
pub fn wavelet_query_range(root: &WaveletNode, c: &Vec<u64>, query: &Vec<u8>) -> (r: (
    usize,
    usize,
))
    requires
        root.lo == 0,
        root.hi == 256,
        exists|s: Seq<u8>| #[trigger] wnode_wf(*root, s) && cc_wf(c@, s),
    ensures
        forall|s: Seq<u8>|
            #[trigger] wnode_wf(*root, s) && cc_wf(c@, s) ==> (r.0 as int, r.1 as int) == bs_spec(
                s,
                query@,
            ),
{
    let ghost s0 = choose|s: Seq<u8>| #[trigger] wnode_wf(*root, s) && cc_wf(c@, s);
    let r = wavelet_backward_search(root, c, query, Ghost(s0));
    proof {
        assert forall|s: Seq<u8>| #[trigger] wnode_wf(*root, s) && cc_wf(c@, s) implies (
        r.0 as int,
        r.1 as int,
        ) == bs_spec(s, query@) by {
            crate::wavelet::lemma_wavelet_content_unique(*root, s, s0);
        }
    }
    r
}

} // verus!
