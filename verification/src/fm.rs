//! The chunked frequency-table rank oracle: the BWT is cut into fixed-stride
//! chunks, each carrying the per-symbol frequencies of everything before it,
//! so that a rank query touches one chunk only.  The same stride cuts the
//! owner array into posting-list chunks, so a BWT-rank position falls in
//! chunks with the same index on both sides.
use vstd::pervasive::VecAdditionalExecFns;
use vstd::prelude::*;

verus! {

/// Occurrences of `x` among the first `p` symbols of `s`.
pub open spec fn occ(s: Seq<u8>, x: u8, p: int) -> int
    decreases p,
{
    if p <= 0 {
        0
    } else {
        occ(s, x, p - 1) + if s[p - 1] == x {
            1int
        } else {
            0int
        }
    }
}

/// Number of symbols of `s` whose value is below `v`: the classic C array.
pub open spec fn count_lt(s: Seq<u8>, v: int) -> int
    decreases s.len(),
{
    if s.len() == 0 {
        0
    } else {
        count_lt(s.drop_last(), v) + if (s.last() as int) < v {
            1int
        } else {
            0int
        }
    }
}

/// An occurrence count is between zero and the prefix length.
pub proof fn lemma_occ_bounds(s: Seq<u8>, x: u8, p: int)
    ensures
        0 <= occ(s, x, p) <= if p <= 0 {
            0int
        } else {
            p
        },
    decreases p,
{
    if p > 0 {
        lemma_occ_bounds(s, x, p - 1);
    }
}

/// Occurrence counts only grow with the prefix.
pub proof fn lemma_occ_monotonic(s: Seq<u8>, x: u8, p: int, q: int)
    requires
        p <= q,
    ensures
        occ(s, x, p) <= occ(s, x, q),
    decreases q - p,
{
    if p < q {
        lemma_occ_monotonic(s, x, p, q - 1);
    }
}

/// Occurrences up to `p` only look at the first `p` symbols.
pub proof fn lemma_occ_take(s: Seq<u8>, x: u8, p: int, q: int)
    requires
        0 <= p <= q <= s.len(),
    ensures
        occ(s.take(q), x, p) == occ(s, x, p),
    decreases p,
{
    if p > 0 {
        lemma_occ_take(s, x, p - 1, q);
    }
}

/// Occurrences across a split point add up: the count to `a + b` is the count
/// to `a` plus the count of the first `b` symbols of the rest.
pub proof fn lemma_occ_split(s: Seq<u8>, x: u8, a: int, b: int)
    requires
        0 <= a,
        0 <= b,
        a + b <= s.len(),
    ensures
        occ(s, x, a + b) == occ(s, x, a) + occ(s.skip(a), x, b),
    decreases b,
{
    if b > 0 {
        lemma_occ_split(s, x, a, b - 1);
        assert(s.skip(a)[b - 1] == s[a + b - 1]);
    }
}

/// The C-array deltas are the per-symbol totals: the number of symbols below
/// `v + 1` minus the number below `v` is the total count of symbol `v`.
pub proof fn lemma_count_lt_delta(s: Seq<u8>, v: int)
    requires
        0 <= v < 256,
    ensures
        count_lt(s, v + 1) == count_lt(s, v) + occ(s, v as u8, s.len() as int),
    decreases s.len(),
{
    if s.len() > 0 {
        lemma_count_lt_delta(s.drop_last(), v);
        lemma_occ_take(s, v as u8, s.len() - 1, s.len() - 1);
        assert(s.take(s.len() - 1) =~= s.drop_last());
    }
}

/// C-array values never exceed the stream length and never decrease in `v`.
pub proof fn lemma_count_lt_bounds(s: Seq<u8>, v: int)
    ensures
        0 <= count_lt(s, v) <= s.len(),
        v >= 256 ==> count_lt(s, v) == s.len(),
        v <= 0 ==> count_lt(s, v) == 0,
    decreases s.len(),
{
    if s.len() > 0 {
        lemma_count_lt_bounds(s.drop_last(), v);
    }
}

/// A rank is bracketed by consecutive C-array entries: `count_lt(s, v)` plus
/// the occurrences of `v` in any prefix stays below `count_lt(s, v + 1)`.
pub proof fn lemma_rank_bracket(s: Seq<u8>, v: int, p: int)
    requires
        0 <= v < 256,
        0 <= p <= s.len(),
    ensures
        count_lt(s, v) + occ(s, v as u8, p) <= count_lt(s, v + 1) <= s.len(),
{
    lemma_count_lt_delta(s, v);
    lemma_occ_monotonic(s, v as u8, p, s.len() as int);
    lemma_count_lt_bounds(s, v + 1);
}

/// Number of chunks a stream of length `n` is cut into at the given stride.
pub open spec fn chunk_count(n: int, stride: int) -> int {
    if n <= 0 {
        0
    } else {
        (n - 1) / stride + 1
    }
}

/// One FM chunk: the per-symbol frequencies of everything before the chunk,
/// and the chunk's own slice of the BWT.
pub struct FmChunk {
    pub counts: Vec<u64>,
    pub symbols: Vec<u8>,
}

/// What it means for a chunk to describe the BWT slice starting at `start`.
pub open spec fn chunk_wf(ch: FmChunk, s: Seq<u8>, start: int, stride: int) -> bool {
    &&& ch.counts@.len() == 256
    &&& forall|v: int| 0 <= v < 256 ==> #[trigger] ch.counts@[v] as int == occ(s, v as u8, start)
    &&& ch.symbols@ == s.subrange(
        start,
        if start + stride <= s.len() {
            start + stride
        } else {
            s.len() as int
        },
    )
}

/// What it means for a chunk vector to be the complete FM chunking of `s`.
pub open spec fn fm_wf(chunks: Seq<FmChunk>, s: Seq<u8>, stride: int) -> bool {
    &&& stride >= 1
    &&& chunks.len() == chunk_count(s.len() as int, stride)
    &&& forall|j: int| 0 <= j < chunks.len() ==> #[trigger] chunk_wf(chunks[j], s, j * stride, stride)
}

/// Cuts the BWT into FM chunks: while streaming through the BWT it maintains
/// a running frequency map and snapshots it as the base of each new chunk.
pub fn build_fm_chunks(bwt: &Vec<u8>, stride: usize) -> (chunks: Vec<FmChunk>)
    requires
        stride >= 1,
    ensures
        fm_wf(chunks@, bwt@, stride as int),
{
    let n = bwt.len();
    let mut chunks: Vec<FmChunk> = Vec::new();
    let mut counts: Vec<u64> = Vec::new();
    let mut v: usize = 0;
    while v < 256
        invariant
            counts@.len() == v,
            v <= 256,
            forall|t: int| 0 <= t < v ==> counts@[t] == 0,
        decreases 256 - v,
    {
        counts.push(0);
        v = v + 1;
    }
    let mut i: usize = 0;
    proof {
        assert(0 * (stride as int) == 0) by (nonlinear_arith);
    }
    while i < n
        invariant
            stride >= 1,
            n == bwt@.len(),
            i <= n,
            counts@.len() == 256,
            forall|t: int| 0 <= t < 256 ==> #[trigger] counts@[t] as int == occ(bwt@, t as u8, i as int),
            (i == chunks@.len() * (stride as int)) || (i == n && chunks@.len() == chunk_count(
                n as int,
                stride as int,
            )),
            forall|j: int|
                0 <= j < chunks@.len() ==> #[trigger] chunk_wf(
                    chunks@[j],
                    bwt@,
                    j * (stride as int),
                    stride as int,
                ),
        decreases n - i,
    {
        let ghost jj = chunks@.len() as int;
        let ghost st = stride as int;
        proof {
            assert(i == jj * st);
        }
        let base = copy_counts(&counts);
        let start = i;
        let end = if n - start >= stride {
            start + stride
        } else {
            n
        };
        let mut syms: Vec<u8> = Vec::new();
        while i < end
            invariant
                start <= i <= end <= n,
                n == bwt@.len(),
                counts@.len() == 256,
                forall|t: int| 0 <= t < 256 ==> #[trigger] counts@[t] as int == occ(bwt@, t as u8, i as int),
                syms@ == bwt@.subrange(start as int, i as int),
            decreases end - i,
        {
            let b = bwt[i];
            proof {
                lemma_occ_bounds(bwt@, b, i as int);
                assert(bwt@.subrange(start as int, i + 1) =~= bwt@.subrange(
                    start as int,
                    i as int,
                ).push(bwt@[i as int]));
            }
            let c = counts[b as usize];
            counts.set(b as usize, c + 1);
            syms.push(b);
            i = i + 1;
        }
        chunks.push(FmChunk { counts: base, symbols: syms });
        proof {
            assert((jj + 1) * st == jj * st + st) by (nonlinear_arith);
            assert(chunk_wf(chunks@[jj], bwt@, jj * st, st));
            if i < n {
                assert(i == chunks@.len() * st);
            } else {
                if i == start + stride {
                    if i == n {
                        vstd::arithmetic::div_mod::lemma_fundamental_div_mod_converse(
                            n as int - 1,
                            st,
                            jj,
                            st - 1,
                        );
                        assert(chunks@.len() == chunk_count(n as int, st));
                    }
                } else {
                    assert(i == n);
                    vstd::arithmetic::div_mod::lemma_fundamental_div_mod_converse(
                        n as int - 1,
                        st,
                        jj,
                        n - 1 - jj * st,
                    );
                    assert(chunks@.len() == chunk_count(n as int, st));
                }
            }
        }
    }
    proof {
        if n == 0 {
            assert(chunks@.len() * (stride as int) == 0 ==> chunks@.len() == 0) by (nonlinear_arith)
                requires
                    stride >= 1,
            ;
            assert(chunks@.len() == chunk_count(0, stride as int));
        } else {
            if i == chunks@.len() * (stride as int) {
                let jj = chunks@.len() as int - 1;
                let st = stride as int;
                assert(chunks@.len() >= 1) by (nonlinear_arith)
                    requires
                        chunks@.len() * st == n,
                        st >= 1,
                        n >= 1,
                        chunks@.len() >= 0,
                ;
                assert((jj + 1) * st == jj * st + st) by (nonlinear_arith);
                vstd::arithmetic::div_mod::lemma_fundamental_div_mod_converse(
                    n as int - 1,
                    st,
                    jj,
                    st - 1,
                );
                assert(chunks@.len() == chunk_count(n as int, st));
            }
        }
    }
    chunks
}

/// Copies a frequency table.
fn copy_counts(v: &Vec<u64>) -> (r: Vec<u64>)
    ensures
        r@ == v@,
{
    let mut r: Vec<u64> = Vec::new();
    let mut i: usize = 0;
    while i < v.len()
        invariant
            i <= v@.len(),
            r@ == v@.take(i as int),
        decreases v@.len() - i,
    {
        r.push(v[i]);
        proof {
            assert(v@.take(i + 1) =~= v@.take(i as int).push(v@[i as int]));
        }
        i = i + 1;
    }
    proof {
        assert(v@.take(v@.len() as int) =~= v@);
    }
    r
}

/// Answers `rank(symbol, offset)` against one chunk: the base count plus a
/// linear scan of the chunk's first `offset` symbols.
pub fn chunk_rank(ch: &FmChunk, sym: u8, off: usize) -> (r: u64)
    requires
        ch.counts@.len() == 256,
        off <= ch.symbols@.len(),
        ch.counts@[sym as int] + off <= u64::MAX,
    ensures
        r as int == ch.counts@[sym as int] + occ(ch.symbols@, sym, off as int),
{
    let mut r = ch.counts[sym as usize];
    let mut t: usize = 0;
    while t < off
        invariant
            t <= off <= ch.symbols@.len(),
            ch.counts@.len() == 256,
            ch.counts@[sym as int] + off <= u64::MAX,
            r as int == ch.counts@[sym as int] + occ(ch.symbols@, sym, t as int),
        decreases off - t,
    {
        proof {
            lemma_occ_bounds(ch.symbols@, sym, t as int);
        }
        if ch.symbols[t] == sym {
            r = r + 1;
        }
        t = t + 1;
    }
    r
}

/// Builds the cumulative-count (C) table over the whole BWT: entry `v` is the
/// number of symbols strictly below `v`, so consecutive deltas reproduce the
/// per-symbol totals.
pub fn build_cumulative_counts(bwt: &Vec<u8>) -> (c: Vec<u64>)
    ensures
        c@.len() == 257,
        forall|v: int| 0 <= v <= 256 ==> #[trigger] c@[v] as int == count_lt(bwt@, v),
        forall|v: int| 0 <= v < 256 ==> c@[v + 1] as int - #[trigger] c@[v] as int == occ(bwt@, v as u8, bwt@.len() as int),
{
    let n = bwt.len();
    let mut totals: Vec<u64> = Vec::new();
    let mut v: usize = 0;
    while v < 256
        invariant
            totals@.len() == v,
            v <= 256,
            forall|t: int| 0 <= t < v ==> totals@[t] == 0,
        decreases 256 - v,
    {
        totals.push(0);
        v = v + 1;
    }
    let mut i: usize = 0;
    while i < n
        invariant
            n == bwt@.len(),
            i <= n,
            totals@.len() == 256,
            forall|t: int| 0 <= t < 256 ==> #[trigger] totals@[t] as int == occ(bwt@, t as u8, i as int),
        decreases n - i,
    {
        let b = bwt[i];
        proof {
            lemma_occ_bounds(bwt@, b, i as int);
        }
        let c = totals[b as usize];
        totals.set(b as usize, c + 1);
        i = i + 1;
    }
    let mut c: Vec<u64> = Vec::new();
    c.push(0);
    proof {
        lemma_count_lt_bounds(bwt@, 0);
    }
    let mut v: usize = 0;
    while v < 256
        invariant
            v <= 256,
            c@.len() == v + 1,
            totals@.len() == 256,
            n == bwt@.len(),
            forall|t: int| 0 <= t < 256 ==> #[trigger] totals@[t] as int == occ(bwt@, t as u8, n as int),
            forall|t: int| 0 <= t <= v ==> #[trigger] c@[t] as int == count_lt(bwt@, t),
        decreases 256 - v,
    {
        proof {
            lemma_count_lt_delta(bwt@, v as int);
            lemma_count_lt_bounds(bwt@, v + 1);
            lemma_occ_bounds(bwt@, v as u8, n as int);
        }
        let prev = c[v];
        c.push(prev + totals[v]);
        v = v + 1;
    }
    proof {
        assert forall|v: int| 0 <= v < 256 implies c@[v + 1] as int - #[trigger] c@[v] as int
            == occ(bwt@, v as u8, bwt@.len() as int) by {
            lemma_count_lt_delta(bwt@, v);
        }
    }
    c
}

/// The chunk index a BWT-rank position falls in.
pub open spec fn fm_chunk_index(p: int, stride: int) -> int {
    p / stride
}

/// The chunk index the same position falls in on the posting-list side.
pub open spec fn posting_chunk_index(p: int, stride: int) -> int {
    p / stride
}

/// Law: the FM chunking and the posting-list chunking share their boundaries,
/// so every valid BWT-rank position falls in chunks with the same index on
/// both sides.
pub proof fn lemma_chunk_alignment(p: int, stride: int)
    requires
        0 <= p,
        1 <= stride,
    ensures
        fm_chunk_index(p, stride) == posting_chunk_index(p, stride),
{
}

} // verus!
