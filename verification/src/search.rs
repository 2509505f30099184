//! Backward search: consumes the query symbols back to front, narrowing a
//! half-open `[start, end)` range over BWT-sorted ranks with one rank query
//! per endpoint per symbol, then resolves the final range against the owner
//! array into `(file_id, document_id)` pairs.
use vstd::prelude::*;
use crate::fm::{
    occ, count_lt, chunk_count, chunk_wf, fm_wf, FmChunk, chunk_rank, lemma_occ_bounds,
    lemma_occ_monotonic, lemma_occ_split, lemma_rank_bracket, lemma_count_lt_bounds,
};
use crate::encode::encode_symbols;
use crate::EARLY_STOP_WIDTH;

verus! {

/// What it means for `c` to be the cumulative-count table of `s`.
pub open spec fn cc_wf(c: Seq<u64>, s: Seq<u8>) -> bool {
    &&& c.len() == 257
    &&& forall|v: int| 0 <= v <= 256 ==> #[trigger] c[v] as int == count_lt(s, v)
}

/// One backward-search step at spec level: both endpoints move to the C-array
/// base of the symbol plus the symbol's rank at the old endpoint.
pub open spec fn bs_from(s: Seq<u8>, q: Seq<u8>, e: int, st: int, en: int) -> (int, int)
    decreases e,
{
    if e <= 0 {
        (st, en)
    } else {
        let sym = q[e - 1];
        let ns = count_lt(s, sym as int) + occ(s, sym, st);
        let ne = count_lt(s, sym as int) + occ(s, sym, en);
        if ns >= ne {
            (ns, ne)
        } else if ne - ns <= EARLY_STOP_WIDTH as int {
            (ns, ne)
        } else {
            bs_from(s, q, e - 1, ns, ne)
        }
    }
}

/// The `[start, end)` range backward search assigns to `q` over the BWT `s`:
/// the whole rank space narrowed once per query symbol, right to left, with
/// the early stop on ranges of at most `EARLY_STOP_WIDTH` ranks.  A range
/// with `start >= end` means no match.
pub open spec fn bs_spec(s: Seq<u8>, q: Seq<u8>) -> (int, int) {
    bs_from(s, q, q.len() as int, 0, s.len() as int)
}

/// Backward search keeps its range inside `[0, n]` and ordered.
pub proof fn lemma_bs_from_bounds(s: Seq<u8>, q: Seq<u8>, e: int, st: int, en: int)
    requires
        0 <= st <= en <= s.len(),
    ensures
        0 <= bs_from(s, q, e, st, en).0 <= bs_from(s, q, e, st, en).1 <= s.len(),
    decreases e,
{
    if e > 0 {
        let sym = q[e - 1];
        lemma_rank_bracket(s, sym as int, st);
        lemma_rank_bracket(s, sym as int, en);
        lemma_occ_bounds(s, sym, st);
        lemma_occ_bounds(s, sym, en);
        lemma_occ_monotonic(s, sym, st, en);
        lemma_count_lt_bounds(s, sym as int);
        let ns = count_lt(s, sym as int) + occ(s, sym, st);
        let ne = count_lt(s, sym as int) + occ(s, sym, en);
        if ns < ne && ne - ns > EARLY_STOP_WIDTH as int {
            lemma_bs_from_bounds(s, q, e - 1, ns, ne);
        }
    }
}

/// Two sequences that agree on their first `p` symbols have the same counts
/// there.
pub proof fn lemma_occ_agree(a: Seq<u8>, b: Seq<u8>, x: u8, p: int)
    requires
        p <= a.len(),
        p <= b.len(),
        forall|t: int| 0 <= t < p ==> a[t] == b[t],
    ensures
        occ(a, x, p) == occ(b, x, p),
    decreases p,
{
    if p > 0 {
        lemma_occ_agree(a, b, x, p - 1);
    }
}


/// An FM chunking determines the BWT it represents: two streams one chunk
/// vector is well-formed over are equal.
pub proof fn lemma_fm_content_unique(chunks: Seq<FmChunk>, s1: Seq<u8>, s2: Seq<u8>, stride: int)
    requires
        fm_wf(chunks, s1, stride),
        fm_wf(chunks, s2, stride),
    ensures
        s1 == s2,
{
    if chunks.len() == 0 {
        assert(s1 =~= s2);
    } else {
        let nch = chunks.len() as int;
        let jl = nch - 1;
        assert(chunk_wf(chunks[jl], s1, jl * stride, stride));
        assert(chunk_wf(chunks[jl], s2, jl * stride, stride));
        let n1 = s1.len() as int;
        let n2 = s2.len() as int;
        assert(n1 == jl * stride + chunks[jl].symbols.len()) by {
            lemma_last_chunk_reaches_end(n1, jl, stride);
        }
        assert(n2 == jl * stride + chunks[jl].symbols.len()) by {
            lemma_last_chunk_reaches_end(n2, jl, stride);
        }
        assert forall|p: int| 0 <= p < n1 implies s1[p] == #[trigger] s2[p] by {
            let j = p / stride;
            vstd::arithmetic::div_mod::lemma_fundamental_div_mod(p, stride);
            vstd::arithmetic::div_mod::lemma_div_is_ordered(p, n1 - 1, stride);
            assert(0 <= j < nch);
            assert(j * stride <= p < j * stride + stride) by (nonlinear_arith)
                requires
                    j == p / stride,
                    stride >= 1,
                    p == stride * (p / stride) + p % stride,
                    0 <= p % stride < stride,
            ;
            assert(chunk_wf(chunks[j], s1, j * stride, stride));
            assert(chunk_wf(chunks[j], s2, j * stride, stride));
            assert(s1[p] == chunks[j].symbols@[p - j * stride]);
            assert(s2[p] == chunks[j].symbols@[p - j * stride]);
        }
        assert(s1 =~= s2);
    }
}

/// The last chunk of a well-formed chunking ends exactly at the stream's
/// tail.
proof fn lemma_last_chunk_reaches_end(n: int, jl: int, stride: int)
    requires
        stride >= 1,
        n >= 1,
        jl == chunk_count(n, stride) - 1,
    ensures
        jl * stride < n <= jl * stride + stride,
{
    vstd::arithmetic::div_mod::lemma_fundamental_div_mod(n - 1, stride);
    assert(jl * stride < n && n <= jl * stride + stride) by (nonlinear_arith)
        requires
            jl == (n - 1) / stride,
            stride >= 1,
            n - 1 == stride * ((n - 1) / stride) + (n - 1) % stride,
            0 <= (n - 1) % stride < stride,
    ;
}

/// Answers a global rank query `occ(s, sym, p)` by fetching the chunk that
/// covers position `p` and scanning within it.
pub fn fm_rank(chunks: &Vec<FmChunk>, sym: u8, p: usize, stride: usize, Ghost(s): Ghost<Seq<u8>>)
    -> (r: u64)
    requires
        fm_wf(chunks@, s, stride as int),
        p <= s.len(),
        s.len() <= usize::MAX,
    ensures
        r as int == occ(s, sym, p as int),
{
    let n_chunks = chunks.len();
    if n_chunks == 0 {
        proof {
            assert(s.len() == 0);
        }
        return 0;
    }
    let j0 = p / stride;
    let j = if j0 < n_chunks {
        j0
    } else {
        n_chunks - 1
    };
    proof {
        let n = s.len() as int;
        let st = stride as int;
        vstd::arithmetic::div_mod::lemma_fundamental_div_mod(p as int, st);
        if (p as int) < n {
            vstd::arithmetic::div_mod::lemma_div_is_ordered(p as int, n - 1, st);
        } else {
            vstd::arithmetic::div_mod::lemma_div_is_ordered(n - 1, p as int, st);
            vstd::arithmetic::div_mod::lemma_fundamental_div_mod(n - 1, st);
        }
        assert((j as int) * st <= p as int) by (nonlinear_arith)
            requires
                j as int <= (p as int) / st,
                st >= 1,
                (p as int) / st * st <= p as int,
                j as int >= 0,
        ;
    }
    let off = p - j * stride;
    proof {
        let n = s.len() as int;
        let st = stride as int;
        let jj = j as int;
        assert(chunk_wf(chunks@[jj], s, jj * st, st));
        let cend = if jj * st + st <= n {
            jj * st + st
        } else {
            n
        };
        assert(chunks@[jj].symbols@.len() == cend - jj * st);
        if j0 < n_chunks {
            vstd::arithmetic::div_mod::lemma_fundamental_div_mod(p as int, st);
            assert(p as int - jj * st < st) by (nonlinear_arith)
                requires
                    jj == (p as int) / st,
                    p as int == st * ((p as int) / st) + (p as int) % st,
                    0 <= (p as int) % st < st,
            ;
        } else {
            assert(jj == n_chunks - 1);
            assert(n_chunks as int == chunk_count(n, st));
            assert(n > 0);
            vstd::arithmetic::div_mod::lemma_fundamental_div_mod(n - 1, st);
            assert(p as int - jj * st <= st) by (nonlinear_arith)
                requires
                    p as int <= n,
                    jj == (n - 1) / st,
                    n - 1 == st * ((n - 1) / st) + (n - 1) % st,
                    0 <= (n - 1) % st < st,
            ;
        }
        assert(off as int <= chunks@[jj].symbols@.len());
        let base = chunks@[jj].counts@[sym as int] as int;
        assert(base == occ(s, sym, jj * st));
        lemma_occ_bounds(s, sym, jj * st);
        lemma_occ_bounds(chunks@[jj].symbols@, sym, off as int);
    }
    let r = chunk_rank(&chunks[j], sym, off);
    proof {
        let st = stride as int;
        let jj = j as int;
        lemma_occ_split(s, sym, jj * st, off as int);
        assert forall|t: int| 0 <= t < off as int implies chunks@[jj].symbols@[t] == s.skip(
            jj * st,
        )[t] by {
            assert(chunks@[jj].symbols@[t] == s[jj * st + t]);
        }
        lemma_occ_agree(chunks@[jj].symbols@, s.skip(jj * st), sym, off as int);
    }
    r
}

/// Runs backward search over an in-memory FM chunking: the exec mirror of
/// `bs_spec`, returning the final `[start, end)` range.
pub fn fm_backward_search(
    chunks: &Vec<FmChunk>,
    c: &Vec<u64>,
    query: &Vec<u8>,
    stride: usize,
    Ghost(s): Ghost<Seq<u8>>,
) -> (r: (usize, usize))
    requires
        fm_wf(chunks@, s, stride as int),
        cc_wf(c@, s),
        s.len() <= usize::MAX,
    ensures
        (r.0 as int, r.1 as int) == bs_spec(s, query@),
{
    let mut st: usize = 0;
    let mut en: usize = fm_stream_len(chunks, stride, Ghost(s));
    let mut e: usize = query.len();
    while e > 0
        invariant
            0 <= st <= en <= s.len(),
            s.len() <= usize::MAX,
            e <= query@.len(),
            fm_wf(chunks@, s, stride as int),
            cc_wf(c@, s),
            bs_spec(s, query@) == bs_from(s, query@, e as int, st as int, en as int),
        decreases e,
    {
        let sym = query[e - 1];
        let rs = fm_rank(chunks, sym, st, stride, Ghost(s));
        let re = fm_rank(chunks, sym, en, stride, Ghost(s));
        proof {
            lemma_rank_bracket(s, sym as int, st as int);
            lemma_rank_bracket(s, sym as int, en as int);
            lemma_occ_bounds(s, sym, st as int);
            lemma_occ_bounds(s, sym, en as int);
            lemma_occ_monotonic(s, sym, st as int, en as int);
            lemma_count_lt_bounds(s, sym as int);
        }
        let base = c[sym as usize];
        proof {
            assert(base as int + rs as int <= s.len());
            assert(base as int + re as int <= s.len());
        }
        let ns64 = base + rs;
        let ne64 = base + re;
        proof {
            assert(ns64 <= usize::MAX as u64);
            assert(ne64 <= usize::MAX as u64);
        }
        let ns = ns64 as usize;
        let ne = ne64 as usize;
        proof {
            assert(ns as int == count_lt(s, sym as int) + occ(s, sym, st as int));
            assert(ne as int == count_lt(s, sym as int) + occ(s, sym, en as int));
        }
        if ns >= ne {
            return (ns, ne);
        }
        if ne - ns <= EARLY_STOP_WIDTH {
            return (ns, ne);
        }
        st = ns;
        en = ne;
        e = e - 1;
    }
    (st, en)
}

/// Recovers the stream length from the chunking.
fn fm_stream_len(chunks: &Vec<FmChunk>, stride: usize, Ghost(s): Ghost<Seq<u8>>) -> (n: usize)
    requires
        fm_wf(chunks@, s, stride as int),
        s.len() <= usize::MAX,
    ensures
        n == s.len(),
{
    if chunks.len() == 0 {
        proof {
            assert(s.len() == 0);
        }
        0
    } else {
        let last = chunks.len() - 1;
        proof {
            let st = stride as int;
            let n = s.len() as int;
            let jj = last as int;
            assert(chunk_wf(chunks@[jj], s, jj * st, st));
            vstd::arithmetic::div_mod::lemma_fundamental_div_mod(n - 1, st);
            assert(jj == (n - 1) / st);
            assert(jj * st <= n - 1 && n <= jj * st + st) by (nonlinear_arith)
                requires
                    jj == (n - 1) / st,
                    st >= 1,
                    st * ((n - 1) / st) + (n - 1) % st == n - 1,
                    0 <= (n - 1) % st < st,
            ;
            assert(chunks@[jj].symbols@.len() == n - jj * st);
        }
        let m = chunks[last].symbols.len();
        proof {
            assert((last as int) * (stride as int) + m as int == s.len());
            assert(last * stride + m <= usize::MAX);
        }
        last * stride + m
    }
}

/// The postings a final range resolves to: the owner ids in the range, each
/// paired with the queried file's id, in BWT-rank order.
pub open spec fn postings_of(idx: Seq<u64>, st: int, en: int, file_id: u64) -> Seq<(u64, u64)> {
    idx.subrange(st, en).map_values(|u: u64| (file_id, u))
}

/// Resolves a final `[start, end)` range against an in-memory owner array.
pub fn resolve_postings(idx: &Vec<u64>, st: usize, en: usize, file_id: u64) -> (r: Vec<(u64, u64)>)
    requires
        st <= en <= idx@.len(),
    ensures
        r@ == postings_of(idx@, st as int, en as int, file_id),
{
    let mut r: Vec<(u64, u64)> = Vec::new();
    let mut i: usize = st;
    while i < en
        invariant
            st <= i <= en <= idx@.len(),
            r@ == postings_of(idx@, st as int, i as int, file_id),
        decreases en - i,
    {
        r.push((file_id, idx[i]));
        proof {
            assert(idx@.subrange(st as int, i + 1) =~= idx@.subrange(st as int, i as int).push(
                idx@[i as int],
            ));
            assert(postings_of(idx@, st as int, i + 1, file_id) =~= postings_of(
                idx@,
                st as int,
                i as int,
                file_id,
            ).push((file_id, idx@[i as int])));
        }
        i = i + 1;
    }
    r
}

/// The subsequence of `s` at positions congruent to `o` modulo `sf`.
pub open spec fn sampled_subsequence(s: Seq<u8>, o: int, sf: int) -> Seq<u8>
    decreases s.len(),
{
    if s.len() == 0 {
        Seq::empty()
    } else {
        sampled_subsequence(s.drop_last(), o, sf) + if (s.len() - 1) % sf == o {
            seq![s.last()]
        } else {
            Seq::<u8>::empty()
        }
    }
}

/// The last `l` symbols of `s` (all of `s` if it is shorter).
pub open spec fn tail_limit(s: Seq<u8>, l: int) -> Seq<u8> {
    if s.len() <= l {
        s
    } else {
        s.skip(s.len() - l)
    }
}

/// The list of symbol queries one raw query turns into: lower-cased and
/// filtered like a document; split into `sample_factor` interleaved
/// subsequences (empty ones dropped) when sampling is on; truncated to the
/// last `token_viable_limit` symbols when a limit is given.
pub open spec fn prepared_queries(q: Seq<u8>, sf: Option<usize>, tvl: Option<usize>) -> Seq<
    Seq<u8>,
> {
    let base = encode_symbols(q);
    let qs = match sf {
        Option::None => seq![base],
        Option::Some(f) => Seq::new(f as nat, |o: int| sampled_subsequence(base, o, f as int))
            .filter(|t: Seq<u8>| t.len() > 0),
    };
    match tvl {
        Option::None => qs,
        Option::Some(l) => qs.map_values(|t: Seq<u8>| tail_limit(t, l as int)),
    }
}

/// Extracts the sampled subsequence at offset `o` of stride `sf`.
pub fn extract_sampled(base: &Vec<u8>, o: usize, sf: usize) -> (r: Vec<u8>)
    requires
        sf >= 1,
        o < sf,
    ensures
        r@ == sampled_subsequence(base@, o as int, sf as int),
{
    let mut r: Vec<u8> = Vec::new();
    let mut i: usize = 0;
    while i < base.len()
        invariant
            i <= base@.len(),
            sf >= 1,
            r@ == sampled_subsequence(base@.take(i as int), o as int, sf as int),
        decreases base@.len() - i,
    {
        proof {
            assert(base@.take(i + 1).drop_last() =~= base@.take(i as int));
            assert(base@.take(i + 1).last() == base@[i as int]);
        }
        if i % sf == o {
            r.push(base[i]);
        }
        i = i + 1;
    }
    proof {
        assert(base@.take(base@.len() as int) =~= base@);
    }
    r
}

/// Keeps only the last `l` symbols of a query.
pub fn truncate_tail(q: Vec<u8>, l: usize) -> (r: Vec<u8>)
    ensures
        r@ == tail_limit(q@, l as int),
{
    if q.len() <= l {
        return q;
    }
    let start = q.len() - l;
    let mut r: Vec<u8> = Vec::new();
    let mut i: usize = start;
    while i < q.len()
        invariant
            start <= i <= q@.len(),
            start == q@.len() - l,
            r@ == q@.subrange(start as int, i as int),
        decreases q@.len() - i,
    {
        r.push(q[i]);
        proof {
            assert(q@.subrange(start as int, i + 1) =~= q@.subrange(start as int, i as int).push(
                q@[i as int],
            ));
        }
        i = i + 1;
    }
    proof {
        assert(q@.subrange(start as int, q@.len() as int) =~= q@.skip(q@.len() - l));
    }
    r
}

/// Prepares a raw query for search, as the search entry point does: encode
/// like a document (without skip-factor thinning), optionally split into
/// `sample_factor` interleaved subsequences dropping empty ones, and
/// optionally truncate each to its last `token_viable_limit` symbols.
pub fn prep_query_char(query: &Vec<u8>, sample_factor: Option<usize>, token_viable_limit: Option<
    usize,
>) -> (r: Vec<Vec<u8>>)
    ensures
        r@.map_values(|v: Vec<u8>| v@) == prepared_queries(query@, sample_factor, token_viable_limit),
{
    let base = crate::encode::encode_doc(query, 1);
    proof {
        crate::encode::lemma_subsample_one(crate::encode::encode_symbols(query@));
    }
    let mut qs: Vec<Vec<u8>> = Vec::new();
    match sample_factor {
        None => {
            qs.push(base);
            proof {
                assert(qs@.map_values(|v: Vec<u8>| v@) =~= seq![crate::encode::encode_symbols(
                    query@,
                )]);
            }
        },
        Some(f) => {
            let ghost gbase = base@;
            let ghost full = Seq::new(f as nat, |o: int| sampled_subsequence(gbase, o, f as int));
            let mut o: usize = 0;
            while o < f
                invariant
                    o <= f,
                    gbase == base@,
                    full == Seq::new(
                        f as nat,
                        |t: int| sampled_subsequence(gbase, t, f as int),
                    ),
                    qs@.map_values(|v: Vec<u8>| v@) == full.take(o as int).filter(
                        |t: Seq<u8>| t.len() > 0,
                    ),
                decreases f - o,
            {
                let sub = extract_sampled(&base, o, f);
                let ghost prev = full.take(o as int);
                proof {
                    assert(full.take(o + 1).drop_last() =~= prev);
                    assert(full.take(o + 1).last() == sub@);
                    reveal_with_fuel(Seq::filter, 2);
                }
                if sub.len() > 0 {
                    qs.push(sub);
                    proof {
                        assert(qs@.map_values(|v: Vec<u8>| v@) =~= prev.filter(
                            |t: Seq<u8>| t.len() > 0,
                        ).push(full.take(o + 1).last()));
                        assert(full.take(o + 1).filter(|t: Seq<u8>| t.len() > 0) =~= prev.filter(
                            |t: Seq<u8>| t.len() > 0,
                        ).push(full.take(o + 1).last()));
                    }
                } else {
                    proof {
                        assert(full.take(o + 1).filter(|t: Seq<u8>| t.len() > 0) =~= prev.filter(
                            |t: Seq<u8>| t.len() > 0,
                        ));
                    }
                }
                o = o + 1;
            }
            proof {
                assert(full.take(f as int) =~= full);
            }
        },
    }
    match token_viable_limit {
        None => qs,
        Some(l) => {
            let ghost before = qs@.map_values(|v: Vec<u8>| v@);
            let mut out: Vec<Vec<u8>> = Vec::new();
            let mut i: usize = 0;
            let total = qs.len();
            while i < total
                invariant
                    i <= total,
                    total == qs@.len(),
                    before == qs@.map_values(|v: Vec<u8>| v@),
                    out@.len() == i,
                    forall|t: int| 0 <= t < i ==> #[trigger] out@[t]@ == tail_limit(
                        before[t],
                        l as int,
                    ),
                decreases total - i,
            {
                let mut q: Vec<u8> = Vec::new();
                let mut t: usize = 0;
                let src = &qs[i];
                while t < src.len()
                    invariant
                        t <= src@.len(),
                        q@ == src@.take(t as int),
                    decreases src@.len() - t,
                {
                    q.push(src[t]);
                    proof {
                        assert(src@.take(t + 1) =~= src@.take(t as int).push(src@[t as int]));
                    }
                    t = t + 1;
                }
                proof {
                    assert(src@.take(src@.len() as int) =~= src@);
                }
                let trimmed = truncate_tail(q, l);
                out.push(trimmed);
                proof {
                    assert(before[i as int] == qs@[i as int]@);
                }
                i = i + 1;
            }
            proof {
                let mapped = out@.map_values(|v: Vec<u8>| v@);
                let want = before.map_values(|t2: Seq<u8>| tail_limit(t2, l as int));
                assert forall|t: int| 0 <= t < mapped.len() implies #[trigger] mapped[t]
                    == want[t] by {
                    assert(mapped[t] == out@[t]@);
                    assert(want[t] == tail_limit(before[t], l as int));
                }
                assert(mapped =~~= want);
            }
            out
        },
    }
}

} // verus!
