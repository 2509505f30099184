//! The tokenized variant's stream construction: token-id streams are
//! filtered against a skip-token set and thinned by a skip factor, and
//! instead of full suffixes the sort key for each stream position is a fixed
//! window of ten token ids, zero-padded past the stream's tail.  This bounds
//! match precision to at most ten trailing symbols of a query — a deliberate
//! trade for tractable sort cost on large vocabularies.
use vstd::prelude::*;

verus! {

/// The length of the sort window: positions are ordered by their next ten
/// token ids, not their whole suffix.
pub const TOKEN_WINDOW: usize = 10;

/// Whether a token id is in the skip set.
pub open spec fn is_skip_token(skip: Seq<u32>, t: u32) -> bool {
    skip.contains(t)
}

/// One document's token stream with skip tokens dropped.
pub open spec fn filter_tokens(tokens: Seq<u32>, skip: Seq<u32>) -> Seq<u32>
    decreases tokens.len(),
{
    if tokens.len() == 0 {
        Seq::empty()
    } else {
        filter_tokens(tokens.drop_last(), skip) + if is_skip_token(skip, tokens.last()) {
            Seq::<u32>::empty()
        } else {
            seq![tokens.last()]
        }
    }
}

/// Every `k`-th token survives, as in the character variant.
pub open spec fn subsample_tokens(s: Seq<u32>, k: int) -> Seq<u32>
    decreases s.len(),
{
    if s.len() == 0 {
        Seq::empty()
    } else {
        subsample_tokens(s.drop_last(), k) + if crate::encode::keep_at(s.len() - 1, k) {
            seq![s.last()]
        } else {
            Seq::<u32>::empty()
        }
    }
}

/// Tests a token against the skip set.
pub fn is_skip_token_x(skip: &Vec<u32>, t: u32) -> (r: bool)
    ensures
        r == is_skip_token(skip@, t),
{
    let mut i: usize = 0;
    while i < skip.len()
        invariant
            i <= skip@.len(),
            forall|j: int| 0 <= j < i ==> skip@[j] != t,
        decreases skip@.len() - i,
    {
        if skip[i] == t {
            return true;
        }
        i = i + 1;
    }
    false
}

/// Filters one document's token ids against the skip set and keeps every
/// `k`-th survivor.
pub fn encode_tokens(tokens: &Vec<u32>, skip: &Vec<u32>, k: u32) -> (r: Vec<u32>)
    requires
        k >= 1,
    ensures
        r@ == subsample_tokens(filter_tokens(tokens@, skip@), k as int),
{
    let mut out: Vec<u32> = Vec::new();
    let mut kept: usize = 0;
    let mut i: usize = 0;
    while i < tokens.len()
        invariant
            i <= tokens@.len(),
            k >= 1,
            kept == filter_tokens(tokens@.take(i as int), skip@).len(),
            out@ == subsample_tokens(filter_tokens(tokens@.take(i as int), skip@), k as int),
        decreases tokens@.len() - i,
    {
        let t = tokens[i];
        proof {
            lemma_filter_tokens_len(tokens@.take(i as int), skip@);
            assert(tokens@.take(i + 1).drop_last() =~= tokens@.take(i as int));
            assert(tokens@.take(i + 1).last() == tokens@[i as int]);
        }
        let ghost prev = filter_tokens(tokens@.take(i as int), skip@);
        if !is_skip_token_x(skip, t) {
            proof {
                assert(filter_tokens(tokens@.take(i + 1), skip@) =~= prev + seq![t]);
                assert((prev + seq![t]).drop_last() =~= prev);
            }
            if k == 1 || kept % (k as usize) == 1 {
                out.push(t);
            }
            kept = kept + 1;
        } else {
            proof {
                assert(filter_tokens(tokens@.take(i + 1), skip@) =~= prev);
            }
        }
        i = i + 1;
    }
    proof {
        assert(tokens@.take(tokens@.len() as int) =~= tokens@);
    }
    out
}

/// The filtered stream is never longer than its input.
pub proof fn lemma_filter_tokens_len(tokens: Seq<u32>, skip: Seq<u32>)
    ensures
        filter_tokens(tokens, skip).len() <= tokens.len(),
    decreases tokens.len(),
{
    if tokens.len() > 0 {
        lemma_filter_tokens_len(tokens.drop_last(), skip);
    }
}

/// The sort key of stream position `i`: the next `TOKEN_WINDOW` token ids,
/// zero-padded when the stream ends first.
pub open spec fn window_at(s: Seq<u32>, i: int) -> Seq<u32> {
    Seq::new(
        TOKEN_WINDOW as nat,
        |j: int|
            if i + j < s.len() {
                s[i + j]
            } else {
                0u32
            },
    )
}

/// Builds the window key for every stream position.
pub fn build_windows(s: &Vec<u32>) -> (r: Vec<Vec<u32>>)
    ensures
        r@.len() == s@.len(),
        forall|i: int| 0 <= i < s@.len() ==> #[trigger] r@[i]@ == window_at(s@, i),
{
    let n = s.len();
    let mut out: Vec<Vec<u32>> = Vec::new();
    let mut i: usize = 0;
    while i < n
        invariant
            i <= n,
            n == s@.len(),
            out@.len() == i,
            forall|t: int| 0 <= t < i ==> #[trigger] out@[t]@ == window_at(s@, t),
        decreases n - i,
    {
        let mut w: Vec<u32> = Vec::new();
        let mut j: usize = 0;
        while j < TOKEN_WINDOW
            invariant
                j <= TOKEN_WINDOW,
                i < n,
                n == s@.len(),
                w@.len() == j,
                forall|t: int|
                    0 <= t < j ==> #[trigger] w@[t] == (if i + t < n {
                        s@[i + t]
                    } else {
                        0u32
                    }),
            decreases TOKEN_WINDOW - j,
        {
            if j < n - i {
                w.push(s[i + j]);
            } else {
                w.push(0);
            }
            j = j + 1;
        }
        out.push(w);
        proof {
            assert(out@[i as int]@ =~= window_at(s@, i as int));
        }
        i = i + 1;
    }
    out
}

/// Strict lexicographic order on equal-length token windows.
pub open spec fn window_lt(a: Seq<u32>, b: Seq<u32>) -> bool
    decreases a.len(),
{
    if a.len() == 0 {
        b.len() > 0
    } else if b.len() == 0 {
        false
    } else {
        a[0] < b[0] || (a[0] == b[0] && window_lt(a.drop_first(), b.drop_first()))
    }
}

/// Compares two positions by their windows, for the position sort.
pub fn cmp_windows(windows: &Vec<Vec<u32>>, a: usize, b: usize) -> (r: core::cmp::Ordering)
    requires
        a < windows@.len(),
        b < windows@.len(),
    ensures
        r is Less <==> window_lt(windows@[a as int]@, windows@[b as int]@),
        r is Greater <==> window_lt(windows@[b as int]@, windows@[a as int]@),
        r is Equal <==> windows@[a as int]@ == windows@[b as int]@,
{
    let wa = &windows[a];
    let wb = &windows[b];
    let la = wa.len();
    let lb = wb.len();
    let min = if la < lb {
        la
    } else {
        lb
    };
    let mut i: usize = 0;
    proof {
        assert(wa@.skip(0) =~= wa@);
        assert(wb@.skip(0) =~= wb@);
    }
    while i < min
        invariant
            i <= min,
            a < windows@.len(),
            b < windows@.len(),
            wa@ == windows@[a as int]@,
            wb@ == windows@[b as int]@,
            min == if la < lb {
                la
            } else {
                lb
            },
            la == wa@.len(),
            lb == wb@.len(),
            forall|t: int| 0 <= t < i ==> wa@[t] == #[trigger] wb@[t],
            window_lt(wa@, wb@) == window_lt(wa@.skip(i as int), wb@.skip(i as int)),
            window_lt(wb@, wa@) == window_lt(wb@.skip(i as int), wa@.skip(i as int)),
            (wa@ == wb@) == (la == lb && wa@.skip(i as int) == wb@.skip(i as int)),
        decreases min - i,
    {
        let x = wa[i];
        let y = wb[i];
        proof {
            assert(wa@.skip(i as int)[0] == wa@[i as int]);
            assert(wb@.skip(i as int)[0] == wb@[i as int]);
            assert(wa@.skip(i as int).drop_first() =~= wa@.skip(i + 1));
            assert(wb@.skip(i as int).drop_first() =~= wb@.skip(i + 1));
        }
        if x < y {
            proof {
                assert(window_lt(wa@.skip(i as int), wb@.skip(i as int)));
                lemma_window_lt_not_both(wa@.skip(i as int), wb@.skip(i as int));
                lemma_window_lt_irreflexive(wa@.skip(i as int));
                assert(wa@ != wb@);
            }
            return core::cmp::Ordering::Less;
        }
        if x > y {
            proof {
                assert(window_lt(wb@.skip(i as int), wa@.skip(i as int)));
                lemma_window_lt_not_both(wb@.skip(i as int), wa@.skip(i as int));
                lemma_window_lt_irreflexive(wb@.skip(i as int));
                assert(wa@ != wb@);
            }
            return core::cmp::Ordering::Greater;
        }
        proof {
            if wa@.skip(i as int) == wb@.skip(i as int) {
                assert(wa@.skip(i + 1) =~= wb@.skip(i + 1));
            }
            if wa@.skip(i + 1) == wb@.skip(i + 1) && la == lb {
                assert forall|t: int| 0 <= t < wa@.skip(i as int).len() implies wa@.skip(
                    i as int,
                )[t] == wb@.skip(i as int)[t] by {
                    if t == 0 {
                        assert(wa@.skip(i as int)[0] == wa@[i as int]);
                        assert(wb@.skip(i as int)[0] == wb@[i as int]);
                    } else {
                        assert(wa@.skip(i as int)[t] == wa@.skip(i + 1)[t - 1]);
                        assert(wb@.skip(i as int)[t] == wb@.skip(i + 1)[t - 1]);
                    }
                }
                assert(wa@.skip(i as int) =~= wb@.skip(i as int));
            }
        }
        i = i + 1;
    }
    proof {
        if la == lb {
            assert(wa@.skip(i as int).len() == 0);
            assert(wb@.skip(i as int).len() == 0);
            assert(wa@.skip(i as int) =~= wb@.skip(i as int));
        }
    }
    if la < lb {
        proof {
            assert(wa@.skip(i as int).len() == 0);
            assert(wb@.skip(i as int).len() > 0);
            assert(window_lt(wa@.skip(i as int), wb@.skip(i as int)));
            assert(!window_lt(wb@.skip(i as int), wa@.skip(i as int)));
            assert(wa@ != wb@);
        }
        core::cmp::Ordering::Less
    } else if la > lb {
        proof {
            assert(wb@.skip(i as int).len() == 0);
            assert(wa@.skip(i as int).len() > 0);
            assert(window_lt(wb@.skip(i as int), wa@.skip(i as int)));
            assert(!window_lt(wa@.skip(i as int), wb@.skip(i as int)));
            assert(wa@ != wb@);
        }
        core::cmp::Ordering::Greater
    } else {
        proof {
            lemma_window_lt_irreflexive(wa@.skip(i as int));
        }
        core::cmp::Ordering::Equal
    }
}

/// The window order is strict: nothing sorts below itself or both ways.
pub proof fn lemma_window_lt_irreflexive(a: Seq<u32>)
    ensures
        !window_lt(a, a),
    decreases a.len(),
{
    if a.len() > 0 {
        lemma_window_lt_irreflexive(a.drop_first());
    }
}

/// At most one direction of the strict order can hold.
pub proof fn lemma_window_lt_not_both(a: Seq<u32>, b: Seq<u32>)
    requires
        window_lt(a, b),
    ensures
        !window_lt(b, a),
    decreases a.len(),
{
    if a.len() > 0 && b.len() > 0 && a[0] == b[0] {
        lemma_window_lt_not_both(a.drop_first(), b.drop_first());
    }
}

/// Relies on the standard library's slice sort (`sort_by`): with a
/// comparator that implements a total order, it reorders the slice into
/// non-decreasing comparator order and keeps exactly the same elements.
/// The closure only calls the verified `cmp_windows`.
#[verifier::external_body]
fn sort_positions_by_window(sa: &mut Vec<usize>, windows: &Vec<Vec<u32>>)
    requires
        forall|i: int| 0 <= i < old(sa)@.len() ==> #[trigger] old(sa)@[i] < windows@.len(),
    ensures
        final(sa)@.len() == old(sa)@.len(),
        final(sa)@.to_multiset() == old(sa)@.to_multiset(),
        forall|i: int| 0 <= i < final(sa)@.len() ==> #[trigger] final(sa)@[i] < windows@.len(),
        forall|i: int, j: int|
            0 <= i < j < final(sa)@.len() ==> !window_lt(
                windows@[final(sa)@[j] as int]@,
                windows@[final(sa)@[i] as int]@,
            ),
{
    sa.sort_by(|x: &usize, y: &usize| cmp_windows(windows, *x, *y));
}

/// Sorts all stream positions by their ten-token windows: the token
/// variant's replacement for a full suffix sort.
pub fn sort_stream_positions(s: &Vec<u32>) -> (sa: Vec<usize>)
    ensures
        sa@.len() == s@.len(),
        sa@.to_multiset() == Seq::new(s@.len(), |i: int| i as usize).to_multiset(),
        forall|i: int| 0 <= i < sa@.len() ==> #[trigger] sa@[i] < s@.len(),
        forall|i: int, j: int|
            0 <= i < j < sa@.len() ==> !window_lt(
                window_at(s@, sa@[j] as int),
                window_at(s@, sa@[i] as int),
            ),
{
    let windows = build_windows(s);
    let n = s.len();
    let mut sa: Vec<usize> = Vec::new();
    let mut i: usize = 0;
    while i < n
        invariant
            i <= n,
            sa@.len() == i,
            forall|t: int| 0 <= t < i ==> #[trigger] sa@[t] == t,
        decreases n - i,
    {
        sa.push(i);
        i = i + 1;
    }
    proof {
        assert(sa@ =~= Seq::new(s@.len(), |t: int| t as usize));
    }
    sort_positions_by_window(&mut sa, &windows);
    proof {
        assert forall|i: int, j: int| 0 <= i < j < sa@.len() implies !window_lt(
            window_at(s@, sa@[j] as int),
            window_at(s@, sa@[i] as int),
        ) by {
            assert(windows@[sa@[i] as int]@ == window_at(s@, sa@[i] as int));
            assert(windows@[sa@[j] as int]@ == window_at(s@, sa@[j] as int));
        }
    }
    sa
}

/// Derives the token BWT and owner array from the sorted window order, with
/// the rank-0 wrap-around handled explicitly.
pub fn derive_token_bwt(s: &Vec<u32>, uids: &Vec<u64>, sa: &Vec<usize>) -> (r: (
    Vec<u32>,
    Vec<u64>,
))
    requires
        uids@.len() == s@.len(),
        sa@.len() == s@.len(),
        forall|i: int| 0 <= i < sa@.len() ==> #[trigger] sa@[i] < s@.len(),
    ensures
        r.0@.len() == sa@.len(),
        r.1@.len() == sa@.len(),
        forall|i: int|
            0 <= i < sa@.len() ==> r.0@[i] == s@[crate::suffix::wrap_prev(
                s@.len() as int,
                sa@[i] as int,
            )],
        forall|i: int|
            0 <= i < sa@.len() ==> r.1@[i] == uids@[crate::suffix::wrap_prev(
                s@.len() as int,
                sa@[i] as int,
            )],
{
    let n = s.len();
    let mut bwt: Vec<u32> = Vec::new();
    let mut idx: Vec<u64> = Vec::new();
    let mut i: usize = 0;
    while i < n
        invariant
            i <= n,
            n == s@.len(),
            uids@.len() == n,
            sa@.len() == n,
            forall|t: int| 0 <= t < n ==> #[trigger] sa@[t] < n,
            bwt@.len() == i,
            idx@.len() == i,
            forall|t: int|
                0 <= t < i ==> bwt@[t] == s@[crate::suffix::wrap_prev(n as int, sa@[t] as int)],
            forall|t: int|
                0 <= t < i ==> idx@[t] == uids@[crate::suffix::wrap_prev(n as int, sa@[t] as int)],
        decreases n - i,
    {
        let v = sa[i];
        let p: usize = if v == 0 {
            n - 1
        } else {
            v - 1
        };
        bwt.push(s[p]);
        idx.push(uids[p]);
        i = i + 1;
    }
    (bwt, idx)
}


/// The concatenated token stream of a document collection.
pub open spec fn token_corpus(docs: Seq<(u64, Vec<u32>)>, skip: Seq<u32>, k: int) -> Seq<u32>
    decreases docs.len(),
{
    if docs.len() == 0 {
        Seq::empty()
    } else {
        token_corpus(docs.drop_last(), skip, k) + subsample_tokens(
            filter_tokens(docs.last().1@, skip),
            k,
        )
    }
}

/// The owner array parallel to `token_corpus`.
pub open spec fn token_owners(docs: Seq<(u64, Vec<u32>)>, skip: Seq<u32>, k: int) -> Seq<u64>
    decreases docs.len(),
{
    if docs.len() == 0 {
        Seq::empty()
    } else {
        token_owners(docs.drop_last(), skip, k) + Seq::new(
            subsample_tokens(filter_tokens(docs.last().1@, skip), k).len(),
            |j: int| docs.last().0,
        )
    }
}

/// Builds the tokenized variant's BWT and owner array: encode every
/// document, concatenate, sort positions by their ten-token windows, and take
/// each position's preceding symbol and owner.
pub fn build_token_bwt(docs: &Vec<(u64, Vec<u32>)>, skip: &Vec<u32>, k: u32) -> (r: (
    Vec<u32>,
    Vec<u64>,
))
    requires
        k >= 1,
    ensures
        r.0@.len() == token_corpus(docs@, skip@, k as int).len(),
        r.1@.len() == r.0@.len(),
        exists|sa: Seq<usize>|
            {
                let s = token_corpus(docs@, skip@, k as int);
                let uids = token_owners(docs@, skip@, k as int);
                &&& #[trigger] sa.len() == s.len()
                &&& sa.to_multiset() == Seq::new(s.len(), |i: int| i as usize).to_multiset()
                &&& (forall|i: int| 0 <= i < sa.len() ==> #[trigger] sa[i] < s.len())
                &&& (forall|i: int, j: int|
                    0 <= i < j < sa.len() ==> !window_lt(
                        window_at(s, sa[j] as int),
                        window_at(s, sa[i] as int),
                    ))
                &&& (forall|i: int|
                    0 <= i < sa.len() ==> r.0@[i] == s[crate::suffix::wrap_prev(
                        s.len() as int,
                        sa[i] as int,
                    )])
                &&& (forall|i: int|
                    0 <= i < sa.len() ==> r.1@[i] == uids[crate::suffix::wrap_prev(
                        s.len() as int,
                        sa[i] as int,
                    )])
            },
{
    let mut stream: Vec<u32> = Vec::new();
    let mut uids: Vec<u64> = Vec::new();
    let mut d: usize = 0;
    while d < docs.len()
        invariant
            d <= docs@.len(),
            k >= 1,
            stream@ == token_corpus(docs@.take(d as int), skip@, k as int),
            uids@ == token_owners(docs@.take(d as int), skip@, k as int),
            stream@.len() == uids@.len(),
        decreases docs@.len() - d,
    {
        let uid = docs[d].0;
        let enc = encode_tokens(&docs[d].1, skip, k);
        proof {
            assert(docs@.take(d + 1).drop_last() =~= docs@.take(d as int));
            assert(docs@.take(d + 1).last() == docs@[d as int]);
        }
        let ghost old_stream = stream@;
        let ghost old_uids = uids@;
        let m = enc.len();
        let mut j: usize = 0;
        while j < m
            invariant
                j <= m,
                m == enc@.len(),
                stream@ == old_stream + enc@.take(j as int),
                uids@ == old_uids + Seq::new(j as nat, |t: int| uid),
            decreases m - j,
        {
            stream.push(enc[j]);
            uids.push(uid);
            proof {
                assert(old_stream + enc@.take(j + 1) =~= (old_stream + enc@.take(j as int)).push(
                    enc@[j as int],
                ));
                assert(old_uids + Seq::new((j + 1) as nat, |t: int| uid) =~= (old_uids + Seq::new(
                    j as nat,
                    |t: int| uid,
                )).push(uid));
            }
            j = j + 1;
        }
        proof {
            assert(enc@.take(enc@.len() as int) =~= enc@);
            assert(stream@ =~= token_corpus(docs@.take(d + 1), skip@, k as int));
            assert(uids@ =~= token_owners(docs@.take(d + 1), skip@, k as int));
        }
        d = d + 1;
    }
    proof {
        assert(docs@.take(docs@.len() as int) =~= docs@);
    }
    let sa = sort_stream_positions(&stream);
    let (bwt, idx) = derive_token_bwt(&stream, &uids, &sa);
    proof {
        assert(sa@.len() == stream@.len());
    }
    (bwt, idx)
}

} // verus!
