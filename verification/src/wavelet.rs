//! The wavelet-tree rank oracle: a binary tree over the byte alphabet in
//! which each node covers a contiguous alphabet sub-range and stores a bitmap
//! over the stream positions assigned to it (true = symbol goes to the right
//! half).  A rank query descends one level per bitmap-rank operation, so its
//! cost is logarithmic in the alphabet size instead of linear in a chunk.
use vstd::prelude::*;
use crate::fm::{occ, count_lt};
use crate::search::{cc_wf, bs_spec, bs_from, lemma_occ_agree};
use crate::fm::{lemma_occ_bounds, lemma_occ_monotonic, lemma_rank_bracket, lemma_count_lt_bounds};
use crate::EARLY_STOP_WIDTH;

verus! {

/// The subsequence of `s` whose symbols lie in the alphabet range `[lo, hi)`.
pub open spec fn fil(s: Seq<u8>, lo: int, hi: int) -> Seq<u8>
    decreases s.len(),
{
    if s.len() == 0 {
        Seq::empty()
    } else {
        fil(s.drop_last(), lo, hi) + if lo <= s.last() < hi {
            seq![s.last()]
        } else {
            Seq::<u8>::empty()
        }
    }
}

/// How many of the first `p` symbols of `s` lie in `[lo, hi)`.
pub open spec fn cnt(s: Seq<u8>, lo: int, hi: int, p: int) -> int
    decreases p,
{
    if p <= 0 {
        0
    } else {
        cnt(s, lo, hi, p - 1) + if lo <= s[p - 1] < hi {
            1int
        } else {
            0int
        }
    }
}

/// How many of the first `p` bits are set.
pub open spec fn count_true(bits: Seq<bool>, p: int) -> int
    decreases p,
{
    if p <= 0 {
        0
    } else {
        count_true(bits, p - 1) + if bits[p - 1] {
            1int
        } else {
            0int
        }
    }
}

/// One wavelet-tree node covering the alphabet range `[lo, hi)`.
pub struct WaveletNode {
    pub lo: u16,
    pub hi: u16,
    pub bits: Vec<bool>,
    pub left: Option<Box<WaveletNode>>,
    pub right: Option<Box<WaveletNode>>,
}

/// What it means for a node to represent the symbol sequence `s` over its
/// alphabet range: internal nodes store one bit per symbol (set when the
/// symbol falls in the upper half) and their children represent the two
/// filtered subsequences.
pub open spec fn wnode_wf(node: WaveletNode, s: Seq<u8>) -> bool
    decreases node,
{
    let lo = node.lo as int;
    let hi = node.hi as int;
    &&& 0 <= lo < hi <= 256
    &&& forall|t: int| 0 <= t < s.len() ==> lo <= #[trigger] s[t] < hi
    &&& if hi - lo == 1 {
        &&& node.bits@.len() == 0
        &&& node.left is None
        &&& node.right is None
    } else {
        let mid = (lo + hi) / 2;
        &&& node.bits@.len() == s.len()
        &&& (forall|t: int| 0 <= t < s.len() ==> (#[trigger] node.bits@[t] <==> s[t] >= mid))
        &&& node.left matches Some(l) && l.lo as int == lo && l.hi as int == mid && wnode_wf(
            *l,
            fil(s, lo, mid),
        )
        &&& node.right matches Some(r) && r.lo as int == mid && r.hi as int == hi && wnode_wf(
            *r,
            fil(s, mid, hi),
        )
    }
}

/// Every symbol of the filtered subsequence lies in the filter's range.
pub proof fn lemma_fil_in_range(s: Seq<u8>, lo: int, hi: int)
    ensures
        forall|t: int| 0 <= t < fil(s, lo, hi).len() ==> lo <= #[trigger] fil(s, lo, hi)[t] < hi,
    decreases s.len(),
{
    if s.len() > 0 {
        let s1 = s.drop_last();
        lemma_fil_in_range(s1, lo, hi);
        let f1 = fil(s1, lo, hi);
        let f = fil(s, lo, hi);
        assert forall|t: int| 0 <= t < f.len() implies lo <= #[trigger] f[t] < hi by {
            if t < f1.len() {
                assert(f[t] == f1[t]);
            } else {
                assert(f[t] == s.last());
            }
        }
    }
}

/// Counting a prefix only looks at the prefix.
pub proof fn lemma_cnt_agree(a: Seq<u8>, b: Seq<u8>, lo: int, hi: int, p: int)
    requires
        p <= a.len(),
        p <= b.len(),
        forall|t: int| 0 <= t < p ==> a[t] == b[t],
    ensures
        cnt(a, lo, hi, p) == cnt(b, lo, hi, p),
    decreases p,
{
    if p > 0 {
        lemma_cnt_agree(a, b, lo, hi, p - 1);
    }
}

/// In-range counts are between zero and the prefix length.
pub proof fn lemma_cnt_range(s: Seq<u8>, lo: int, hi: int, q: int)
    ensures
        0 <= cnt(s, lo, hi, q) <= if q <= 0 {
            0int
        } else {
            q
        },
    decreases if q <= 0 {
        0int
    } else {
        q
    },
{
    if q > 0 {
        lemma_cnt_range(s, lo, hi, q - 1);
    }
}

/// In-range counts only grow with the prefix.
pub proof fn lemma_cnt_bounds(s: Seq<u8>, lo: int, hi: int, p: int, q: int)
    requires
        p <= q,
    ensures
        cnt(s, lo, hi, p) <= cnt(s, lo, hi, q),
        0 <= cnt(s, lo, hi, q) <= if q <= 0 {
            0int
        } else {
            q
        },
    decreases q - p,
{
    lemma_cnt_range(s, lo, hi, q);
    lemma_cnt_range(s, lo, hi, p);
    if p < q {
        lemma_cnt_bounds(s, lo, hi, p, q - 1);
    }
}

/// The full in-range count is the length of the filtered subsequence.
pub proof fn lemma_cnt_full(s: Seq<u8>, lo: int, hi: int)
    ensures
        cnt(s, lo, hi, s.len() as int) == fil(s, lo, hi).len(),
    decreases s.len(),
{
    if s.len() > 0 {
        lemma_cnt_full(s.drop_last(), lo, hi);
        lemma_cnt_agree(s, s.drop_last(), lo, hi, s.len() - 1);
    }
}

/// Filtering a prefix of `s` yields the matching prefix of the filtered
/// sequence.
pub proof fn lemma_prefix_filter(s: Seq<u8>, lo: int, hi: int, p: int)
    requires
        0 <= p <= s.len(),
    ensures
        fil(s.take(p), lo, hi) == fil(s, lo, hi).take(cnt(s, lo, hi, p)),
    decreases s.len(),
{
    if p == s.len() {
        assert(s.take(p) =~= s);
        lemma_cnt_full(s, lo, hi);
        assert(fil(s, lo, hi).take(cnt(s, lo, hi, p)) =~= fil(s, lo, hi));
    } else {
        let s1 = s.drop_last();
        assert(s.take(p) =~= s1.take(p));
        lemma_prefix_filter(s1, lo, hi, p);
        lemma_cnt_agree(s, s1, lo, hi, p);
        lemma_cnt_full(s1, lo, hi);
        lemma_cnt_bounds(s1, lo, hi, p, s1.len() as int);
        let c = cnt(s1, lo, hi, p);
        lemma_cnt_range(s1, lo, hi, p);
        assert(0 <= c);
        assert(c == cnt(s, lo, hi, p));
        assert(c <= fil(s1, lo, hi).len());
        let f1 = fil(s1, lo, hi);
        let f = fil(s, lo, hi);
        let x = if lo <= s.last() < hi {
            seq![s.last()]
        } else {
            Seq::<u8>::empty()
        };
        assert(f == f1 + x);
        assert forall|t: int| 0 <= t < c implies #[trigger] f.take(c)[t] == f1.take(c)[t] by {
            assert(f[t] == (f1 + x)[t]);
            assert((f1 + x)[t] == f1[t]);
            assert(f.take(c)[t] == f[t]);
            assert(f1.take(c)[t] == f1[t]);
        }
        assert(f1.take(c) =~= f.take(c));
    }
}

/// Dropping out-of-range symbols does not change the total count of an
/// in-range symbol.
pub proof fn lemma_occ_through_filter_full(s: Seq<u8>, lo: int, hi: int, sym: u8)
    requires
        lo <= sym < hi,
    ensures
        occ(fil(s, lo, hi), sym, fil(s, lo, hi).len() as int) == occ(s, sym, s.len() as int),
    decreases s.len(),
{
    if s.len() > 0 {
        let s1 = s.drop_last();
        lemma_occ_through_filter_full(s1, lo, hi, sym);
        lemma_occ_agree(s, s1, sym, s.len() - 1);
        let f1 = fil(s1, lo, hi);
        if lo <= s.last() < hi {
            assert(fil(s, lo, hi) =~= f1.push(s.last()));
            lemma_occ_agree(fil(s, lo, hi), f1, sym, f1.len() as int);
            assert(fil(s, lo, hi)[f1.len() as int] == s.last());
        } else {
            assert(fil(s, lo, hi) =~= f1);
            assert(s.last() != sym);
        }
    }
}

/// Rank queries can be pushed through the filter: the occurrences of an
/// in-range symbol among the first `p` positions equal its occurrences among
/// the first `cnt` positions of the filtered subsequence.
pub proof fn lemma_occ_through_filter(s: Seq<u8>, lo: int, hi: int, sym: u8, p: int)
    requires
        lo <= sym < hi,
        0 <= p <= s.len(),
    ensures
        occ(fil(s, lo, hi), sym, cnt(s, lo, hi, p)) == occ(s, sym, p),
{
    let f = fil(s, lo, hi);
    let c = cnt(s, lo, hi, p);
    lemma_prefix_filter(s, lo, hi, p);
    lemma_cnt_bounds(s, lo, hi, p, s.len() as int);
    lemma_cnt_full(s, lo, hi);
    assert(occ(f, sym, c) == occ(f.take(c), sym, c)) by {
        lemma_occ_agree(f, f.take(c), sym, c);
    }
    let tp = s.take(p);
    lemma_cnt_agree(s, tp, lo, hi, p);
    lemma_cnt_full(tp, lo, hi);
    assert(fil(tp, lo, hi).len() == c);
    lemma_occ_through_filter_full(tp, lo, hi, sym);
    lemma_occ_agree(s, tp, sym, p);
}


/// An in-range element can be read back out of the filtered subsequence at
/// its in-range count.
pub proof fn lemma_fil_element(s: Seq<u8>, lo: int, hi: int, i: int)
    requires
        0 <= i < s.len(),
        lo <= s[i] < hi,
    ensures
        0 <= cnt(s, lo, hi, i) < fil(s, lo, hi).len(),
        fil(s, lo, hi)[cnt(s, lo, hi, i)] == s[i],
{
    lemma_cnt_range(s, lo, hi, i);
    lemma_prefix_filter(s, lo, hi, i);
    lemma_prefix_filter(s, lo, hi, i + 1);
    lemma_cnt_bounds(s, lo, hi, i + 1, s.len() as int);
    lemma_cnt_full(s, lo, hi);
    assert(s.take(i + 1).drop_last() =~= s.take(i));
    assert(fil(s.take(i + 1), lo, hi) =~= fil(s.take(i), lo, hi).push(s[i]));
    let c = cnt(s, lo, hi, i);
    assert(cnt(s, lo, hi, i + 1) == c + 1);
    assert(fil(s, lo, hi).take(c + 1)[c] == s[i]);
}

/// A wavelet node determines the sequence it represents: two sequences of
/// the same length that one node is well-formed over are equal.
pub proof fn lemma_wavelet_content_unique(node: WaveletNode, s1: Seq<u8>, s2: Seq<u8>)
    requires
        wnode_wf(node, s1),
        wnode_wf(node, s2),
        s1.len() == s2.len(),
    ensures
        s1 == s2,
    decreases node.hi - node.lo,
{
    let lo = node.lo as int;
    let hi = node.hi as int;
    if hi - lo == 1 {
        assert forall|t: int| 0 <= t < s1.len() implies s1[t] == #[trigger] s2[t] by {
            assert(lo <= s1[t] < hi);
            assert(lo <= s2[t] < hi);
        }
        assert(s1 =~= s2);
    } else {
        let mid = (lo + hi) / 2;
        let l1 = fil(s1, lo, mid);
        let l2 = fil(s2, lo, mid);
        let r1 = fil(s1, mid, hi);
        let r2 = fil(s2, mid, hi);
        lemma_count_true_cnt(node.bits@, s1, lo, mid, hi, s1.len() as int);
        lemma_count_true_cnt(node.bits@, s2, lo, mid, hi, s2.len() as int);
        lemma_cnt_full(s1, lo, mid);
        lemma_cnt_full(s2, lo, mid);
        lemma_cnt_full(s1, mid, hi);
        lemma_cnt_full(s2, mid, hi);
        assert(l1.len() == l2.len());
        assert(r1.len() == r2.len());
        let left = node.left->0;
        let right = node.right->0;
        lemma_wavelet_content_unique(*left, l1, l2);
        lemma_wavelet_content_unique(*right, r1, r2);
        assert forall|t: int| 0 <= t < s1.len() implies s1[t] == #[trigger] s2[t] by {
            lemma_count_true_cnt(node.bits@, s1, lo, mid, hi, t);
            lemma_count_true_cnt(node.bits@, s2, lo, mid, hi, t);
            if node.bits@[t] {
                lemma_fil_element(s1, mid, hi, t);
                lemma_fil_element(s2, mid, hi, t);
            } else {
                lemma_fil_element(s1, lo, mid, t);
                lemma_fil_element(s2, lo, mid, t);
            }
        }
        assert(s1 =~= s2);
    }
}

/// Bit counts match in-range counts when the bits mark the upper half.
pub proof fn lemma_count_true_cnt(bits: Seq<bool>, s: Seq<u8>, lo: int, mid: int, hi: int, p: int)
    requires
        bits.len() == s.len(),
        0 <= p <= s.len(),
        forall|t: int| 0 <= t < s.len() ==> lo <= #[trigger] s[t] < hi,
        forall|t: int| 0 <= t < s.len() ==> (#[trigger] bits[t] <==> s[t] >= mid),
    ensures
        count_true(bits, p) == cnt(s, mid, hi, p),
        p - count_true(bits, p) == cnt(s, lo, mid, p),
    decreases p,
{
    if p > 0 {
        lemma_count_true_cnt(bits, s, lo, mid, hi, p - 1);
    }
}

/// In a single-symbol alphabet range every prefix is all that symbol.
pub proof fn lemma_occ_all_equal(s: Seq<u8>, sym: u8, p: int)
    requires
        0 <= p <= s.len(),
        forall|t: int| 0 <= t < s.len() ==> #[trigger] s[t] == sym,
    ensures
        occ(s, sym, p) == p,
    decreases p,
{
    if p > 0 {
        lemma_occ_all_equal(s, sym, p - 1);
    }
}

/// Counts the set bits among the first `p` entries of a bitmap.
pub fn bitmap_rank(bits: &Vec<bool>, p: usize) -> (r: usize)
    requires
        p <= bits@.len(),
    ensures
        r == count_true(bits@, p as int),
        r <= p,
{
    let mut r: usize = 0;
    let mut t: usize = 0;
    while t < p
        invariant
            t <= p <= bits@.len(),
            r == count_true(bits@, t as int),
            r <= t,
        decreases p - t,
    {
        if bits[t] {
            r = r + 1;
        }
        t = t + 1;
    }
    r
}

/// Answers `rank(sym, p)` by descending from this node: at each level the
/// query moves to the child covering `sym`'s half of the alphabet range, and
/// the position is re-based through a bitmap rank.
pub fn wnode_rank(node: &WaveletNode, sym: u8, p: usize, Ghost(s): Ghost<Seq<u8>>) -> (r: usize)
    requires
        wnode_wf(*node, s),
        node.lo as int <= sym as int,
        (sym as int) < node.hi as int,
        p <= s.len(),
    ensures
        r == occ(s, sym, p as int),
    decreases node.hi - node.lo,
{
    if node.hi - node.lo == 1 {
        proof {
            assert(forall|t: int| 0 <= t < s.len() ==> #[trigger] s[t] == sym);
            lemma_occ_all_equal(s, sym, p as int);
        }
        return p;
    }
    let mid: u16 = (node.lo + node.hi) / 2;
    let rank1 = bitmap_rank(&node.bits, p);
    proof {
        lemma_count_true_cnt(
            node.bits@,
            s,
            node.lo as int,
            mid as int,
            node.hi as int,
            p as int,
        );
    }
    if (sym as u16) < mid {
        let p2 = p - rank1;
        proof {
            lemma_cnt_bounds(s, node.lo as int, mid as int, p as int, s.len() as int);
            lemma_cnt_full(s, node.lo as int, mid as int);
            lemma_occ_through_filter(s, node.lo as int, mid as int, sym, p as int);
        }
        match &node.left {
            Some(l) => wnode_rank(l, sym, p2, Ghost(fil(s, node.lo as int, mid as int))),
            None => vstd::pervasive::unreached(),
        }
    } else {
        let p2 = rank1;
        proof {
            lemma_cnt_bounds(s, mid as int, node.hi as int, p as int, s.len() as int);
            lemma_cnt_full(s, mid as int, node.hi as int);
            lemma_occ_through_filter(s, mid as int, node.hi as int, sym, p as int);
        }
        match &node.right {
            Some(r) => wnode_rank(r, sym, p2, Ghost(fil(s, mid as int, node.hi as int))),
            None => vstd::pervasive::unreached(),
        }
    }
}

/// Builds the wavelet node covering `[lo, hi)` over the symbol sequence
/// `syms`, recursively bisecting the alphabet range.
pub fn build_wnode(syms: Vec<u8>, lo: u16, hi: u16) -> (node: WaveletNode)
    requires
        lo < hi,
        hi <= 256,
        forall|t: int| 0 <= t < syms@.len() ==> lo as int <= #[trigger] syms@[t] < hi as int,
    ensures
        wnode_wf(node, syms@),
        node.lo == lo,
        node.hi == hi,
    decreases hi - lo,
{
    if hi - lo == 1 {
        return WaveletNode { lo, hi, bits: Vec::new(), left: Option::None, right: Option::None };
    }
    let mid: u16 = (lo + hi) / 2;
    let mut bits: Vec<bool> = Vec::new();
    let mut left_syms: Vec<u8> = Vec::new();
    let mut right_syms: Vec<u8> = Vec::new();
    let mut i: usize = 0;
    while i < syms.len()
        invariant
            i <= syms@.len(),
            lo < mid < hi <= 256,
            mid == (lo + hi) / 2,
            forall|t: int| 0 <= t < syms@.len() ==> lo as int <= #[trigger] syms@[t] < hi as int,
            bits@.len() == i,
            forall|t: int| 0 <= t < i ==> (#[trigger] bits@[t] <==> syms@[t] >= mid as int),
            left_syms@ == fil(syms@.take(i as int), lo as int, mid as int),
            right_syms@ == fil(syms@.take(i as int), mid as int, hi as int),
        decreases syms@.len() - i,
    {
        let b = syms[i];
        proof {
            assert(syms@.take(i + 1).drop_last() =~= syms@.take(i as int));
            assert(syms@.take(i + 1).last() == syms@[i as int]);
        }
        if (b as u16) >= mid {
            bits.push(true);
            right_syms.push(b);
            proof {
                assert(fil(syms@.take(i + 1), lo as int, mid as int) =~= left_syms@);
                assert(fil(syms@.take(i + 1), mid as int, hi as int) =~= right_syms@);
            }
        } else {
            bits.push(false);
            left_syms.push(b);
            proof {
                assert(fil(syms@.take(i + 1), lo as int, mid as int) =~= left_syms@);
                assert(fil(syms@.take(i + 1), mid as int, hi as int) =~= right_syms@);
            }
        }
        i = i + 1;
    }
    proof {
        assert(syms@.take(syms@.len() as int) =~= syms@);
    }
    let ghost gsyms = syms@;
    proof {
        lemma_fil_in_range(gsyms, lo as int, mid as int);
        lemma_fil_in_range(gsyms, mid as int, hi as int);
    }
    let l = build_wnode(left_syms, lo, mid);
    let r = build_wnode(right_syms, mid, hi);
    let node = WaveletNode {
        lo,
        hi,
        bits,
        left: Option::Some(Box::new(l)),
        right: Option::Some(Box::new(r)),
    };
    proof {
        assert(wnode_wf(node, gsyms));
    }
    node
}

/// Builds the wavelet tree over the whole BWT, rooted at the full byte
/// alphabet.
pub fn construct_wavelet_tree(bwt: &Vec<u8>) -> (root: WaveletNode)
    ensures
        wnode_wf(root, bwt@),
        root.lo == 0,
        root.hi == 256,
{
    let mut syms: Vec<u8> = Vec::new();
    let mut i: usize = 0;
    while i < bwt.len()
        invariant
            i <= bwt@.len(),
            syms@ == bwt@.take(i as int),
        decreases bwt@.len() - i,
    {
        syms.push(bwt[i]);
        proof {
            assert(bwt@.take(i + 1) =~= bwt@.take(i as int).push(bwt@[i as int]));
        }
        i = i + 1;
    }
    proof {
        assert(bwt@.take(bwt@.len() as int) =~= bwt@);
    }
    build_wnode(syms, 0, 256)
}

/// Runs backward search with the wavelet tree as the rank oracle: the exec
/// mirror of `bs_spec`, so for any query it produces exactly the range the
/// chunked-FM oracle produces over the same BWT.
pub fn wavelet_backward_search(
    root: &WaveletNode,
    c: &Vec<u64>,
    query: &Vec<u8>,
    Ghost(s): Ghost<Seq<u8>>,
) -> (r: (usize, usize))
    requires
        wnode_wf(*root, s),
        root.lo == 0,
        root.hi == 256,
        cc_wf(c@, s),
    ensures
        (r.0 as int, r.1 as int) == bs_spec(s, query@),
{
    let mut st: usize = 0;
    let mut en: usize = root.bits.len();
    proof {
        assert(en == s.len());
    }
    let mut e: usize = query.len();
    while e > 0
        invariant
            0 <= st <= en <= s.len(),
            s.len() <= usize::MAX,
            e <= query@.len(),
            wnode_wf(*root, s),
            root.lo == 0,
            root.hi == 256,
            cc_wf(c@, s),
            bs_spec(s, query@) == bs_from(s, query@, e as int, st as int, en as int),
        decreases e,
    {
        let sym = query[e - 1];
        let rs = wnode_rank(root, sym, st, Ghost(s));
        let re = wnode_rank(root, sym, en, Ghost(s));
        proof {
            lemma_rank_bracket(s, sym as int, st as int);
            lemma_rank_bracket(s, sym as int, en as int);
            lemma_occ_bounds(s, sym, st as int);
            lemma_occ_bounds(s, sym, en as int);
            lemma_occ_monotonic(s, sym, st as int, en as int);
            lemma_count_lt_bounds(s, sym as int);
        }
        let base = c[sym as usize];
        proof {
            assert(base as int + rs as int <= s.len());
            assert(base as int + re as int <= s.len());
        }
        let ns64 = base + rs as u64;
        let ne64 = base + re as u64;
        proof {
            assert(ns64 <= usize::MAX as u64);
            assert(ne64 <= usize::MAX as u64);
        }
        let ns = ns64 as usize;
        let ne = ne64 as usize;
        proof {
            assert(ns as int == count_lt(s, sym as int) + occ(s, sym, st as int));
            assert(ne as int == count_lt(s, sym as int) + occ(s, sym, en as int));
        }
        if ns >= ne {
            return (ns, ne);
        }
        if ne - ns <= EARLY_STOP_WIDTH {
            return (ns, ne);
        }
        st = ns;
        en = ne;
        e = e - 1;
    }
    (st, en)
}

} // verus!
