//! Symbol encoder for the character variant: documents become streams of
//! lower-cased bytes with separator bytes dropped, optionally thinned by a
//! skip factor, concatenated across documents in input order and paired with
//! a same-length owner array of document ids.
use vstd::prelude::*;

verus! {

/// ASCII lower-casing of one byte.
pub open spec fn lower_byte(b: u8) -> u8 {
    if 65 <= b <= 90 {
        (b + 32) as u8
    } else {
        b
    }
}

/// The fixed skip set: ASCII whitespace and punctuation act as separators and
/// are never indexed.
pub open spec fn is_skip_byte(b: u8) -> bool {
    ||| b == 9
    ||| b == 10
    ||| b == 11
    ||| b == 12
    ||| b == 13
    ||| b == 32
    ||| (33 <= b <= 47)
    ||| (58 <= b <= 64)
    ||| (91 <= b <= 96)
    ||| (123 <= b <= 126)
}

/// Exec mirror of `lower_byte`.
pub fn lower_byte_x(b: u8) -> (r: u8)
    ensures
        r == lower_byte(b),
{
    if 65 <= b && b <= 90 {
        b + 32
    } else {
        b
    }
}

/// Exec mirror of `is_skip_byte`.
pub fn is_skip_byte_x(b: u8) -> (r: bool)
    ensures
        r == is_skip_byte(b),
{
    b == 9 || b == 10 || b == 11 || b == 12 || b == 13 || b == 32 || (33 <= b && b <= 47) || (58
        <= b && b <= 64) || (91 <= b && b <= 96) || (123 <= b && b <= 126)
}

/// One document's text, lower-cased with the skip set dropped, before any
/// skip-factor thinning.
pub open spec fn encode_symbols(text: Seq<u8>) -> Seq<u8>
    decreases text.len(),
{
    if text.len() == 0 {
        Seq::empty()
    } else {
        encode_symbols(text.drop_last()) + if is_skip_byte(lower_byte(text.last())) {
            Seq::<u8>::empty()
        } else {
            seq![lower_byte(text.last())]
        }
    }
}

/// Whether position `i` of the filtered stream survives a skip factor of `k`:
/// a factor of one keeps everything, a larger factor keeps the positions
/// congruent to one modulo `k`.
pub open spec fn keep_at(i: int, k: int) -> bool {
    k == 1 || i % k == 1
}

/// Every `k`-th symbol of `s`, in order.
pub open spec fn subsample(s: Seq<u8>, k: int) -> Seq<u8>
    decreases s.len(),
{
    if s.len() == 0 {
        Seq::empty()
    } else {
        subsample(s.drop_last(), k) + if keep_at(s.len() - 1, k) {
            seq![s.last()]
        } else {
            Seq::<u8>::empty()
        }
    }
}

/// The symbol stream one document contributes to the index.
pub open spec fn encoded_stream(text: Seq<u8>, k: int) -> Seq<u8> {
    subsample(encode_symbols(text), k)
}

/// The concatenated symbol stream of a document collection.
pub open spec fn corpus_symbols(texts: Seq<(u64, Vec<u8>)>, k: int) -> Seq<u8>
    decreases texts.len(),
{
    if texts.len() == 0 {
        Seq::empty()
    } else {
        corpus_symbols(texts.drop_last(), k) + encoded_stream(texts.last().1@, k)
    }
}

/// The owner array parallel to `corpus_symbols`: each symbol is tagged with
/// the id of the document that produced it.
pub open spec fn corpus_owners(texts: Seq<(u64, Vec<u8>)>, k: int) -> Seq<u64>
    decreases texts.len(),
{
    if texts.len() == 0 {
        Seq::empty()
    } else {
        corpus_owners(texts.drop_last(), k) + Seq::new(
            encoded_stream(texts.last().1@, k).len(),
            |j: int| texts.last().0,
        )
    }
}

/// A skip factor of one keeps the stream unchanged.
pub proof fn lemma_subsample_one(s: Seq<u8>)
    ensures
        subsample(s, 1) == s,
    decreases s.len(),
{
    if s.len() > 0 {
        lemma_subsample_one(s.drop_last());
        assert(subsample(s, 1) =~= s);
    } else {
        assert(subsample(s, 1) =~= s);
    }
}

/// How many of the first `m` filtered positions a skip factor of `k` keeps.
pub open spec fn kept_count(m: int, k: int) -> int
    decreases if m <= 0 {
        0int
    } else {
        m
    },
{
    if m <= 0 {
        0
    } else {
        kept_count(m - 1, k) + if keep_at(m - 1, k) {
            1int
        } else {
            0int
        }
    }
}

/// The thinned stream's length is the kept count of the full length.
pub proof fn lemma_subsample_len(s: Seq<u8>, k: int)
    ensures
        subsample(s, k).len() == kept_count(s.len() as int, k),
    decreases s.len(),
{
    if s.len() > 0 {
        lemma_subsample_len(s.drop_last(), k);
    }
}

/// Closed form of the kept count for factors of at least two: positions
/// `1, 1 + k, 1 + 2k, ...` survive.
pub proof fn lemma_kept_count_closed(m: int, k: int)
    requires
        k >= 2,
        m >= 0,
    ensures
        kept_count(m, k) == if m >= 2 {
            (m - 2) / k + 1
        } else {
            0int
        },
    decreases m,
{
    if m > 0 {
        lemma_kept_count_closed(m - 1, k);
        if m == 1 {
            assert(!keep_at(0, k)) by {
                assert(0int % k == 0) by (nonlinear_arith)
                    requires
                        k >= 2,
                ;
            }
        } else if m == 2 {
            assert(keep_at(1, k)) by {
                assert(1int % k == 1) by (nonlinear_arith)
                    requires
                        k >= 2,
                ;
            }
            assert((0int) / k == 0) by (nonlinear_arith)
                requires
                    k >= 2,
            ;
        } else {
            let q = (m - 3) / k;
            let r = (m - 3) % k;
            vstd::arithmetic::div_mod::lemma_fundamental_div_mod(m - 3, k);
            if r == k - 1 {
                assert(m - 2 == (q + 1) * k + 0 && m - 1 == (q + 1) * k + 1) by (nonlinear_arith)
                    requires
                        m - 3 == k * q + r,
                        r == k - 1,
                ;
                vstd::arithmetic::div_mod::lemma_fundamental_div_mod_converse(
                    m - 2,
                    k,
                    q + 1,
                    0,
                );
                vstd::arithmetic::div_mod::lemma_fundamental_div_mod_converse(
                    m - 1,
                    k,
                    q + 1,
                    1,
                );
                assert(keep_at(m - 1, k));
            } else {
                assert(m - 2 == q * k + (r + 1)) by (nonlinear_arith)
                    requires
                        m - 3 == k * q + r,
                ;
                vstd::arithmetic::div_mod::lemma_fundamental_div_mod_converse(
                    m - 2,
                    k,
                    q,
                    r + 1,
                );
                if r + 2 == k {
                    assert(m - 1 == (q + 1) * k + 0) by (nonlinear_arith)
                        requires
                            m - 3 == k * q + r,
                            r + 2 == k,
                    ;
                    vstd::arithmetic::div_mod::lemma_fundamental_div_mod_converse(
                        m - 1,
                        k,
                        q + 1,
                        0,
                    );
                    assert(!keep_at(m - 1, k));
                } else {
                    assert(m - 1 == q * k + (r + 2)) by (nonlinear_arith)
                        requires
                            m - 3 == k * q + r,
                    ;
                    vstd::arithmetic::div_mod::lemma_fundamental_div_mod_converse(
                        m - 1,
                        k,
                        q,
                        r + 2,
                    );
                    assert(!keep_at(m - 1, k));
                }
            }
        }
    }
}

/// The kept count never grows as the skip factor grows.
pub proof fn lemma_kept_count_monotonic(m: int, k1: int, k2: int)
    requires
        m >= 0,
        1 <= k1 <= k2,
    ensures
        kept_count(m, k2) <= kept_count(m, k1),
{
    if k1 == k2 {
    } else if k1 == 1 {
        assert(kept_count(m, 1) == m) by {
            lemma_kept_count_all(m);
        }
        if k2 >= 2 {
            lemma_kept_count_closed(m, k2);
            if m >= 2 {
                vstd::arithmetic::div_mod::lemma_div_is_ordered_by_denominator(m - 2, 1, k2);
                vstd::arithmetic::div_mod::lemma_div_by_self(1);
                assert((m - 2) / 1 == m - 2) by (nonlinear_arith)
                    requires
                        m >= 2,
                ;
            }
        }
    } else {
        lemma_kept_count_closed(m, k1);
        lemma_kept_count_closed(m, k2);
        if m >= 2 {
            vstd::arithmetic::div_mod::lemma_div_is_ordered_by_denominator(m - 2, k1, k2);
        }
    }
}

/// Every position survives a skip factor of one.
pub proof fn lemma_kept_count_all(m: int)
    ensures
        m >= 0 ==> kept_count(m, 1) == m,
    decreases if m <= 0 {
        0int
    } else {
        m
    },
{
    if m > 0 {
        lemma_kept_count_all(m - 1);
    }
}

/// Law: skip-factor monotonicity.  Increasing the skip factor never
/// increases the number of symbols a document collection contributes to the
/// index.
pub proof fn lemma_skip_factor_monotonic(texts: Seq<(u64, Vec<u8>)>, k1: int, k2: int)
    requires
        1 <= k1 <= k2,
    ensures
        corpus_symbols(texts, k2).len() <= corpus_symbols(texts, k1).len(),
    decreases texts.len(),
{
    if texts.len() > 0 {
        lemma_skip_factor_monotonic(texts.drop_last(), k1, k2);
        let base = encode_symbols(texts.last().1@);
        lemma_subsample_len(base, k1);
        lemma_subsample_len(base, k2);
        lemma_kept_count_monotonic(base.len() as int, k1, k2);
    }
}

/// The filtered stream is never longer than the text it came from.
pub proof fn lemma_encode_symbols_len(text: Seq<u8>)
    ensures
        encode_symbols(text).len() <= text.len(),
    decreases text.len(),
{
    if text.len() > 0 {
        lemma_encode_symbols_len(text.drop_last());
    }
}

/// Encodes one document: lower-case, drop the skip set, keep every `k`-th
/// survivor.
pub fn encode_doc(text: &Vec<u8>, k: u32) -> (r: Vec<u8>)
    requires
        k >= 1,
    ensures
        r@ == encoded_stream(text@, k as int),
{
    let mut out: Vec<u8> = Vec::new();
    let mut kept: usize = 0;
    let mut i: usize = 0;
    while i < text.len()
        invariant
            i <= text@.len(),
            k >= 1,
            kept == encode_symbols(text@.take(i as int)).len(),
            out@ == subsample(encode_symbols(text@.take(i as int)), k as int),
        decreases text@.len() - i,
    {
        let b = lower_byte_x(text[i]);
        proof {
            lemma_encode_symbols_len(text@.take(i as int));
            assert(text@.take(i + 1).drop_last() =~= text@.take(i as int));
            assert(text@.take(i + 1).last() == text@[i as int]);
        }
        let ghost prev = encode_symbols(text@.take(i as int));
        if !is_skip_byte_x(b) {
            proof {
                assert(encode_symbols(text@.take(i + 1)) =~= prev + seq![b]);
                assert((prev + seq![b]).drop_last() =~= prev);
            }
            if k == 1 || kept % (k as usize) == 1 {
                out.push(b);
            }
            kept = kept + 1;
        } else {
            proof {
                assert(encode_symbols(text@.take(i + 1)) =~= prev);
            }
        }
        i = i + 1;
    }
    proof {
        assert(text@.take(text@.len() as int) =~= text@);
    }
    out
}

/// Encodes a whole collection: per-document streams concatenated in input
/// order, with a parallel owner array of equal length.
pub fn encode_corpus(texts: &Vec<(u64, Vec<u8>)>, k: u32) -> (r: (Vec<u8>, Vec<u64>))
    requires
        k >= 1,
    ensures
        r.0@ == corpus_symbols(texts@, k as int),
        r.1@ == corpus_owners(texts@, k as int),
        r.0@.len() == r.1@.len(),
{
    let mut syms: Vec<u8> = Vec::new();
    let mut owners: Vec<u64> = Vec::new();
    let mut d: usize = 0;
    while d < texts.len()
        invariant
            d <= texts@.len(),
            k >= 1,
            syms@ == corpus_symbols(texts@.take(d as int), k as int),
            owners@ == corpus_owners(texts@.take(d as int), k as int),
            syms@.len() == owners@.len(),
        decreases texts@.len() - d,
    {
        let uid = texts[d].0;
        let enc = encode_doc(&texts[d].1, k);
        proof {
            assert(texts@.take(d + 1).drop_last() =~= texts@.take(d as int));
            assert(texts@.take(d + 1).last() == texts@[d as int]);
        }
        let ghost old_syms = syms@;
        let ghost old_owners = owners@;
        let mut j: usize = 0;
        let m = enc.len();
        while j < m
            invariant
                j <= m,
                m == enc@.len(),
                syms@ == old_syms + enc@.take(j as int),
                owners@ == old_owners + Seq::new(j as nat, |t: int| uid),
            decreases m - j,
        {
            syms.push(enc[j]);
            owners.push(uid);
            proof {
                assert(old_syms + enc@.take(j + 1) =~= (old_syms + enc@.take(j as int)).push(
                    enc@[j as int],
                ));
                assert(old_owners + Seq::new((j + 1) as nat, |t: int| uid) =~= (old_owners
                    + Seq::new(j as nat, |t: int| uid)).push(uid));
            }
            j = j + 1;
        }
        proof {
            assert(enc@.take(enc@.len() as int) =~= enc@);
            assert(syms@ =~= corpus_symbols(texts@.take(d + 1), k as int));
            assert(owners@ =~= corpus_owners(texts@.take(d + 1), k as int));
        }
        d = d + 1;
    }
    proof {
        assert(texts@.take(texts@.len() as int) =~= texts@);
    }
    (syms, owners)
}

} // verus!
