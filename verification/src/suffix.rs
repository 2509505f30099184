//! Suffix-array construction over the byte stream (through divsufsort) and
//! the linear pass that derives the Burrows-Wheeler transform and the
//! parallel owner array from the sorted order.
use vstd::prelude::*;

verus! {

/// Strict lexicographic order on byte sequences; a proper prefix sorts first.
pub open spec fn lex_lt(a: Seq<u8>, b: Seq<u8>) -> bool
    decreases a.len(),
{
    if a.len() == 0 {
        b.len() > 0
    } else if b.len() == 0 {
        false
    } else {
        a[0] < b[0] || (a[0] == b[0] && lex_lt(a.drop_first(), b.drop_first()))
    }
}

/// Whether some entry of `sa` equals `v`.
pub open spec fn sa_contains(sa: Seq<i32>, v: int) -> bool {
    exists|i: int| 0 <= i < sa.len() && sa[i] == v
}

/// The suffix of `s` that starts at position `i`.
pub open spec fn suffix_at(s: Seq<u8>, i: int) -> Seq<u8> {
    s.skip(i)
}

/// The stream position whose symbol precedes the suffix at `v` (the last
/// position wraps to the stream's tail).
pub open spec fn wrap_prev(n: int, v: int) -> int {
    if v == 0 {
        n - 1
    } else {
        v - 1
    }
}

/// All conditions the suffix array of `text` satisfies: a permutation of the
/// positions, in increasing lexicographic order of their suffixes.
pub open spec fn sa_sorted(sa: Seq<i32>, text: Seq<u8>) -> bool {
    &&& sa.len() == text.len()
    &&& forall|i: int| 0 <= i < sa.len() ==> 0 <= #[trigger] sa[i] < text.len()
    &&& forall|i: int, j: int| 0 <= i < j < sa.len() ==> sa[i] != sa[j]
    &&& forall|v: int| 0 <= v < text.len() ==> #[trigger] sa_contains(sa, v)
    &&& forall|i: int, j: int|
        0 <= i < j < sa.len() ==> lex_lt(suffix_at(text, sa[i] as int), suffix_at(text, sa[j] as int))
}

/// The BWT a sorted order induces: the symbol just before each suffix.
pub open spec fn bwt_of(text: Seq<u8>, sa: Seq<i32>) -> Seq<u8> {
    Seq::new(sa.len(), |i: int| text[wrap_prev(text.len() as int, sa[i] as int)])
}

/// The owner array the sorted order induces.
pub open spec fn owners_of(uids: Seq<u64>, sa: Seq<i32>) -> Seq<u64> {
    Seq::new(sa.len(), |i: int| uids[wrap_prev(uids.len() as int, sa[i] as int)])
}

/// Relies on divsufsort::sort_in_place: it fills `sa` with the positions of
/// all suffixes of `text`, in increasing lexicographic order of the suffixes
/// (a permutation of `0 .. text.len()`).  It panics unless
/// `sa.len() == text.len()` and `text.len()` is strictly below `i32::MAX`,
/// since it indexes positions as `i32`.
#[verifier::external_body]
pub fn suffix_sort_in_place(text: &Vec<u8>, sa: &mut Vec<i32>)
    requires
        old(sa)@.len() == text@.len(),
        text@.len() < 0x7fff_ffff,
    ensures
        final(sa)@.len() == text@.len(),
        forall|i: int|
            0 <= i < final(sa)@.len() ==> 0 <= #[trigger] final(sa)@[i] < text@.len(),
        forall|i: int, j: int|
            0 <= i < j < final(sa)@.len() ==> final(sa)@[i] != final(sa)@[j],
        forall|v: int| 0 <= v < text@.len() ==> #[trigger] sa_contains(final(sa)@, v),
        forall|i: int, j: int|
            0 <= i < j < final(sa)@.len() ==> lex_lt(
                suffix_at(text@, final(sa)@[i] as int),
                suffix_at(text@, final(sa)@[j] as int),
            ),
{
    divsufsort::sort_in_place(text.as_slice(), sa.as_mut_slice());
}

/// Builds the suffix array of `text`: positions of all suffixes in increasing
/// lexicographic order.
pub fn build_suffix_array(text: &Vec<u8>) -> (sa: Vec<i32>)
    requires
        text@.len() < 0x7fff_ffff,
    ensures
        sa@.len() == text@.len(),
        forall|i: int| 0 <= i < sa@.len() ==> 0 <= #[trigger] sa@[i] < text@.len(),
        forall|i: int, j: int| 0 <= i < j < sa@.len() ==> sa@[i] != sa@[j],
        forall|v: int| 0 <= v < text@.len() ==> #[trigger] sa_contains(sa@, v),
        forall|i: int, j: int|
            0 <= i < j < sa@.len() ==> lex_lt(
                suffix_at(text@, sa@[i] as int),
                suffix_at(text@, sa@[j] as int),
            ),
{
    let n = text.len();
    let mut sa: Vec<i32> = Vec::new();
    let mut i: usize = 0;
    while i < n
        invariant
            sa@.len() == i,
            i <= n,
        decreases n - i,
    {
        sa.push(0);
        i = i + 1;
    }
    suffix_sort_in_place(text, &mut sa);
    sa
}

/// Derives the BWT and the owner array from the sorted order in one linear
/// pass: rank `i` takes the symbol (and owner) just before suffix `sa[i]`,
/// with rank 0 of the wrap-around handled explicitly.
pub fn derive_bwt_and_owners(text: &Vec<u8>, uids: &Vec<u64>, sa: &Vec<i32>) -> (r: (
    Vec<u8>,
    Vec<u64>,
))
    requires
        uids@.len() == text@.len(),
        sa@.len() == text@.len(),
        forall|i: int| 0 <= i < sa@.len() ==> 0 <= #[trigger] sa@[i] < text@.len(),
    ensures
        r.0@.len() == sa@.len(),
        r.1@.len() == sa@.len(),
        forall|i: int|
            0 <= i < sa@.len() ==> r.0@[i] == text@[wrap_prev(text@.len() as int, sa@[i] as int)],
        forall|i: int|
            0 <= i < sa@.len() ==> r.1@[i] == uids@[wrap_prev(text@.len() as int, sa@[i] as int)],
{
    let n = text.len();
    let mut bwt: Vec<u8> = Vec::new();
    let mut idx: Vec<u64> = Vec::new();
    let mut i: usize = 0;
    while i < n
        invariant
            i <= n,
            n == text@.len(),
            uids@.len() == n,
            sa@.len() == n,
            forall|t: int| 0 <= t < n ==> 0 <= #[trigger] sa@[t] < n,
            bwt@.len() == i,
            idx@.len() == i,
            forall|t: int|
                0 <= t < i ==> bwt@[t] == text@[wrap_prev(n as int, sa@[t] as int)],
            forall|t: int|
                0 <= t < i ==> idx@[t] == uids@[wrap_prev(n as int, sa@[t] as int)],
        decreases n - i,
    {
        let v = sa[i];
        let p: usize = if v == 0 {
            n - 1
        } else {
            (v - 1) as usize
        };
        bwt.push(text[p]);
        idx.push(uids[p]);
        i = i + 1;
    }
    (bwt, idx)
}

} // verus!
