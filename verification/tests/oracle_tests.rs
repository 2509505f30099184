use rottnest::fm::{build_cumulative_counts, build_fm_chunks};
use rottnest::format::{fm_query_range, wavelet_query_range};
use rottnest::wavelet::construct_wavelet_tree;

// Oracle equivalence: for the same BWT, the chunked-FM oracle and the
// wavelet-tree oracle give identical ranges for every query.
#[test]
fn oracles_agree_on_every_query() {
    let text: Vec<u8> = b"abracadabra_banana_cabana$".to_vec();
    let sa = rottnest::suffix::build_suffix_array(&text);
    let uids: Vec<u64> = vec![0; text.len()];
    let (bwt, _) = rottnest::suffix::derive_bwt_and_owners(&text, &uids, &sa);
    let chunks = build_fm_chunks(&bwt, 4);
    let c = build_cumulative_counts(&bwt);
    let root = construct_wavelet_tree(&bwt);
    let queries: Vec<Vec<u8>> = vec![
        b"a".to_vec(),
        b"an".to_vec(),
        b"ana".to_vec(),
        b"banana".to_vec(),
        b"cab".to_vec(),
        b"zzz".to_vec(),
        b"".to_vec(),
        b"abra".to_vec(),
    ];
    for q in &queries {
        let fm = fm_query_range(&chunks, &c, q, 4);
        let wt = wavelet_query_range(&root, &c, q);
        assert_eq!(fm, wt, "oracles disagree on {:?}", q);
    }
}

#[test]
fn wavelet_rank_descends_correctly() {
    let bwt: Vec<u8> = b"annb$aa".to_vec();
    let c = build_cumulative_counts(&bwt);
    let root = construct_wavelet_tree(&bwt);
    // searching "an" over banana$'s BWT must find both occurrences
    let (st, en) = wavelet_query_range(&root, &c, &b"an".to_vec());
    assert_eq!(en - st, 2);
}
