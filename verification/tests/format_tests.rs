use rottnest::error::IndexError;
use rottnest::format::{
    build_substring_char_index, pair_documents, parse_fm_index, search_file_char_fm,
};
use rottnest::search::prep_query_char;

fn doc_ids(res: &[(u64, u64)]) -> Vec<u64> {
    let mut ids: Vec<u64> = res.iter().map(|&(_, uid)| uid).collect();
    ids.sort();
    ids.dedup();
    ids
}

fn build(texts: Vec<(u64, &str)>, k: u32) -> Vec<u8> {
    let texts: Vec<(u64, Vec<u8>)> =
        texts.into_iter().map(|(uid, t)| (uid, t.as_bytes().to_vec())).collect();
    let (file, cache_start, cache_end) = build_substring_char_index(&texts, k).unwrap();
    assert!(cache_start <= cache_end);
    assert_eq!(cache_end, file.len());
    file
}

fn search(file: &Vec<u8>, query: &str) -> Vec<(u64, u64)> {
    let qs = prep_query_char(&query.as_bytes().to_vec(), None, None);
    search_file_char_fm(file, &qs, 0).unwrap()
}

// Scenario: two documents, a shared substring, a missing substring, and a
// substring only one document contains.
#[test]
fn scenario_cat_hat() {
    let file = build(vec![(1, "the cat sat"), (2, "the hat sat")], 1);
    assert_eq!(doc_ids(&search(&file, "at sat")), vec![1, 2]);
    assert_eq!(doc_ids(&search(&file, "xyz")), vec![]);
    assert_eq!(doc_ids(&search(&file, "cat")), vec![1]);
}

// Round-trip exactness: a substring present verbatim is found; one absent
// from every document is not.
#[test]
fn round_trip_present_and_absent() {
    let file = build(
        vec![(11, "compressed substring index"), (22, "wavelet trees are succinct")],
        1,
    );
    assert_eq!(doc_ids(&search(&file, "substring")), vec![11]);
    assert_eq!(doc_ids(&search(&file, "succinct")), vec![22]);
    assert_eq!(doc_ids(&search(&file, "dsub")), vec![11]);
    assert_eq!(doc_ids(&search(&file, "esse")), vec![11]);
    assert_eq!(doc_ids(&search(&file, "qqq")), vec![]);
}

// A stream longer than one chunk exercises the multi-chunk read path and the
// shared chunk boundaries of the FM and posting sides.
#[test]
fn multi_chunk_file_round_trips() {
    let mut text = String::new();
    for i in 0..700 {
        text.push_str("lorem");
        if i % 7 == 0 {
            text.push_str("needle");
        }
    }
    let file = build(vec![(5, text.as_str())], 1);
    assert_eq!(doc_ids(&search(&file, "needle")), vec![5]);
    assert_eq!(doc_ids(&search(&file, "remlo")), vec![5]);
    assert_eq!(doc_ids(&search(&file, "needlf")), vec![]);
    let ix = parse_fm_index(&file).unwrap();
    assert!(ix.bwt.len() > 1024);
    assert_eq!(ix.owners.len(), ix.bwt.len());
}

// Skip-factor monotonicity at query level: an index thinned by a larger
// factor never returns more matches for the same query.
#[test]
fn skip_factor_never_adds_matches() {
    let text = "aaaaaaaaaaaaaaaa";
    let full = build(vec![(1, text)], 1);
    let thin = build(vec![(1, text)], 2);
    let full_hits = search(&full, "aa").len();
    let thin_hits = search(&thin, "aa").len();
    assert!(thin_hits <= full_hits);
}

// Sampling recall: the union of the sampled-subsequence searches finds what
// the aligned subsequence of the query shares with the thinned index.
#[test]
fn sampled_queries_recover_thinned_match() {
    let file = build(vec![(3, "abcdefgh")], 2);
    let raw = b"cdefgh".to_vec();
    let unsampled = search_file_char_fm(&file, &prep_query_char(&raw, None, None), 0).unwrap();
    let sampled = search_file_char_fm(&file, &prep_query_char(&raw, Some(2), None), 0).unwrap();
    let mut union = doc_ids(&sampled);
    for id in doc_ids(&unsampled) {
        if !union.contains(&id) {
            union.push(id);
        }
    }
    assert!(doc_ids(&unsampled).iter().all(|id| union.contains(id)));
    assert_eq!(doc_ids(&sampled), vec![3]);
}

#[test]
fn truncated_file_is_a_decode_error() {
    let err = search_file_char_fm(&b"short".to_vec(), &vec![b"a".to_vec()], 0).unwrap_err();
    assert_eq!(err, IndexError::Decode);
    let garbage: Vec<u8> = vec![0xAB; 64];
    let err = search_file_char_fm(&garbage, &vec![b"a".to_vec()], 0).unwrap_err();
    assert_eq!(err, IndexError::Decode);
}

#[test]
fn mismatched_arrays_are_a_validation_error() {
    let err = pair_documents(vec![b"a".to_vec()], vec![1, 2]).unwrap_err();
    assert_eq!(err, IndexError::Validation);
    let ok = pair_documents(vec![b"a".to_vec(), b"b".to_vec()], vec![1, 2]).unwrap();
    assert_eq!(ok.len(), 2);
    assert_eq!(ok[1].0, 2);
}

#[test]
fn empty_collection_builds_and_searches_empty() {
    let file = build(vec![], 1);
    assert_eq!(doc_ids(&search(&file, "anything")), vec![]);
}

// A file the writer produced decodes to exactly the arrays it serialized,
// and the returned cache range starts at the offset-table position the
// footer records.
#[test]
fn parse_returns_written_arrays() {
    let texts: Vec<(u64, Vec<u8>)> =
        vec![(4, b"mississippi river".to_vec()), (9, b"missouri river".to_vec())];
    let (file, cache_start, cache_end) =
        rottnest::format::build_substring_char_index(&texts, 1).unwrap();
    assert_eq!(cache_end, file.len());
    let footer_fco = u64::from_le_bytes(file[file.len() - 32..file.len() - 24].try_into().unwrap());
    assert_eq!(footer_fco, cache_start as u64);
    let (stream, uids) = rottnest::encode::encode_corpus(&texts, 1);
    let sa = rottnest::suffix::build_suffix_array(&stream);
    let (bwt, idx) = rottnest::suffix::derive_bwt_and_owners(&stream, &uids, &sa);
    let ix = rottnest::format::parse_fm_index(&file).unwrap();
    assert_eq!(ix.bwt, bwt);
    assert_eq!(ix.owners, idx);
}
