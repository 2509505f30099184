use rottnest::encode::{encode_corpus, encode_doc};
use rottnest::search::prep_query_char;

#[test]
fn encoder_lowercases_and_drops_separators() {
    let enc = encode_doc(&b"The Cat, sat!".to_vec(), 1);
    assert_eq!(enc, b"thecatsat".to_vec());
}

#[test]
fn encoder_skip_factor_keeps_congruent_positions() {
    // positions 1, 3, 5, 7 of the filtered stream survive a factor of two
    let enc = encode_doc(&b"abcdefgh".to_vec(), 2);
    assert_eq!(enc, b"bdfh".to_vec());
    let enc3 = encode_doc(&b"abcdefgh".to_vec(), 3);
    assert_eq!(enc3, b"beh".to_vec());
}

#[test]
fn corpus_concatenates_in_input_order_with_owners() {
    let texts = vec![(7u64, b"ab".to_vec()), (9u64, b"cd e".to_vec())];
    let (syms, owners) = encode_corpus(&texts, 1);
    assert_eq!(syms, b"abcde".to_vec());
    assert_eq!(owners, vec![7, 7, 9, 9, 9]);
}

// Skip-factor monotonicity, on concrete values: larger factors never index
// more symbols.
#[test]
fn skip_factor_monotonic_on_stream_lengths() {
    let texts = vec![
        (1u64, b"the quick brown fox jumps over the lazy dog".to_vec()),
        (2u64, b"a".to_vec()),
        (3u64, b"".to_vec()),
    ];
    let mut prev = usize::MAX;
    for k in 1..8u32 {
        let (syms, _) = encode_corpus(&texts, k);
        assert!(syms.len() <= prev, "factor {} grew the stream", k);
        prev = syms.len();
    }
}

#[test]
fn query_prep_splits_and_truncates() {
    let qs = prep_query_char(&b"abcdef".to_vec(), Some(2), None);
    assert_eq!(qs, vec![b"ace".to_vec(), b"bdf".to_vec()]);
    let qs = prep_query_char(&b"abcdef".to_vec(), Some(2), Some(2));
    assert_eq!(qs, vec![b"ce".to_vec(), b"df".to_vec()]);
    let qs = prep_query_char(&b"a".to_vec(), Some(3), None);
    assert_eq!(qs, vec![b"a".to_vec()]);
    let qs = prep_query_char(&b"The Cat".to_vec(), None, Some(4));
    assert_eq!(qs, vec![b"ecat".to_vec()]);
}
