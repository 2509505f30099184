use rottnest::token::{
    build_token_bwt, build_windows, encode_tokens, sort_stream_positions, TOKEN_WINDOW,
};

#[test]
fn token_encoding_filters_and_thins() {
    let tokens: Vec<u32> = vec![5, 100, 6, 7, 100, 8, 9];
    let skip: Vec<u32> = vec![100];
    assert_eq!(encode_tokens(&tokens, &skip, 1), vec![5, 6, 7, 8, 9]);
    // of the filtered stream, positions congruent to one modulo two survive
    assert_eq!(encode_tokens(&tokens, &skip, 2), vec![6, 8]);
}

#[test]
fn windows_are_fixed_length_and_zero_padded() {
    let s: Vec<u32> = vec![3, 1, 2];
    let w = build_windows(&s);
    assert_eq!(w.len(), 3);
    assert_eq!(w[0], vec![3, 1, 2, 0, 0, 0, 0, 0, 0, 0]);
    assert_eq!(w[2], vec![2, 0, 0, 0, 0, 0, 0, 0, 0, 0]);
    assert_eq!(w[0].len(), TOKEN_WINDOW);
}

#[test]
fn positions_sort_by_window_order() {
    let s: Vec<u32> = vec![3, 1, 2];
    // windows: [3,1,2,..], [1,2,0,..], [2,0,..] -> sorted positions 1, 2, 0
    assert_eq!(sort_stream_positions(&s), vec![1, 2, 0]);
}

#[test]
fn token_bwt_takes_preceding_symbols() {
    let docs = vec![(42u64, vec![3u32, 1, 2])];
    let skip: Vec<u32> = vec![];
    let (bwt, idx) = build_token_bwt(&docs, &skip, 1);
    // sorted order is positions 1, 2, 0; predecessors are 3, 1, and (wrap) 2
    assert_eq!(bwt, vec![3, 1, 2]);
    assert_eq!(idx, vec![42, 42, 42]);
}
