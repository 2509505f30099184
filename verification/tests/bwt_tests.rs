use rottnest::suffix::{build_suffix_array, derive_bwt_and_owners};
use rottnest::fm::{build_cumulative_counts, build_fm_chunks, chunk_rank};

#[test]
fn banana_suffix_array_is_sorted_permutation() {
    let text: Vec<u8> = b"banana$".to_vec();
    let sa = build_suffix_array(&text);
    assert_eq!(sa, vec![6, 5, 3, 1, 0, 4, 2]);
}

#[test]
fn banana_bwt_matches_textbook() {
    let text: Vec<u8> = b"banana$".to_vec();
    let uids: Vec<u64> = vec![10, 11, 12, 13, 14, 15, 16];
    let sa = build_suffix_array(&text);
    let (bwt, idx) = derive_bwt_and_owners(&text, &uids, &sa);
    assert_eq!(bwt, b"annb$aa".to_vec());
    assert_eq!(idx, vec![15, 14, 12, 10, 16, 13, 11]);
}

#[test]
fn banana_cumulative_count_deltas_reproduce_totals() {
    let text: Vec<u8> = b"banana$".to_vec();
    let sa = build_suffix_array(&text);
    let uids: Vec<u64> = vec![0; 7];
    let (bwt, _) = derive_bwt_and_owners(&text, &uids, &sa);
    let c = build_cumulative_counts(&bwt);
    assert_eq!(c.len(), 257);
    assert_eq!(c[0], 0);
    assert_eq!(c[256], 7);
    assert_eq!(c[b'$' as usize + 1] - c[b'$' as usize], 1);
    assert_eq!(c[b'a' as usize + 1] - c[b'a' as usize], 3);
    assert_eq!(c[b'b' as usize + 1] - c[b'b' as usize], 1);
    assert_eq!(c[b'n' as usize + 1] - c[b'n' as usize], 2);
    let mut total = 0u64;
    for v in 0..256 {
        total += c[v + 1] - c[v];
    }
    assert_eq!(total, 7);
}

#[test]
fn fm_chunks_carry_base_frequencies() {
    let bwt: Vec<u8> = b"annb$aa".to_vec();
    let chunks = build_fm_chunks(&bwt, 3);
    assert_eq!(chunks.len(), 3);
    assert_eq!(chunks[0].symbols, b"ann".to_vec());
    assert_eq!(chunks[1].symbols, b"b$a".to_vec());
    assert_eq!(chunks[2].symbols, b"a".to_vec());
    assert_eq!(chunks[0].counts[b'a' as usize], 0);
    assert_eq!(chunks[1].counts[b'a' as usize], 1);
    assert_eq!(chunks[1].counts[b'n' as usize], 2);
    assert_eq!(chunks[2].counts[b'a' as usize], 2);
    // rank within a chunk adds the scan of the prefix to the base count
    assert_eq!(chunk_rank(&chunks[1], b'a', 3), 2);
    assert_eq!(chunk_rank(&chunks[1], b'a', 0), 1);
}
