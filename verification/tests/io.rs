use qzt::io::hash_read_at_range;

#[test]
fn range_hash_matches_the_exact_selected_bytes_across_buffer_boundaries() {
    let bytes = (0..(70 * 1024 + 17)).map(|index| (index % 251) as u8).collect::<Vec<_>>();
    let offset = 113_u64;
    let size = 66 * 1024 + 7_usize;

    let actual = hash_read_at_range(&bytes, offset, size as u64)
        .expect("in-memory positioned hash should succeed")
        .finalize();
    let start = usize::try_from(offset).unwrap();
    let expected = blake3::hash(&bytes[start..start + size]);

    assert_eq!(actual, expected);
}

#[test]
fn range_hash_past_the_end_fails() {
    let bytes = vec![1u8; 10];
    assert!(hash_read_at_range(&bytes, 5, 6).is_err());
    let empty = hash_read_at_range(&bytes, 3, 0).expect("empty range").finalize();
    assert_eq!(empty, blake3::hash(&[]));
}
