use dandrum_engine::chunking::render_chunk_lengths;

#[test]
fn empty_render_has_no_chunk() {
    assert_eq!(render_chunk_lengths(0, 64), Vec::<usize>::new());
}

#[test]
fn render_within_one_block_is_one_chunk() {
    assert_eq!(render_chunk_lengths(48, 64), vec![48]);
    assert_eq!(render_chunk_lengths(64, 64), vec![64]);
}

#[test]
fn oversized_render_is_split_into_prepared_size_chunks() {
    assert_eq!(render_chunk_lengths(150, 64), vec![64, 64, 22]);
    assert_eq!(render_chunk_lengths(128, 64), vec![64, 64]);
}
