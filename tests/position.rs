use typos_lsp::position::AccumulatePosition;

#[test]
fn utf16_column_counts_surrogate_pairs() {
    let buffer = "héllo 😀 wrold";
    let offset = buffer.find("wrold").unwrap();
    assert_eq!(offset, 12);
    let mut accum = AccumulatePosition::new();
    assert_eq!(accum.pos(buffer.as_bytes(), offset), (0, 9));
}

#[test]
fn lines_and_columns_across_newlines() {
    let buffer = "ab\ncd😀ef\n\nxyz";
    let bytes = buffer.as_bytes();
    let mut accum = AccumulatePosition::new();
    assert_eq!(accum.pos(bytes, 0), (0, 0));
    assert_eq!(accum.pos(bytes, 1), (0, 1));
    assert_eq!(accum.pos(bytes, 3), (1, 0));
    assert_eq!(accum.pos(bytes, 9), (1, 4));
    assert_eq!(accum.pos(bytes, 11), (1, 6));
    assert_eq!(accum.pos(bytes, 12), (2, 0));
    assert_eq!(accum.pos(bytes, 14), (3, 1));
    assert_eq!(accum.last_offset, 14);
}

#[test]
fn positions_never_go_backwards() {
    let buffer = "é\n😀😀 x\nyy\n";
    let bytes = buffer.as_bytes();
    let mut accum = AccumulatePosition::new();
    let mut prev = (0usize, 0usize);
    let mut offsets: Vec<usize> = (0..=bytes.len()).filter(|i| buffer.is_char_boundary(*i)).collect();
    offsets.insert(3, 3);
    for off in offsets {
        let p = accum.pos(bytes, off);
        assert!(p >= prev, "{:?} then {:?}", prev, p);
        prev = p;
    }
}

#[test]
fn repeated_offset_gives_same_position() {
    let buffer = "one\ntwo";
    let mut accum = AccumulatePosition::new();
    assert_eq!(accum.pos(buffer.as_bytes(), 5), (1, 1));
    assert_eq!(accum.pos(buffer.as_bytes(), 5), (1, 1));
}

#[test]
fn empty_buffer_start() {
    let mut accum = AccumulatePosition::new();
    assert_eq!(accum.pos(b"", 0), (0, 0));
}
