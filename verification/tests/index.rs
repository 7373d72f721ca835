use shuffle_lines::index::OffsetIndexer;
use shuffle_lines::offset::{collect_offsets, index_name};

#[test]
fn empty_source_has_offset_zero_only() {
    assert_eq!(collect_offsets(b""), vec![0u64]);
}

#[test]
fn three_terminated_lines_have_four_offsets() {
    assert_eq!(collect_offsets(b"a\nb\nc\n"), vec![2u64, 4, 6, 0]);
}

#[test]
fn terminated_lines_give_one_offset_more_than_lines() {
    for lines in 0usize..20 {
        let mut source: Vec<u8> = Vec::new();
        for number in 0..lines {
            source.extend_from_slice(format!("line {}\n", number).as_bytes());
        }
        let offsets = collect_offsets(&source);
        assert_eq!(offsets.len(), lines + 1);
        assert_eq!(offsets[lines], 0);
        if lines > 0 {
            assert_eq!(offsets[lines - 1], source.len() as u64);
        }
    }
}

#[test]
fn unterminated_last_line_adds_no_offset() {
    assert_eq!(collect_offsets(b"ab\ncd"), vec![3u64, 0]);
    assert_eq!(collect_offsets(b"abc"), vec![0u64]);
}

#[test]
fn empty_lines_are_lines() {
    assert_eq!(collect_offsets(b"\n\n\n"), vec![1u64, 2, 3, 0]);
}

#[test]
fn carriage_return_ends_no_line() {
    assert_eq!(collect_offsets(b"a\r\nb\rc"), vec![3u64, 0]);
}

#[test]
fn offsets_are_distinct() {
    let mut offsets = collect_offsets(b"one\n\ntwo\nthree\n\n");
    let count = offsets.len();
    offsets.sort();
    offsets.dedup();
    assert_eq!(offsets.len(), count);
    assert_eq!(offsets, vec![0u64, 4, 5, 9, 15, 16]);
}

#[test]
fn scan_by_blocks_gives_the_same_index() {
    let source: &[u8] = b"first\nsecond line\n\nfourth\nlast without newline";
    let whole = collect_offsets(source);
    for block in 1usize..source.len() + 2 {
        let mut indexer = OffsetIndexer::new();
        let mut at = 0usize;
        while at < source.len() {
            let end = if at + block < source.len() { at + block } else { source.len() };
            indexer.feed(&source[at..end]);
            at = end;
        }
        assert_eq!(indexer.finish(), whole);
    }
}

#[test]
fn scan_of_nothing_gives_offset_zero() {
    let indexer = OffsetIndexer::new();
    assert_eq!(indexer.room(), u64::MAX);
    assert_eq!(indexer.finish(), vec![0u64]);
}

#[test]
fn room_shrinks_by_what_was_scanned() {
    let mut indexer = OffsetIndexer::new();
    indexer.feed(b"ab\n");
    indexer.feed(b"");
    indexer.feed(b"c");
    assert_eq!(indexer.room(), u64::MAX - 4);
    assert_eq!(indexer.finish(), vec![3u64, 0]);
}

#[test]
fn index_file_is_named_after_its_source() {
    assert_eq!(index_name(b"data/example1.txt"), b"data/example1.txt.offsets".to_vec());
    assert_eq!(index_name(b""), b".offsets".to_vec());
}

#[test]
fn different_sources_have_different_index_names() {
    assert_ne!(index_name(b"a.txt"), index_name(b"a"));
    assert_ne!(index_name(b"a.offsets"), index_name(b"a"));
}
