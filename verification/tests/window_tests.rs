use text_engine::store::SnapshotStore;
use text_engine::tree::{ChunkTree, ChunkTreeConfig};
use text_engine::window::OverlappingChunks;

fn create_test_buffer(content: &str) -> SnapshotStore {
    let cfg = ChunkTreeConfig::new(4096, 8);
    let tree = ChunkTree::from_slice(content.as_bytes(), cfg);
    SnapshotStore::from_tree(tree)
}

#[test]
fn test_single_chunk() {
    let vbuf = create_test_buffer("hello world");
    let iter = vbuf.iter_at(0);

    let mut chunks = OverlappingChunks::new(iter, 0, 11, 100, 5);

    let chunk = chunks.next().unwrap();
    assert_eq!(chunk.buffer, b"hello world");
    assert_eq!(chunk.absolute_pos, 0);
    assert_eq!(chunk.valid_start, 0);

    assert!(chunks.next().is_none());
}

#[test]
fn test_overlapping_chunks() {
    let vbuf = create_test_buffer("0123456789abcdef");
    let iter = vbuf.iter_at(0);

    let mut chunks = OverlappingChunks::new(iter, 0, 16, 8, 3);

    // First chunk: 8 bytes
    let chunk1 = chunks.next().unwrap();
    assert_eq!(&chunk1.buffer[..], b"01234567");
    assert_eq!(chunk1.absolute_pos, 0);
    assert_eq!(chunk1.valid_start, 0);

    // Second chunk: 3 overlap + 8 new = 11 bytes "56789abcdef"
    let chunk2 = chunks.next().unwrap();
    assert_eq!(&chunk2.buffer[..], b"56789abcdef");
    assert_eq!(chunk2.absolute_pos, 5);
    assert_eq!(chunk2.valid_start, 3); // Overlap of 3

    assert!(chunks.next().is_none());
}

#[test]
fn test_pattern_across_boundary() {
    // Test that a pattern spanning chunk boundary is found
    // Pattern "6789a" spans the boundary between chunk 1 and chunk 2
    let vbuf = create_test_buffer("0123456789abcdef");
    let pattern = b"6789a";

    let iter = vbuf.iter_at(0);
    // Overlap must be pattern.len() - 1 to catch patterns spanning boundaries
    let mut chunks = OverlappingChunks::new(iter, 0, 16, 8, pattern.len() - 1);

    let mut found = false;
    while let Some(chunk) = chunks.next() {
        // Search the entire buffer, but only accept matches that END in valid zone
        // This ensures patterns spanning boundaries are found exactly once
        if let Some(pos) = chunk
            .buffer
            .windows(pattern.len())
            .position(|window| window == pattern)
        {
            let match_end = pos + pattern.len();
            // Only report if match ENDS in or after the valid zone
            // This catches patterns that span the overlap/valid boundary
            if match_end > chunk.valid_start {
                let absolute_pos = chunk.absolute_pos + pos;
                assert_eq!(absolute_pos, 6);
                found = true;
                break;
            }
        }
    }

    assert!(found, "Pattern spanning boundary should be found");
}

#[test]
fn test_empty_range() {
    let vbuf = create_test_buffer("hello");
    let iter = vbuf.iter_at(0);

    let mut chunks = OverlappingChunks::new(iter, 0, 0, 100, 5);
    assert!(chunks.next().is_none());
}

#[test]
fn test_partial_final_chunk() {
    let vbuf = create_test_buffer("hello");
    let iter = vbuf.iter_at(0);

    let mut chunks = OverlappingChunks::new(iter, 0, 5, 100, 2);

    let chunk = chunks.next().unwrap();
    assert_eq!(&chunk.buffer[..], b"hello");
    assert!(chunks.next().is_none());
}

#[test]
fn test_valid_zones_cover_range_exactly_once() {
    // Every byte of the streamed range lies in exactly one window's valid
    // zone: no gaps, no double counts.
    let content: String = std::iter::repeat("abcdefghij").take(35).collect();
    let vbuf = create_test_buffer(&content);
    let iter = vbuf.iter_at(0);
    let mut chunks = OverlappingChunks::new(iter, 0, content.len(), 23, 7);

    let mut covered = vec![0usize; content.len()];
    while let Some(chunk) = chunks.next() {
        let valid_end = chunk.buffer.len();
        for i in chunk.valid_start..valid_end {
            let absolute_pos = chunk.absolute_pos + i;
            assert!(absolute_pos < content.len());
            covered[absolute_pos] += 1;
        }
    }
    for (i, &count) in covered.iter().enumerate() {
        assert_eq!(count, 1, "byte {} covered {} times", i, count);
    }
}

#[test]
fn test_window_content_matches_source() {
    // Each window's buffer is exactly the source bytes at its position; a
    // stream that handed back anything else would fail here.
    let content = "0123456789".repeat(10);
    let vbuf = create_test_buffer(&content);
    let iter = vbuf.iter_at(10);
    let mut chunks = OverlappingChunks::new(iter, 10, 90, 17, 4);
    let mut seen_any = false;
    while let Some(chunk) = chunks.next() {
        seen_any = true;
        let lo = chunk.absolute_pos;
        let hi = lo + chunk.buffer.len();
        assert_eq!(&chunk.buffer[..], &content.as_bytes()[lo..hi]);
    }
    assert!(seen_any);
}
