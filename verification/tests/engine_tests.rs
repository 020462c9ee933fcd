use sha2::Digest;
use text_engine::buffer::{Buffer, LineNumber};
use text_engine::cursors::{add_cursor_above, add_cursor_below, add_cursor_at_next_match, AddCursorResult, Cursor};
use text_engine::lines::LoadedLine;
use text_engine::session::session_file_name;
use text_engine::store::SnapshotStore;
use text_engine::suggest::SuggestionsRenderer;
use text_engine::tree::{ChunkTree, ChunkTreeConfig};

#[test]
fn test_tree_insert_delete_roundtrip() {
    let cfg = ChunkTreeConfig::new(4, 3);
    let tree = ChunkTree::from_slice(b"hello world", cfg);
    assert_eq!(tree.len(), 11);
    assert_eq!(tree.read(0, 11), b"hello world");

    let tree2 = tree.insert(5, b", big");
    assert_eq!(tree2.read(0, 16), b"hello, big world");
    // the original version is untouched
    assert_eq!(tree.read(0, 11), b"hello world");

    let tree3 = tree2.delete(5, 10);
    assert_eq!(tree3.read(0, 11), b"hello world");
    // clamped read past the end
    assert_eq!(tree3.read(6, 100), b"world");
    assert_eq!(tree3.read(100, 5), b"");
}

#[test]
fn test_tree_small_branching_many_edits() {
    let cfg = ChunkTreeConfig::new(2, 2);
    let mut tree = ChunkTree::from_slice(b"", cfg);
    for _ in 0..40 {
        let n = tree.len();
        tree = tree.insert(n / 2, b"ab");
    }
    assert_eq!(tree.len(), 80);
    let bytes = tree.read(0, 80);
    assert_eq!(bytes.len(), 80);
    assert!(bytes.iter().all(|&b| b == b'a' || b == b'b'));
}

#[test]
fn test_tree_deletion_merges_underfull_nodes() {
    // Deep tree with a tiny branching factor; large deletions leave
    // underfull internal nodes that the deletion path merges or
    // redistributes, and the remaining bytes are exactly the splice.
    let cfg = ChunkTreeConfig::new(3, 4);
    let content: Vec<u8> = (0..240u32).map(|i| (i % 251) as u8).collect();
    let tree = ChunkTree::from_slice(&content, cfg);
    let after = tree.delete(20, 200);
    let mut expected = Vec::new();
    expected.extend_from_slice(&content[..20]);
    expected.extend_from_slice(&content[200..]);
    assert_eq!(after.read(0, 60), expected);
    // delete almost everything, then keep editing the survivors
    let tiny = after.delete(1, 59);
    assert_eq!(tiny.read(0, 10), vec![expected[0], expected[59]]);
    let grown = tiny.insert(1, b"xyz");
    let mut expected2 = vec![expected[0]];
    expected2.extend_from_slice(b"xyz");
    expected2.push(expected[59]);
    assert_eq!(grown.read(0, 10), expected2);
}

#[test]
fn test_snapshot_isolation() {
    // A cursor pinned before an edit keeps reading the old version; a new
    // cursor sees the edit.
    let cfg = ChunkTreeConfig::new(4, 4);
    let tree = ChunkTree::from_slice(b"abcdef", cfg);
    let mut store = SnapshotStore::from_tree(tree);
    let mut old_cursor = store.iter_at(0);
    store.insert(3, b"XYZ");
    assert_eq!(store.read(0, 9), b"abcXYZdef");
    let mut collected = Vec::new();
    while let Some(b) = old_cursor.next() {
        collected.push(b);
    }
    assert_eq!(collected, b"abcdef");
    let mut new_cursor = store.iter_at(0);
    let mut collected2 = Vec::new();
    while let Some(b) = new_cursor.next() {
        collected2.push(b);
    }
    assert_eq!(collected2, b"abcXYZdef");
}

#[test]
fn test_byte_cursor_moves() {
    let cfg = ChunkTreeConfig::new(4, 4);
    let store = SnapshotStore::from_tree(ChunkTree::from_slice(b"abc", cfg));
    let mut cur = store.iter_at(0);
    assert_eq!(cur.peek(), Some(b'a'));
    assert_eq!(cur.next(), Some(b'a'));
    assert_eq!(cur.next(), Some(b'b'));
    assert_eq!(cur.prev(), Some(b'b'));
    assert_eq!(cur.position(), 1);
    cur.seek(100);
    assert_eq!(cur.position(), 3);
    assert_eq!(cur.peek(), None);
    assert_eq!(cur.next(), None);
    assert_eq!(cur.buffer_len(), 3);
}

#[test]
fn test_lossy_decoding_replaces_invalid_bytes() {
    // Invalid UTF-8 decodes leniently: decoding never fails, the bad byte
    // becomes the replacement character.
    let cfg = ChunkTreeConfig::new(4096, 8);
    let store = SnapshotStore::from_tree(ChunkTree::from_slice(&[b'a', 0xFF, b'b'], cfg));
    let mut li = text_engine::buffer::LineIterator::new(&store, 0);
    let (start, content) = li.next().unwrap();
    assert_eq!(start, 0);
    assert_eq!(content, "a\u{FFFD}b");
}

#[test]
fn test_to_string_roundtrip_non_ascii() {
    // content built from a string decodes back to exactly that string,
    // ASCII or not
    let text = "héllo 世界 🎈\nsecond line";
    let buffer = Buffer::from_str(text);
    assert_eq!(buffer.to_string(), text);
}

#[test]
fn test_find_next_empty_pattern_and_single_char() {
    let buffer = Buffer::from_str("abcabc");
    assert_eq!(buffer.find_next("", 0), None);
    assert_eq!(buffer.find_next("a", 0), Some(0));
    assert_eq!(buffer.find_next("a", 1), Some(3));
    assert_eq!(buffer.find_next("a", 4), Some(0));
}

#[test]
fn test_find_next_across_leaf_boundaries() {
    // Content much larger than the window size, match far inside.
    let content = "a".repeat(9000) + "needle" + &"b".repeat(3000);
    let buffer = Buffer::from_str(&content);
    assert_eq!(buffer.len(), 12006);
    assert_eq!(buffer.slice(9000..9006), "needle");
    let bytes = buffer.slice_bytes(8000..12006);
    assert_eq!(bytes.len(), 4006);
    assert_eq!(Buffer::find_pattern(&bytes, b"needle"), Some(1000));
    assert_eq!(buffer.find_pattern_streaming(8990, 9016, b"needle"), Some(9000));
    assert_eq!(buffer.find_pattern_streaming(8000, 12006, b"needle"), Some(9000));
    assert_eq!(buffer.find_next("needle", 0), Some(9000));
    // a wrapped search finds a match only if it ends at or before the
    // starting point: from 9001 the match straddles the split and is not
    // seen, from 9007 the wrap finds it
    assert_eq!(buffer.find_next("needle", 9001), None);
    assert_eq!(buffer.find_next("needle", 9007), Some(9000));
    assert_eq!(buffer.find_next("missing", 0), None);
}

#[test]
fn test_char_boundaries_roundtrip() {
    let buffer = Buffer::from_str("aé世🎈z");
    // bytes: a=1, é=2, 世=3, 🎈=4, z=1
    let boundaries = [0usize, 1, 3, 6, 10, 11];
    for w in boundaries.windows(2) {
        let (p, q) = (w[0], w[1]);
        assert_eq!(buffer.next_char_boundary(p), q);
        assert_eq!(buffer.prev_char_boundary(q), p);
    }
    assert_eq!(buffer.next_char_boundary(11), 11);
    assert_eq!(buffer.prev_char_boundary(0), 0);
}

#[test]
fn test_word_boundaries() {
    let buffer = Buffer::from_str("foo bar_baz!qux");
    assert_eq!(buffer.next_word_boundary(0), 4);
    assert_eq!(buffer.prev_word_boundary(7), 4);
    assert_eq!(buffer.next_word_boundary(4), 12);
    assert_eq!(buffer.next_word_boundary(100), 15);
    assert_eq!(buffer.prev_word_boundary(0), 0);
}

#[test]
fn test_position_conversions() {
    let buffer = Buffer::from_str("ab\ncd\nef");
    assert_eq!(buffer.position_to_line_col(0), (0, 0));
    assert_eq!(buffer.position_to_line_col(4), (1, 1));
    // a position on the newline ending a line still belongs to that line,
    // with the newline inside the column count
    assert_eq!(buffer.position_to_line_col(3), (0, 3));
    assert_eq!(buffer.position_to_line_col(8), (2, 2));
    assert_eq!(buffer.line_col_to_position(1, 0), 3);
    assert_eq!(buffer.line_col_to_position(1, 99), 6); // clamps to line end
    assert_eq!(buffer.line_col_to_position(9, 0), 8); // clamps to buffer end
}

#[test]
fn test_lsp_roundtrip_with_wide_chars() {
    let text = "let x = \"🎈é\";\nnext";
    let buffer = Buffer::from_str(text);
    for p in [0usize, 1, 8, 9, 13, 15, 16] {
        let (line, col) = buffer.position_to_lsp_position(p);
        assert_eq!(buffer.lsp_position_to_byte(line, col), p, "offset {}", p);
    }
    // the balloon is two UTF-16 code units
    let (line, col) = buffer.position_to_lsp_position(13);
    assert_eq!((line, col), (0, 11));
}

#[test]
fn test_get_line_number_exact_scan() {
    let mut buffer = Buffer::from_str("line0\nline1\nline2\nline3");
    assert_eq!(buffer.get_line_number(0), 0);
    assert_eq!(buffer.get_line_number(7), 1);
    assert_eq!(buffer.get_line_number(17), 2);
    assert_eq!(buffer.get_line_number(18), 3);
    assert_eq!(buffer.get_line_number(22), 3);
}

#[test]
fn test_get_line_number_estimates_large_jump() {
    // A jump longer than 100000 bytes answers with the estimate
    // base line + distance / 80 and caches it as if exact.
    let content = "x".repeat(200_000);
    let mut buffer = Buffer::from_str(&content);
    let est = buffer.get_line_number(160_000);
    assert_eq!(est, 160_000 / 80);
    // the estimate is now cached: the same query answers the same
    assert_eq!(buffer.get_line_number(160_000), est);
}

#[test]
fn test_line_cache_insertion_shift() {
    // After an insertion of b bytes and n newlines at x, a previously
    // cached entry (o, l) with o >= x answers the query at o + b with l + n.
    let mut buffer = Buffer::from_str("aaa\nbbb\nccc\nddd");
    assert_eq!(buffer.get_line_number(8), 2); // caches (8, 2) among others
    buffer.insert(0, "X\nY\n");
    buffer.handle_line_cache_insertion(0, 4, 2);
    assert_eq!(buffer.get_line_number(12), 4);
}

#[test]
fn test_line_cache_deletion_shift() {
    let mut buffer = Buffer::from_str("aaa\nbbb\nccc\nddd");
    assert_eq!(buffer.get_line_number(8), 2);
    assert_eq!(buffer.get_line_number(12), 3);
    buffer.delete(0..4);
    buffer.handle_line_cache_deletion(0, 4, 1);
    assert_eq!(buffer.get_line_number(4), 1);
    assert_eq!(buffer.get_line_number(8), 2);
}

#[test]
fn test_line_cache_invalidate_and_clear() {
    let mut buffer = Buffer::from_str("a\nb\nc\nd");
    assert_eq!(buffer.get_line_number(6), 3);
    assert_eq!(buffer.get_cached_byte_offset_for_line(2), Some(4));
    buffer.invalidate_line_cache_from(4);
    assert_eq!(buffer.get_cached_byte_offset_for_line(2), None);
    assert_eq!(buffer.get_line_number(6), 3); // rescans correctly
    buffer.clear_line_cache();
    assert_eq!(buffer.get_cached_byte_offset_for_line(0), None);
}

#[test]
fn test_populate_line_cache() {
    let mut buffer = Buffer::from_str("l0\nl1\nl2\nl3\nl4");
    let start_line = buffer.populate_line_cache(3, 3);
    assert_eq!(start_line, 1);
    assert_eq!(buffer.get_cached_byte_offset_for_line(1), Some(3));
    assert_eq!(buffer.get_cached_byte_offset_for_line(2), Some(6));
}

#[test]
fn test_line_number_format() {
    assert_eq!(LineNumber::Absolute(0).format(), "1");
    assert_eq!(LineNumber::Absolute(41).format(), "42");
    let rel = LineNumber::Relative { line: 9, from_cached_line: 2 };
    assert_eq!(rel.format(), "~10");
    assert!(rel.is_relative());
    assert!(!rel.is_absolute());
    assert_eq!(rel.value(), 9);
    assert_eq!(LineNumber::Absolute(7).value(), 7);
}

#[test]
fn test_buffer_flags_and_path() {
    let mut buffer = Buffer::new();
    assert!(buffer.is_empty());
    assert!(!buffer.is_modified());
    assert!(buffer.file_path().is_none());
    buffer.set_file_path(String::from("notes.txt"));
    assert_eq!(buffer.file_path().unwrap().as_str(), "notes.txt");
    buffer.insert(0, "hi");
    assert!(buffer.is_modified());
    buffer.clear_modified();
    assert!(!buffer.is_modified());
    // empty insert and empty delete are no-ops
    buffer.insert(1, "");
    buffer.delete(2..2);
    assert!(!buffer.is_modified());
    assert_eq!(buffer.to_string(), "hi");
}

#[test]
fn test_slice_bytes_clamps() {
    let buffer = Buffer::from_str("hello");
    assert_eq!(buffer.slice_bytes(1..3), b"el");
    assert_eq!(buffer.slice_bytes(3..100), b"lo");
    assert_eq!(buffer.slice_bytes(7..9), b"");
    assert_eq!(buffer.slice_bytes(3..1), b"");
}

#[test]
fn test_session_file_name_matches_digest() {
    let name = session_file_name("/home/user/project");
    let mut hasher = sha2::Sha256::new();
    hasher.update("/home/user/project".as_bytes());
    let expected = format!("{:x}", hasher.finalize());
    assert_eq!(name, format!("{}.json", &expected[..16]));
    // same path, same name; different path, different name
    assert_eq!(session_file_name("/home/user/project"), name);
    assert_ne!(session_file_name("/home/user/other"), name);
    assert_eq!(name.len(), 21);
}

#[test]
fn test_add_cursor_at_next_match() {
    let buffer = Buffer::from_str("hello world hello");
    let primary = Cursor::with_selection(0, 5);
    match add_cursor_at_next_match(&buffer, &primary, 1) {
        AddCursorResult::Success { cursor, total_cursors } => {
            assert_eq!(cursor.anchor, Some(12));
            assert_eq!(cursor.position, 17);
            assert_eq!(total_cursors, 2);
        }
        AddCursorResult::Failed { .. } => panic!("expected a match"),
    }
    let no_sel = Cursor::new(0);
    assert!(matches!(
        add_cursor_at_next_match(&buffer, &no_sel, 1),
        AddCursorResult::Failed { .. }
    ));
}

#[test]
fn test_add_cursor_above_below() {
    let buffer = Buffer::from_str("Line one\nshort\nLine three");
    // from column 7 of line three, the line above is "short": capped at 5
    let primary = Cursor::new(22);
    match add_cursor_above(&buffer, &primary, 1) {
        AddCursorResult::Success { cursor, total_cursors } => {
            assert_eq!(cursor.position, 14);
            assert_eq!(total_cursors, 2);
        }
        AddCursorResult::Failed { .. } => panic!("expected success"),
    }
    // from line one there is no line above
    let top = Cursor::new(3);
    assert!(matches!(add_cursor_above(&buffer, &top, 1), AddCursorResult::Failed { .. }));
    // below from line one lands on "short" at the same column, capped
    match add_cursor_below(&buffer, &top, 1) {
        AddCursorResult::Success { cursor, .. } => assert_eq!(cursor.position, 12),
        AddCursorResult::Failed { .. } => panic!("expected success"),
    }
    // below from the last line fails
    let bottom = Cursor::new(20);
    assert!(matches!(add_cursor_below(&buffer, &bottom, 1), AddCursorResult::Failed { .. }));
}

#[test]
fn test_loaded_line_operations() {
    let mut line = LoadedLine::empty();
    assert_eq!(line.len(), 0);
    line.push('h');
    line.push('i');
    assert_eq!(line.len(), 2);
    line.insert(1, 'e');
    assert_eq!(line.chars_iter().into_iter().collect::<String>(), "hei");
    line.remove(2);
    line.char_set(1, 'o');
    assert_eq!(*line.char_get(1).unwrap(), 'o');
    assert!(line.char_get(5).is_none());
    let mut other = LoadedLine::new(&['!', '?']);
    let tail = other.split_off(1);
    assert_eq!(tail, vec!['?']);
    line.extend(other);
    assert_eq!(line.chars_iter().into_iter().collect::<String>(), "ho!");
    let from_vec = LoadedLine::from_vec(vec!['o', 'k']);
    assert_eq!(from_vec.len(), 2);
}

#[test]
fn test_suggestions_scroll_window() {
    // near the top: start at 0
    assert_eq!(SuggestionsRenderer::scroll_start(Some(1), 10, 50), 0);
    // in the middle: selected item centered
    assert_eq!(SuggestionsRenderer::scroll_start(Some(25), 10, 50), 20);
    // near the bottom: last full page
    assert_eq!(SuggestionsRenderer::scroll_start(Some(49), 10, 50), 40);
    // no selection: top
    assert_eq!(SuggestionsRenderer::scroll_start(None, 10, 50), 0);
    assert_eq!(SuggestionsRenderer::scroll_end(20, 10, 50), 30);
    assert_eq!(SuggestionsRenderer::scroll_end(45, 10, 50), 50);
}

#[test]
fn test_line_cursor_scenario_from_offset_eight() {
    // content "line1\nline2\nline3": a line cursor created at offset 8
    // returns (6, "line2\n") as its first forward read
    let buffer = Buffer::from_str("line1\nline2\nline3");
    let mut iter = buffer.line_iterator(8);
    let (start, content) = iter.next().unwrap();
    assert_eq!((start, content.as_str()), (6, "line2\n"));
}

#[test]
fn test_line_cursor_next_then_prev_same_line() {
    // next() then prev() from offset 10 returns (7, "Line 2\n") both times
    let buffer = Buffer::from_str("Line 1\nLine 2\nLine 3");
    let mut iter = buffer.line_iterator(10);
    let (s1, c1) = iter.next().unwrap();
    assert_eq!((s1, c1.as_str()), (7, "Line 2\n"));
    let (s2, c2) = iter.prev().unwrap();
    assert_eq!((s2, c2.as_str()), (7, "Line 2\n"));
}
