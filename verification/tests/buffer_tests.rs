use regex::bytes::Regex;
use text_engine::buffer::Buffer;

#[test]
fn test_buffer_basic() {
    let buffer = Buffer::from_str("hello world");
    assert_eq!(buffer.len(), 11);
    assert_eq!(buffer.to_string(), "hello world");
}

#[test]
fn test_buffer_insert() {
    let mut buffer = Buffer::from_str("hello world");
    buffer.insert(5, " beautiful");
    assert_eq!(buffer.to_string(), "hello beautiful world");
    assert!(buffer.is_modified());
}

#[test]
fn test_buffer_delete() {
    let mut buffer = Buffer::from_str("hello world");
    buffer.delete(5..11);
    assert_eq!(buffer.to_string(), "hello");
}

#[test]
fn test_line_iterator() {
    let buffer = Buffer::from_str("line1\nline2\nline3");
    let mut iter = buffer.line_iterator(0);

    let (start, content) = iter.next().unwrap();
    assert_eq!(start, 0);
    assert_eq!(content, "line1\n");

    let (start, content) = iter.next().unwrap();
    assert_eq!(start, 6);
    assert_eq!(content, "line2\n");

    let (start, content) = iter.next().unwrap();
    assert_eq!(start, 12);
    assert_eq!(content, "line3");

    assert!(iter.next().is_none());
}

#[test]
fn test_line_iterator_from_middle() {
    let buffer = Buffer::from_str("line1\nline2\nline3");
    let mut iter = buffer.line_iterator(8); // Middle of "line2"

    // Should start from beginning of line2
    let (start, content) = iter.next().unwrap();
    assert_eq!(start, 6);
    assert_eq!(content, "line2\n");
}

#[test]
fn test_buffer_slice() {
    let buffer = Buffer::from_str("hello world");
    assert_eq!(buffer.slice(0..5), "hello");
    assert_eq!(buffer.slice(6..11), "world");
}

#[test]
fn test_buffer_find_next() {
    let buffer = Buffer::from_str("hello world hello");
    assert_eq!(buffer.find_next("hello", 0), Some(0));
    assert_eq!(buffer.find_next("hello", 1), Some(12));
    assert_eq!(buffer.find_next("hello", 13), Some(0)); // Wraps around
    assert_eq!(buffer.find_next("xyz", 0), None);
}

#[test]
fn test_lsp_position_to_byte_rust_rename_scenario() {
    // Three rename edits as a language server would send them, against:
    // fn main() {
    //     let log_line = "hello world";
    //     println!("{}", log_line);
    //     let result = log_line.len();
    // }
    let code = "fn main() {\n    let log_line = \"hello world\";\n    println!(\"{}\", log_line);\n    let result = log_line.len();\n}\n";
    let buffer = Buffer::from_str(code);

    // Edit 1: line 1, character 8-16 (the declaration)
    let start_pos = buffer.lsp_position_to_byte(1, 8);
    let end_pos = buffer.lsp_position_to_byte(1, 16);
    let text = buffer.slice(start_pos..end_pos);
    assert_eq!(
        text, "log_line",
        "Edit 1: declaration should be 'log_line' at line 1, chars 8-16"
    );

    // Edit 2: line 2, character 19-27 (the println! argument)
    let start_pos = buffer.lsp_position_to_byte(2, 19);
    let end_pos = buffer.lsp_position_to_byte(2, 27);
    let text = buffer.slice(start_pos..end_pos);
    assert_eq!(
        text, "log_line",
        "Edit 2: println! arg should be 'log_line' at line 2, chars 19-27"
    );

    // Edit 3: line 3, character 17-25 (the .len() call)
    let start_pos = buffer.lsp_position_to_byte(3, 17);
    let end_pos = buffer.lsp_position_to_byte(3, 25);
    let text = buffer.slice(start_pos..end_pos);
    assert_eq!(
        text, "log_line",
        "Edit 3: .len() call should be 'log_line' at line 3, chars 17-25"
    );
}

#[test]
fn test_buffer_find_next_regex() {
    let buffer = Buffer::from_str("hello world hello");

    // Simple literal pattern
    let regex = Regex::new("hello").unwrap();
    assert_eq!(buffer.find_next_regex(&regex, 0), Some(0));
    assert_eq!(buffer.find_next_regex(&regex, 1), Some(12));
    assert_eq!(buffer.find_next_regex(&regex, 13), Some(0)); // Wraps around

    // Pattern with \s+
    let regex = Regex::new(r"hello\s+world").unwrap();
    assert_eq!(buffer.find_next_regex(&regex, 0), Some(0));

    // No match
    let regex = Regex::new("xyz").unwrap();
    assert_eq!(buffer.find_next_regex(&regex, 0), None);
}

#[test]
fn test_buffer_find_regex_across_chunks() {
    // Create a buffer larger than chunk size to test cross-chunk matching
    let content = "x".repeat(5000) + "hello world" + &"y".repeat(5000);
    let buffer = Buffer::from_str(&content);

    let regex = Regex::new(r"hello\s+world").unwrap();
    let match_pos = buffer.find_next_regex(&regex, 0);
    assert!(match_pos.is_some());
    assert_eq!(match_pos.unwrap(), 5000);
}

#[test]
fn test_buffer_find_regex_unicode() {
    let buffer = Buffer::from_str("hello 世界 world");

    // Unicode character class
    let regex = Regex::new(r"\p{Han}+").unwrap();
    let match_pos = buffer.find_next_regex(&regex, 0);
    assert!(match_pos.is_some());

    // The position should be after "hello "
    let pos = match_pos.unwrap();
    assert_eq!(&buffer.slice(pos..pos + 6), "世界");
}

#[test]
fn test_line_iterator_next_then_prev() {
    // Cursor-based bidirectional iteration: next() reads forward and
    // advances, prev() reads backward and retreats, so next() followed by
    // prev() returns the same line twice.
    let buffer = Buffer::from_str("Line 1\nLine 2\nLine 3");
    let mut iter = buffer.line_iterator(10); // Middle of Line 2

    // Cursor is at Line 2
    // next() should return Line 2 and advance past it
    let (line_start, line_content) = iter.next().unwrap();
    assert_eq!(line_start, 7);
    assert_eq!(line_content, "Line 2\n");

    // Cursor is now after Line 2 (before Line 3)
    // prev() should return Line 2 again and move cursor back before Line 2
    let (prev_line_start, prev_line_content) = iter.prev().unwrap();
    assert_eq!(prev_line_start, 7, "prev() should return same Line 2");
    assert_eq!(prev_line_content, "Line 2\n");

    // Cursor is now before Line 2
    // prev() again should return Line 1
    let (prev_line_start, prev_line_content) = iter.prev().unwrap();
    assert_eq!(prev_line_start, 0);
    assert_eq!(prev_line_content, "Line 1\n");

    // Test 2: From last line (no trailing newline) - this was the failing case!
    let mut iter = buffer.line_iterator(20);
    let (line_start, line_content) = iter.next().unwrap();
    assert_eq!(line_start, 14);
    assert_eq!(line_content, "Line 3");

    // Cursor should be at EOF (position 20)
    // prev() should return Line 3 again
    let (prev_line_start, prev_line_content) = iter.prev().unwrap();
    assert_eq!(prev_line_start, 14, "prev() should return Line 3 again");
    assert_eq!(prev_line_content, "Line 3");

    // prev() again should return Line 2
    let (prev_line_start, prev_line_content) = iter.prev().unwrap();
    assert_eq!(prev_line_start, 7, "second prev() should return Line 2");
    assert_eq!(prev_line_content, "Line 2\n");
}
