use text_engine::chunks::Chunk;

#[test]
fn test_chunk_lines_iter() {
    let data: Vec<char> = "line1\nline2\nline3\n".chars().collect();
    let chunk = Chunk::from_disk(0, &data);
    let mut iter = chunk.lines_iter();

    assert_eq!(
        iter.next().unwrap().chars_iter().into_iter().collect::<String>(),
        "line1"
    );
    assert_eq!(
        iter.next().unwrap().chars_iter().into_iter().collect::<String>(),
        "line2"
    );
    assert_eq!(
        iter.next().unwrap().chars_iter().into_iter().collect::<String>(),
        "line3"
    );

    assert_eq!(iter.next().unwrap().chars_iter().into_iter().collect::<String>(), "");
    assert!(iter.next().is_none());
}

#[test]
fn test_chunk_lines_iter_empty() {
    let data: Vec<char> = "".chars().collect();
    let chunk = Chunk::from_disk(0, &data);
    let mut iter = chunk.lines_iter();

    assert_eq!(iter.next().unwrap().chars_iter().into_iter().collect::<String>(), "");
    assert!(iter.next().is_none());
}

#[test]
fn test_chunk_lines_iter_no_newline() {
    let data: Vec<char> = "line1".chars().collect();
    let chunk = Chunk::from_disk(0, &data);
    let mut iter = chunk.lines_iter();

    assert_eq!(
        iter.next().unwrap().chars_iter().into_iter().collect::<String>(),
        "line1"
    );
    assert!(iter.next().is_none());
}

#[test]
fn test_chunk_lines_iter_double_ended() {
    let data: Vec<char> = "line1\nline2\nline3\n".chars().collect();
    let chunk = Chunk::from_disk(0, &data);
    let mut iter = chunk.lines_iter();

    assert_eq!(
        iter.next_back().unwrap().chars_iter().into_iter().collect::<String>(),
        ""
    );
    assert_eq!(
        iter.next_back().unwrap().chars_iter().into_iter().collect::<String>(),
        "line3"
    );
    assert_eq!(
        iter.next_back().unwrap().chars_iter().into_iter().collect::<String>(),
        "line2"
    );
    assert_eq!(
        iter.next_back().unwrap().chars_iter().into_iter().collect::<String>(),
        "line1"
    );
    assert!(iter.next_back().is_none());
}
