use text_engine::ansi::{contains_ansi_codes, parse_ansi_string, strip_ansi_codes, visible_char_count, Color};

#[test]
fn test_no_ansi() {
    let text = "Hello, world!";
    assert!(!contains_ansi_codes(text));
    assert_eq!(strip_ansi_codes(text), text);
}

#[test]
fn test_strip_simple_color() {
    let text = "\x1b[31mRed\x1b[0m";
    assert!(contains_ansi_codes(text));
    assert_eq!(strip_ansi_codes(text), "Red");
}

#[test]
fn test_strip_multiple_colors() {
    let text = "\x1b[31mRed\x1b[32mGreen\x1b[0m";
    assert_eq!(strip_ansi_codes(text), "RedGreen");
}

#[test]
fn test_parse_red_text() {
    let text = "\x1b[31mRed\x1b[0m";
    let segments = parse_ansi_string(text);

    assert_eq!(segments.len(), 1);
    assert_eq!(segments[0].0, "Red");
    assert_eq!(segments[0].1.fg, Some(Color::Red));
}

#[test]
fn test_parse_multiple_colors() {
    let text = "\x1b[31mRed\x1b[32mGreen\x1b[0mNormal";
    let segments = parse_ansi_string(text);

    assert_eq!(segments.len(), 3);
    assert_eq!(segments[0].0, "Red");
    assert_eq!(segments[0].1.fg, Some(Color::Red));
    assert_eq!(segments[1].0, "Green");
    assert_eq!(segments[1].1.fg, Some(Color::Green));
    assert_eq!(segments[2].0, "Normal");
    assert_eq!(segments[2].1.fg, None);
}

#[test]
fn test_parse_bold() {
    let text = "\x1b[1mBold\x1b[0m";
    let segments = parse_ansi_string(text);

    assert_eq!(segments.len(), 1);
    assert_eq!(segments[0].0, "Bold");
    assert!(segments[0].1.bold);
}

#[test]
fn test_parse_256_color() {
    let text = "\x1b[38;5;196mRed256\x1b[0m";
    let segments = parse_ansi_string(text);

    assert_eq!(segments.len(), 1);
    assert_eq!(segments[0].0, "Red256");
    assert_eq!(segments[0].1.fg, Some(Color::Indexed(196)));
}

#[test]
fn test_parse_rgb_color() {
    let text = "\x1b[38;2;255;128;0mOrange\x1b[0m";
    let segments = parse_ansi_string(text);

    assert_eq!(segments.len(), 1);
    assert_eq!(segments[0].0, "Orange");
    assert_eq!(segments[0].1.fg, Some(Color::Rgb(255, 128, 0)));
}

#[test]
fn test_bright_colors() {
    let text = "\x1b[91mBrightRed\x1b[0m";
    let segments = parse_ansi_string(text);

    assert_eq!(segments.len(), 1);
    assert_eq!(segments[0].0, "BrightRed");
    assert_eq!(segments[0].1.fg, Some(Color::LightRed));
}

#[test]
fn test_combined_attributes() {
    let text = "\x1b[1;31;4mBoldRedUnderline\x1b[0m";
    let segments = parse_ansi_string(text);

    assert_eq!(segments.len(), 1);
    assert_eq!(segments[0].0, "BoldRedUnderline");
    assert_eq!(segments[0].1.fg, Some(Color::Red));
    assert!(segments[0].1.bold);
    assert!(segments[0].1.underlined);
}

#[test]
fn test_background_color() {
    let text = "\x1b[44mBlueBackground\x1b[0m";
    let segments = parse_ansi_string(text);

    assert_eq!(segments.len(), 1);
    assert_eq!(segments[0].0, "BlueBackground");
    assert_eq!(segments[0].1.bg, Some(Color::Blue));
}

#[test]
fn test_mixed_content() {
    let text = "Normal \x1b[31mRed\x1b[0m Normal";
    let segments = parse_ansi_string(text);

    assert_eq!(segments.len(), 3);
    assert_eq!(segments[0].0, "Normal ");
    assert_eq!(segments[1].0, "Red");
    assert_eq!(segments[2].0, " Normal");
}

#[test]
fn test_strip_is_idempotent_and_ordered() {
    let text = "pre\x1b[31mred\x1b[0m mid \x1b[44mblue\x1b[0m post";
    let once = strip_ansi_codes(text);
    assert_eq!(once, "prered mid blue post");
    assert_eq!(strip_ansi_codes(&once), once);
    assert_eq!(visible_char_count(text), once.chars().count());
}

#[test]
fn test_visible_char_count() {
    assert_eq!(visible_char_count("plain"), 5);
    assert_eq!(visible_char_count("\x1b[31mRed\x1b[0m"), 3);
    assert_eq!(visible_char_count(""), 0);
}
