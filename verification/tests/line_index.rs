use bazel_language_server::line_index::{utf16_len, LineIndex};

const ASTRAL: &str = "a = 1\nb = \"\u{1f600}x\"\n";

#[test]
fn counts_utf16_units() {
    let index = LineIndex::new(ASTRAL);
    assert_eq!(index.position(ASTRAL, 0), (0, 0));
    assert_eq!(index.position(ASTRAL, 6), (1, 0));
    let x = ASTRAL.find('x').unwrap();
    assert_eq!(x - 6, 9, "byte offset within the line");
    assert_eq!(index.position(ASTRAL, x), (1, 7));
}

#[test]
fn round_trips_every_boundary() {
    let index = LineIndex::new(ASTRAL);
    for offset in (0..=ASTRAL.len()).filter(|o| ASTRAL.is_char_boundary(*o)) {
        let (line, character) = index.position(ASTRAL, offset);
        assert_eq!(
            index.offset(ASTRAL, line, character),
            offset,
            "offset {offset} via {line}:{character}"
        );
    }
}

#[test]
fn a_column_inside_a_surrogate_pair_rounds_down() {
    let index = LineIndex::new(ASTRAL);
    let start = index.offset(ASTRAL, 1, 5);
    assert_eq!(index.offset(ASTRAL, 1, 6), start);
    assert!(ASTRAL.is_char_boundary(start));
}

#[test]
fn clamps_past_the_end() {
    let text = "a\n";
    let index = LineIndex::new(text);
    assert_eq!(index.position(text, 999), (1, 0));
    assert_eq!(index.offset(text, 99, 0), text.len());
    assert_eq!(index.offset(text, 0, 99), 1);
}

#[test]
fn a_crlf_line_ends_before_its_terminator() {
    let text = "ab\r\ncd\n";
    let index = LineIndex::new(text);
    assert_eq!(index.offset(text, 0, 99), 2);
}

#[test]
fn utf16_len_counts_surrogate_pairs_twice() {
    assert_eq!(utf16_len(""), 0);
    assert_eq!(utf16_len("abc"), 3);
    assert_eq!(utf16_len("\u{1f600}"), 2);
    assert_eq!(utf16_len("é"), 1);
}

#[test]
fn an_offset_inside_a_character_is_column_zero() {
    let index = LineIndex::new(ASTRAL);
    // The emoji begins at byte 11; byte 12 is inside it.
    assert_eq!(index.position(ASTRAL, 11), (1, 5));
    assert_eq!(index.position(ASTRAL, 12), (1, 0));
}
