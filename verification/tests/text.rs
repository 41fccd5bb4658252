use helmls::text::{
    chars_of, column_of_offset, is_whitespace, skip_spaces, skip_word, token_span_at, width_of,
};

#[test]
fn whitespace_is_the_unicode_white_space_set() {
    let mut c = 0u32;
    while c <= 0x10FFFF {
        if let Some(ch) = char::from_u32(c) {
            assert_eq!(is_whitespace(ch), ch.is_whitespace(), "U+{:04X}", c);
        }
        c += 1;
    }
}

#[test]
fn whitespace_examples() {
    assert!(is_whitespace(' '));
    assert!(is_whitespace('\t'));
    assert!(is_whitespace('\n'));
    assert!(is_whitespace('\u{00A0}'));
    assert!(is_whitespace('\u{3000}'));
    assert!(!is_whitespace('a'));
    assert!(!is_whitespace('$'));
    assert!(!is_whitespace('\u{200B}'));
}

#[test]
fn chars_of_keeps_every_character() {
    assert_eq!(chars_of(""), Vec::<char>::new());
    assert_eq!(chars_of("a$é→😀"), vec!['a', '$', 'é', '→', '😀']);
}

#[test]
fn width_matches_the_utf8_encoding() {
    let mut c = 0u32;
    while c <= 0x10FFFF {
        if let Some(ch) = char::from_u32(c) {
            assert_eq!(width_of(ch), ch.len_utf8(), "U+{:04X}", c);
        }
        c += 1;
    }
    assert_eq!(width_of('a'), 1);
    assert_eq!(width_of('é'), 2);
    assert_eq!(width_of('→'), 3);
    assert_eq!(width_of('😀'), 4);
}

#[test]
fn skip_spaces_stops_at_the_first_word() {
    let text = chars_of("  \t end -");
    assert_eq!(skip_spaces(&text, 0), 4);
    assert_eq!(skip_spaces(&text, 4), 4);
    assert_eq!(skip_spaces(&text, 7), 8);
    assert_eq!(skip_spaces(&text, 9), 9);
    assert_eq!(skip_spaces(&text, 20), 20);
    let blank = chars_of("   ");
    assert_eq!(skip_spaces(&blank, 0), 3);
}

#[test]
fn skip_word_stops_at_the_next_whitespace() {
    let text = chars_of("  \t end -");
    assert_eq!(skip_word(&text, 4), 7);
    assert_eq!(skip_word(&text, 0), 0);
    assert_eq!(skip_word(&text, 8), 9);
    assert_eq!(skip_word(&text, 20), 20);
}

#[test]
fn token_span_is_bounded_by_whitespace() {
    let line = chars_of("{{ $value }}");
    // cursor on any character of the token
    for column in 3..=9 {
        assert_eq!(token_span_at(&line, column), Some((3, 9)), "column {}", column);
    }
    // cursor on the whitespace before the token: the word that ends there
    assert_eq!(token_span_at(&line, 2), None);
    // cursor inside the closing braces
    assert_eq!(token_span_at(&line, 10), None);
    assert_eq!(token_span_at(&line, 11), None);
}

#[test]
fn token_span_fails_without_whitespace_on_a_side() {
    assert_eq!(token_span_at(&chars_of("$v"), 1), None);
    assert_eq!(token_span_at(&chars_of("$v "), 1), None);
    assert_eq!(token_span_at(&chars_of(" $v"), 1), None);
    assert_eq!(token_span_at(&chars_of(" $v "), 1), Some((1, 3)));
    assert_eq!(token_span_at(&chars_of(""), 0), None);
    assert_eq!(token_span_at(&chars_of(" $v "), 0), None);
}

#[test]
fn token_span_with_the_cursor_past_the_end() {
    let line = chars_of("a $v b");
    assert_eq!(token_span_at(&line, 6), None);
    assert_eq!(token_span_at(&line, 100), None);
    assert_eq!(token_span_at(&line, usize::MAX), None);
}

#[test]
fn token_span_on_whitespace_takes_the_word_before() {
    let line = chars_of("a $v b");
    assert_eq!(token_span_at(&line, 4), Some((2, 4)));
    // two spaces in a row: an empty token
    let gap = chars_of("a  b");
    assert_eq!(token_span_at(&gap, 2), Some((2, 2)));
}

#[test]
fn token_span_takes_tabs_as_boundaries() {
    let line = chars_of("{{\t$v\t}}");
    assert_eq!(token_span_at(&line, 4), Some((3, 5)));
}

#[test]
fn column_of_offset_on_ascii() {
    let line = chars_of("abc");
    assert_eq!(column_of_offset(&line, 0), Some(0));
    assert_eq!(column_of_offset(&line, 1), Some(1));
    assert_eq!(column_of_offset(&line, 3), Some(3));
    assert_eq!(column_of_offset(&line, 4), None);
    assert_eq!(column_of_offset(&line, usize::MAX), None);
}

#[test]
fn column_of_offset_counts_characters_not_bytes() {
    // é is 2 bytes, → is 3, 😀 is 4
    let line = chars_of("é→😀x");
    assert_eq!(column_of_offset(&line, 0), Some(0));
    assert_eq!(column_of_offset(&line, 1), None);
    assert_eq!(column_of_offset(&line, 2), Some(1));
    assert_eq!(column_of_offset(&line, 3), None);
    assert_eq!(column_of_offset(&line, 4), None);
    assert_eq!(column_of_offset(&line, 5), Some(2));
    assert_eq!(column_of_offset(&line, 8), None);
    assert_eq!(column_of_offset(&line, 9), Some(3));
    assert_eq!(column_of_offset(&line, 10), Some(4));
    assert_eq!(column_of_offset(&line, 11), None);
    let empty = chars_of("");
    assert_eq!(column_of_offset(&empty, 0), Some(0));
    assert_eq!(column_of_offset(&empty, 1), None);
}
