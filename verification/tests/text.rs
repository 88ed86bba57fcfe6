use agent_ui::line_ending::normalize_line_endings;
use agent_ui::text::{
    byte_length, byte_offsets, char_index_of, chars_of, find_chars, is_whitespace_char,
    string_from_chars, utf8_width,
};

#[test]
fn whitespace_is_the_unicode_white_space_property() {
    for v in 0u32..=0x10FFFF {
        if let Some(c) = char::from_u32(v) {
            assert_eq!(is_whitespace_char(c), c.is_whitespace(), "{:x}", v);
        }
    }
}

#[test]
fn width_is_the_utf8_length() {
    for v in 0u32..=0x10FFFF {
        if let Some(c) = char::from_u32(v) {
            assert_eq!(utf8_width(c), c.len_utf8(), "{:x}", v);
        }
    }
}

#[test]
fn offsets_are_the_byte_offsets_of_chars() {
    let s = "aé€😀b";
    let cs = chars_of(s);
    assert_eq!(cs, vec!['a', 'é', '€', '😀', 'b']);
    let offs = byte_offsets(&cs);
    let mut expected: Vec<usize> = s.char_indices().map(|(i, _)| i).collect();
    expected.push(s.len());
    assert_eq!(offs, expected);
    assert_eq!(byte_length(&cs), s.len());
    assert_eq!(char_index_of(&cs, &offs, 6), 3);
    assert_eq!(char_index_of(&cs, &offs, 11), 5);
}

#[test]
fn find_chars_finds_the_first_occurrence() {
    let hay = chars_of("abcabc");
    assert_eq!(find_chars(&hay, &chars_of("bc")), Some(1));
    assert_eq!(find_chars(&hay, &chars_of("ca")), Some(2));
    assert_eq!(find_chars(&hay, &chars_of("cb")), None);
    assert_eq!(find_chars(&hay, &chars_of("")), Some(0));
    assert_eq!(find_chars(&hay, &chars_of("abcabcd")), None);
}

#[test]
fn string_from_chars_copies_the_range() {
    let cs = chars_of("héllo");
    assert_eq!(string_from_chars(&cs, 1, 4), "éll");
    assert_eq!(string_from_chars(&cs, 2, 2), "");
}

#[test]
fn line_endings_become_newlines() {
    let mut s = "a\r\nb\rc\n\r\r\nd\r".to_string();
    normalize_line_endings(&mut s);
    assert_eq!(s, "a\nb\nc\n\n\nd\n");
    let mut again = s.clone();
    normalize_line_endings(&mut again);
    assert_eq!(again, s);
    let mut plain = "no returns\n".to_string();
    normalize_line_endings(&mut plain);
    assert_eq!(plain, "no returns\n");
}
