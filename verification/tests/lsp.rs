//! Scenarios for cursor positions and the word under the cursor.
use mlmd_core::lsp::{utf16_offset_to_byte_index, word_at_position};


#[test]
fn test_utf16_offset_ascii() {
    let s = "hello";
    assert_eq!(utf16_offset_to_byte_index(s, 0), Some(0));
    assert_eq!(utf16_offset_to_byte_index(s, 1), Some(1));
    assert_eq!(utf16_offset_to_byte_index(s, 4), Some(4));
    assert_eq!(utf16_offset_to_byte_index(s, 5), Some(5));
    assert_eq!(utf16_offset_to_byte_index(s, 6), None);
}

#[test]
fn test_utf16_offset_multibyte_utf8() {
    // '€' (U+20AC) is 3 UTF-8 bytes but 1 UTF-16 unit
    let s = "a€z";
    // char_indices: (0,'a',1unit), (1,'€',1unit), (4,'z',1unit)
    assert_eq!(utf16_offset_to_byte_index(s, 0), Some(0)); // before 'a'
    assert_eq!(utf16_offset_to_byte_index(s, 1), Some(1)); // after 'a' → byte 1
    assert_eq!(utf16_offset_to_byte_index(s, 2), Some(4)); // after '€' → byte 4
    assert_eq!(utf16_offset_to_byte_index(s, 3), Some(5)); // after 'z' → byte 5 (end)
    assert_eq!(utf16_offset_to_byte_index(s, 4), None);
}

#[test]
fn test_utf16_offset_chinese() {
    // Chinese chars U+4E00..U+9FFF: 3 UTF-8 bytes, 1 UTF-16 unit each
    let s = "你好"; // 2 chars
    assert_eq!(utf16_offset_to_byte_index(s, 0), Some(0));
    assert_eq!(utf16_offset_to_byte_index(s, 1), Some(3)); // after 你
    assert_eq!(utf16_offset_to_byte_index(s, 2), Some(6)); // after 好 (end)
    assert_eq!(utf16_offset_to_byte_index(s, 3), None);
}

#[test]
fn test_utf16_offset_surrogate_pair() {
    // 😀 (U+1F600) = 4 UTF-8 bytes, 2 UTF-16 units (surrogate pair)
    let s = "a😀z";
    // char_indices: (0,'a',1), (1,'😀',2), (5,'z',1)
    assert_eq!(utf16_offset_to_byte_index(s, 0), Some(0)); // before 'a'
    assert_eq!(utf16_offset_to_byte_index(s, 1), Some(1)); // after 'a'
    assert_eq!(utf16_offset_to_byte_index(s, 2), Some(1)); // middle of surrogate pair → snaps to emoji start
    assert_eq!(utf16_offset_to_byte_index(s, 3), Some(5)); // after emoji → byte 5
    assert_eq!(utf16_offset_to_byte_index(s, 4), Some(6)); // after 'z' → byte 6 (end)
    assert_eq!(utf16_offset_to_byte_index(s, 5), None);
}

#[test]
fn test_utf16_offset_empty() {
    assert_eq!(utf16_offset_to_byte_index("", 0), Some(0));
    assert_eq!(utf16_offset_to_byte_index("", 1), None);
}

#[test]
fn test_word_at_position_ascii() {
    assert_eq!(
        word_at_position("hello world", 0),
        Some("hello".to_string())
    );
    assert_eq!(
        word_at_position("hello world", 6),
        Some("world".to_string())
    );
    assert_eq!(word_at_position("hello world", 5), None); // space
}

#[test]
fn test_word_at_position_non_ascii_line() {
    // The line has non-ASCII chars, but the word itself is ASCII
    let line = "a € bcd";
    assert_eq!(word_at_position(line, 5), Some("bcd".to_string()));
    // character 5 in UTF-16: a(0), space(1), €(2), space(3), b(4), c(5), d(6)
    // byte 5 is 'c' (actually let me trace: a=byte0, space=byte1, €=bytes2-4, space=byte5, b=byte6...)
    // Wait, "a € bcd" has: 'a'(0), ' '(1), '€'(2,3,4), ' '(5), 'b'(6), 'c'(7), 'd'(8)
    // UTF-16 offsets: 0:a, 1:space, 2:€, 3:space, 4:b, 5:c, 6:d
    // So offset 5 = 'c' in UTF-16 = byte 7, word "bcd"
    assert_eq!(word_at_position(line, 4), Some("bcd".to_string())); // at 'b'
    assert_eq!(word_at_position(line, 6), Some("bcd".to_string())); // at 'd'
}

#[test]
fn test_word_at_position_underscore() {
    assert_eq!(
        word_at_position("foo_bar baz", 0),
        Some("foo_bar".to_string())
    );
    assert_eq!(
        word_at_position("foo_bar baz", 4),
        Some("foo_bar".to_string()) // at '_'
    );
}

#[test]
fn test_word_at_position_out_of_bounds() {
    assert_eq!(word_at_position("hi", 10), None);
}

#[test]
fn test_word_at_position_empty() {
    assert_eq!(word_at_position("", 0), None);
}

