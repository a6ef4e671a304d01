use rockdown::text_input::{grapheme_column, ime_deletion, utf16_offset, utf8_offset};

#[test]
fn utf16_offsets_map_to_character_boundaries() {
    let text = "a\u{301}\u{1f469}x中";
    // a (1 byte, 1 unit), U+0301 (2 bytes, 1 unit), U+1F469 (4 bytes, 2 units),
    // x (1 byte, 1 unit), 中 (3 bytes, 1 unit).
    assert_eq!(utf8_offset(text, 0), 0);
    assert_eq!(utf8_offset(text, 1), 1);
    assert_eq!(utf8_offset(text, 2), 3);
    assert_eq!(utf8_offset(text, 3), 3);
    assert_eq!(utf8_offset(text, 4), 7);
    assert_eq!(utf8_offset(text, 5), 8);
    assert_eq!(utf8_offset(text, 6), 11);
    assert_eq!(utf8_offset(text, 99), 11);
    assert_eq!(utf8_offset("", 3), 0);
}

#[test]
fn byte_offsets_map_to_utf16_offsets() {
    let text = "a\u{301}\u{1f469}x中";
    assert_eq!(utf16_offset(text, 0), 0);
    assert_eq!(utf16_offset(text, 1), 1);
    assert_eq!(utf16_offset(text, 3), 2);
    assert_eq!(utf16_offset(text, 7), 4);
    assert_eq!(utf16_offset(text, 8), 5);
    assert_eq!(utf16_offset(text, 11), 6);
    assert_eq!(utf16_offset(text, 40), 6);
}

#[test]
fn boundaries_round_trip() {
    let text = "é\u{1f4bb}z";
    for boundary in [0, 2, 6, 7] {
        assert_eq!(utf8_offset(text, utf16_offset(text, boundary)), boundary);
    }
    for units in 0..6 {
        assert!(utf16_offset(text, utf8_offset(text, units)) <= units);
    }
}

#[test]
fn input_method_deletions_cover_whole_grapheme_clusters() {
    let line = "ae\u{301}b";
    assert_eq!(ime_deletion(line, 2, 2), (1, 1));
    assert_eq!(ime_deletion(line, 1, 2), (1, 1));
    assert_eq!(ime_deletion(line, 0, 4), (0, 3));
    assert_eq!(ime_deletion(line, 4, 4), (5, 0));
    assert_eq!(ime_deletion(line, 3, 3), (4, 0));
    assert_eq!(ime_deletion("a😀b", 2, 2), (1, 0));
    assert_eq!(ime_deletion("a😀b", 1, 3), (1, 1));
    assert_eq!(ime_deletion("", 0, 5), (0, 0));
}

#[test]
fn clicks_land_on_grapheme_cluster_starts() {
    let line = "ae\u{301}b";
    assert_eq!(grapheme_column(line, 3, false), 1);
    assert_eq!(grapheme_column(line, 2, true), 1);
    assert_eq!(grapheme_column(line, 4, false), 4);
    assert_eq!(grapheme_column(line, 5, false), 4);
    assert_eq!(grapheme_column(line, 5, true), 5);
    assert_eq!(grapheme_column(line, 99, true), 5);
    assert_eq!(grapheme_column(line, 0, false), 0);
    assert_eq!(grapheme_column("", 3, false), 0);
    assert_eq!(grapheme_column("", 3, true), 0);
}
