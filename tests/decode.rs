use base64_decoder::{decode_display, decode_raw, decode_single, is_shown, sanitize, Point2};

#[test]
fn single_symbol_values() {
    assert_eq!(decode_single('A'), Some(0));
    assert_eq!(decode_single('Z'), Some(25));
    assert_eq!(decode_single('a'), Some(26));
    assert_eq!(decode_single('z'), Some(51));
    assert_eq!(decode_single('0'), Some(52));
    assert_eq!(decode_single('9'), Some(61));
    assert_eq!(decode_single('+'), Some(62));
    assert_eq!(decode_single('/'), Some(63));
    assert_eq!(decode_single('='), Some(0));
}

#[test]
fn single_symbol_invalid() {
    assert_eq!(decode_single('#'), None);
    assert_eq!(decode_single('!'), None);
    assert_eq!(decode_single(' '), None);
    assert_eq!(decode_single('-'), None);
    assert_eq!(decode_single('é'), None);
}

#[test]
fn raw_length_follows_character_count() {
    let expected = [0usize, 1, 2, 3, 3, 4, 5, 6, 6, 7, 8, 9, 9];
    for (n, want) in expected.iter().enumerate() {
        let text = "A".repeat(n);
        assert_eq!(decode_raw(&text).len(), *want);
        let invalid = "#".repeat(n);
        assert_eq!(decode_raw(&invalid).len(), *want);
    }
}

#[test]
fn raw_length_counts_characters_not_bytes() {
    assert_eq!(decode_raw("é").len(), 1);
    assert_eq!(decode_raw("ééé").len(), 3);
    assert_eq!(decode_raw("TQé="), decode_raw("TQ=="));
}

#[test]
fn empty_input() {
    assert_eq!(decode_raw(""), Vec::<u8>::new());
    assert_eq!(decode_display(""), "");
}

#[test]
fn canonical_round_trip() {
    assert_eq!(decode_raw("TWFu"), vec![0x4d, 0x61, 0x6e]);
    assert_eq!(decode_raw("/wAQ"), vec![0xff, 0x00, 0x10]);
    assert_eq!(decode_raw("TWE="), vec![0x4d, 0x61, 0x00]);
    assert_eq!(decode_raw("TWFuTQ=="), vec![0x4d, 0x61, 0x6e, 0x4d, 0x00, 0x00]);
    assert_eq!(decode_display("TWFu"), "Man");
    assert_eq!(decode_display("TWE="), "Ma");
}

#[test]
fn unpadded_lengths() {
    assert_eq!(decode_raw("TQ"), vec![0x4d, 0x00]);
    assert_eq!(decode_raw("TWF"), vec![0x4d, 0x61, 0x40]);
    assert_eq!(decode_display("TWF"), "Ma@");
}

#[test]
fn padding_same_as_invalid() {
    assert_eq!(decode_raw("TQ=#"), decode_raw("TQ=="));
    assert_eq!(decode_raw("TQ#="), decode_raw("TQ=="));
    assert_eq!(decode_raw("TQ!!"), decode_raw("TQ=="));
    assert_eq!(decode_raw("TWE#"), decode_raw("TWE="));
}

#[test]
fn invalid_character_keeps_positions() {
    assert_eq!(decode_raw("#WFu"), vec![0x01, 0x61, 0x6e]);
    assert_eq!(decode_raw("TW#u"), vec![0x4d, 0x60, 0x2e]);
}

#[test]
fn single_letter_example() {
    assert_eq!(decode_raw("TQ=="), vec![0x4d, 0x00, 0x00]);
    assert_eq!(decode_display("TQ=="), "M");
}

#[test]
fn all_invalid_gives_empty() {
    assert_eq!(decode_raw("!!!!"), vec![0, 0, 0]);
    assert_eq!(decode_display("!!!!"), "");
    assert_eq!(decode_display("===="), "");
    assert_eq!(decode_display("AAAA"), "");
}

#[test]
fn control_character_one_marker() {
    assert_eq!(decode_raw("AQ=="), vec![0x01, 0x00, 0x00]);
    assert_eq!(decode_display("AQ=="), "\u{FFFD}");
    assert_eq!(decode_display("CQ=="), "\u{FFFD}");
    assert_eq!(decode_display("YQFi"), "a\u{FFFD}b");
}

#[test]
fn space_is_kept() {
    assert_eq!(decode_display("ICA="), "  ");
}

#[test]
fn interior_zero_byte_kept() {
    assert_eq!(decode_raw("AEEA"), vec![0x00, 0x41, 0x00]);
    assert_eq!(decode_display("AEEA"), "\u{FFFD}A");
}

#[test]
fn invalid_utf8_becomes_marker() {
    assert_eq!(decode_raw("/w=="), vec![0xff, 0x00, 0x00]);
    assert_eq!(decode_display("/w=="), "\u{FFFD}");
}

#[test]
fn multibyte_character_one_marker() {
    assert_eq!(decode_raw("w6k="), vec![0xc3, 0xa9, 0x00]);
    assert_eq!(decode_display("w6k="), "\u{FFFD}");
}

#[test]
fn display_not_idempotent() {
    let once = decode_display("TWFu");
    assert_eq!(once, "Man");
    let twice = decode_display(&once);
    assert_eq!(twice, "1\u{FFFD}\u{FFFD}");
    assert_ne!(twice, once);
}

#[test]
fn sanitize_replaces_per_character() {
    assert_eq!(sanitize("a\tb"), "a\u{FFFD}b");
    assert_eq!(sanitize("é!"), "\u{FFFD}!");
    assert_eq!(sanitize(" ~"), " ~");
    assert_eq!(sanitize("\u{7f}\0"), "\u{FFFD}\u{FFFD}");
    assert_eq!(sanitize(""), "");
}

#[test]
fn shown_characters() {
    assert!(is_shown(' '));
    assert!(is_shown('!'));
    assert!(is_shown('~'));
    assert!(!is_shown('\n'));
    assert!(!is_shown('\u{7f}'));
    assert!(!is_shown('\u{FFFD}'));
}

#[test]
fn point_holds_coordinates() {
    let p = Point2 { x: 1024u32, y: 100u32 };
    let q = p;
    assert_eq!(q.x, 1024);
    assert_eq!(q.y, 100);
}
