use bundlermd::reading::{content_from_bytes, FileContent};

fn read_tmp(bytes: &[u8]) -> FileContent {
    content_from_bytes(bytes)
}

fn expect_text(bytes: &[u8]) -> String {
    match read_tmp(bytes) {
        FileContent::Text(s) => s,
        FileContent::Binary => panic!("expected text"),
    }
}

#[test]
fn plain_utf8_is_text() {
    assert_eq!(expect_text(b"hello\nworld\n"), "hello\nworld\n");
}

#[test]
fn utf8_bom_is_stripped() {
    assert_eq!(expect_text(b"\xEF\xBB\xBFhello"), "hello");
}

#[test]
fn nul_byte_means_binary() {
    assert!(matches!(read_tmp(b"abc\x00def"), FileContent::Binary));
}

#[test]
fn utf16le_with_bom_is_text() {
    let bytes = b"\xFF\xFEh\x00i\x00\n\x00";
    assert_eq!(expect_text(bytes), "hi\n");
}

#[test]
fn utf16be_with_bom_is_text() {
    let bytes = b"\xFE\xFF\x00h\x00i";
    assert_eq!(expect_text(bytes), "hi");
}

#[test]
fn bomless_utf16_is_binary_known_limitation() {
    let bytes = b"h\x00i\x00";
    assert!(matches!(read_tmp(bytes), FileContent::Binary));
}

#[test]
fn empty_file_is_text() {
    assert_eq!(expect_text(b""), "");
}

#[test]
fn invalid_utf8_is_replaced() {
    assert_eq!(expect_text(b"a\xFFb"), "a\u{FFFD}b");
}

#[test]
fn utf16_nul_character_means_binary() {
    assert!(matches!(read_tmp(b"\xFF\xFEh\x00\x00\x00"), FileContent::Binary));
}

#[test]
fn utf16_non_ascii_is_transcoded() {
    assert_eq!(expect_text(b"\xFF\xFE\xE9\x00\xAC\x20"), "é€");
    assert_eq!(expect_text(b"\xFE\xFF\x00\xE9"), "é");
}

#[test]
fn bom_alone_is_empty_text() {
    assert_eq!(expect_text(b"\xFF\xFE"), "");
    assert_eq!(expect_text(b"\xEF\xBB\xBF"), "");
}
