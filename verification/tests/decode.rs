use mdout::decode::Utf8Decoder;

#[test]
fn decodes_split_multibyte_char() {
    let mut d = Utf8Decoder::new();
    let bytes = "中".as_bytes();
    assert_eq!(d.push(&bytes[..1]), "");
    assert_eq!(d.push(&bytes[1..2]), "");
    assert_eq!(d.push(&bytes[2..]), "中");
}

#[test]
fn decodes_incremental_ascii_and_cjk() {
    let mut d = Utf8Decoder::new();
    assert_eq!(d.push(b"ab"), "ab");
    assert_eq!(d.push("中".as_bytes()), "中");
    assert_eq!(d.finish(), "");
}

#[test]
fn replaces_invalid_bytes_lossily() {
    let mut d = Utf8Decoder::new();
    assert_eq!(d.push(&[0xff, b'a']), "\u{FFFD}a");
}

#[test]
fn finish_flushes_incomplete_as_replacement() {
    let mut d = Utf8Decoder::new();
    assert_eq!(d.push(&[0xe4, 0xb8]), "");
    assert_eq!(d.finish(), "\u{FFFD}");
}

#[test]
fn truncated_sequence_before_ascii_is_one_replacement() {
    let mut d = Utf8Decoder::new();
    assert_eq!(d.push(&[0xe4, 0xb8, b'x']), "\u{FFFD}x");
}

#[test]
fn surrogate_and_overlong_forms_are_replaced() {
    let mut d = Utf8Decoder::new();
    assert_eq!(d.push(&[0xed, 0xa0, 0x80]), "\u{FFFD}\u{FFFD}\u{FFFD}");
    assert_eq!(d.push(&[0xc0, 0xaf]), "\u{FFFD}\u{FFFD}");
    assert_eq!(d.push(&[0xf4, 0x90, 0x80, 0x80]), "\u{FFFD}\u{FFFD}\u{FFFD}\u{FFFD}");
}

#[test]
fn four_byte_character_across_every_split() {
    let text = "a😀b中";
    let bytes = text.as_bytes();
    for cut in 0..=bytes.len() {
        let mut d = Utf8Decoder::new();
        let mut out = d.push(&bytes[..cut]);
        out.push_str(&d.push(&bytes[cut..]));
        out.push_str(&d.finish());
        assert_eq!(out, text);
    }
}

#[test]
fn pieces_decode_like_whole_input() {
    let bytes: Vec<u8> = vec![b'h', 0xe4, 0xb8, 0xad, 0xff, 0xf0, 0x9f, 0x98, 0x80, b'!', 0xe2, 0x82];
    let whole = String::from_utf8_lossy(&bytes).into_owned();
    for size in 1..=bytes.len() {
        let mut d = Utf8Decoder::new();
        let mut out = String::new();
        for piece in bytes.chunks(size) {
            out.push_str(&d.push(piece));
        }
        out.push_str(&d.finish());
        assert_eq!(out, whole);
    }
}
