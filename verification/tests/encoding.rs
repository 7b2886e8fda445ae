use static_collections::encoding::{
    decode_utf16_char, decode_utf8_char, encode_utf16_units, encode_utf8_char,
};
use static_collections::nul::bounded_len;

const SAMPLES: [char; 14] = [
    '\0', 'a', '\u{7F}', '\u{80}', 'é', '\u{7FF}', '\u{800}', '日', '\u{D7FF}', '\u{E000}',
    '\u{FFFF}', '\u{10000}', '😀', '\u{10FFFF}',
];

#[test]
fn encode_utf8_char_gives_the_utf8_bytes() {
    assert_eq!(encode_utf8_char('é'), ([0xC3, 0xA9, 0, 0], 2));
    assert_eq!(encode_utf8_char('😀'), ([0xF0, 0x9F, 0x98, 0x80], 4));
    for ch in SAMPLES {
        let (bytes, width) = encode_utf8_char(ch);
        assert_eq!(width, ch.len_utf8());
        let mut expected = [0u8; 4];
        assert_eq!(&bytes[..width], ch.encode_utf8(&mut expected).as_bytes());
    }
}

#[test]
fn decode_utf8_char_reads_one_char() {
    let text = "a\0é日😀\u{10FFFF}z";
    let bytes = text.as_bytes();
    let mut index = 0usize;
    let mut decoded = String::new();
    while index < bytes.len() {
        let (ch, width) = decode_utf8_char(bytes, index);
        assert_eq!(width, ch.len_utf8());
        decoded.push(ch);
        index += width;
    }
    assert_eq!(decoded, text);
    assert_eq!(decode_utf8_char(&[0xE6, 0x97, 0xA5], 0), ('日', 3));
}

#[test]
fn encode_utf16_units_gives_the_utf16_units() {
    assert_eq!(encode_utf16_units('a'), ([0x61, 0], 1));
    assert_eq!(encode_utf16_units('😀'), ([0xD83D, 0xDE00], 2));
    assert_eq!(encode_utf16_units('\u{10000}'), ([0xD800, 0xDC00], 2));
    assert_eq!(encode_utf16_units('\u{10FFFF}'), ([0xDBFF, 0xDFFF], 2));
    for ch in SAMPLES {
        let (units, width) = encode_utf16_units(ch);
        assert_eq!(width, ch.len_utf16());
        let mut expected = [0u16; 2];
        assert_eq!(&units[..width], ch.encode_utf16(&mut expected));
        assert_eq!(decode_utf16_char(&units[..width], 0), (ch, width));
    }
}

#[test]
fn decode_utf16_char_replaces_lone_surrogates() {
    assert_eq!(decode_utf16_char(&[0xD83D, 0xDE00], 0), ('😀', 2));
    assert_eq!(decode_utf16_char(&[0xD83D, 0xDE00], 1), ('\u{FFFD}', 1));
    assert_eq!(decode_utf16_char(&[0xD83D, 0x61], 0), ('\u{FFFD}', 1));
    assert_eq!(decode_utf16_char(&[0xD83D], 0), ('\u{FFFD}', 1));
    assert_eq!(decode_utf16_char(&[0x61, 0x9B51], 1), ('魑', 1));
}

#[test]
fn bounded_len_stops_at_zero_or_limit() {
    assert_eq!(bounded_len(b"Hello\0World", 11), 5);
    assert_eq!(bounded_len(b"Hello\0World", 5), 5);
    assert_eq!(bounded_len(b"Hello\0World", 3), 3);
    assert_eq!(bounded_len(b"Hello", 5), 5);
    assert_eq!(bounded_len(b"\0", 1), 0);
    assert_eq!(bounded_len(b"", 0), 0);
}
