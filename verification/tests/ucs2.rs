use awabi::bytes::{nul_terminated_len, unpack_i16, unpack_i32, unpack_u16, unpack_u32};
use awabi::ucs2::{utf8_len, utf8_to_ucs2};

#[test]
fn leading_bytes_announce_their_width() {
    assert_eq!(utf8_len(0x00), 1);
    assert_eq!(utf8_len(0x7f), 1);
    assert_eq!(utf8_len(0x80), 0);
    assert_eq!(utf8_len(0xbf), 0);
    assert_eq!(utf8_len(0xc0), 2);
    assert_eq!(utf8_len(0xdf), 2);
    assert_eq!(utf8_len(0xe0), 3);
    assert_eq!(utf8_len(0xef), 3);
    assert_eq!(utf8_len(0xf0), 4);
    assert_eq!(utf8_len(0xf7), 4);
    assert_eq!(utf8_len(0xf8), 0);
    assert_eq!(utf8_len(0xff), 0);
}

#[test]
fn scalars_of_the_basic_plane_are_their_own_code_unit() {
    assert_eq!(utf8_to_ucs2(b"A", 0), (0x41, 1));
    assert_eq!(utf8_to_ucs2("é".as_bytes(), 0), (0xe9, 2));
    assert_eq!(utf8_to_ucs2("漢".as_bytes(), 0), (0x6f22, 3));
    assert_eq!(utf8_to_ucs2("あ".as_bytes(), 0), (0x3042, 3));
    assert_eq!(utf8_to_ucs2("\u{ffff}".as_bytes(), 0), (0xffff, 3));
    let text = "aé漢".as_bytes();
    assert_eq!(utf8_to_ucs2(text, 0), (0x61, 1));
    assert_eq!(utf8_to_ucs2(text, 1), (0xe9, 2));
    assert_eq!(utf8_to_ucs2(text, 3), (0x6f22, 3));
    for c in ['\u{0}', '\u{7f}', '\u{80}', '\u{7ff}', '\u{800}', '\u{d7ff}', '\u{e000}', '１'] {
        let mut buffer = [0u8; 4];
        let encoded = c.encode_utf8(&mut buffer).as_bytes();
        assert_eq!(utf8_to_ucs2(encoded, 0), (c as u32 as u16, encoded.len()));
    }
}

#[test]
fn scalars_above_the_basic_plane_give_the_composite_of_their_surrogates() {
    // U+1F600: high surrogate d83d, low surrogate de00.
    assert_eq!(utf8_to_ucs2("😀".as_bytes(), 0), ((0xd83d_00u32 + 0xde00) as u16, 4));
    assert_eq!(utf8_to_ucs2("😀".as_bytes(), 0).0, 0x1b00);
    // U+10000: high surrogate d800, low surrogate dc00.
    assert_eq!(utf8_to_ucs2("\u{10000}".as_bytes(), 0), (0xdc00, 4));
    // U+10FFFF: high surrogate dbff, low surrogate dfff.
    assert_eq!(utf8_to_ucs2("\u{10ffff}".as_bytes(), 0), (0xdeff, 4));
    for scalar in [0x1_0000u32, 0x1_0400, 0x2_a6d6, 0x10_ffff] {
        let c = char::from_u32(scalar).unwrap();
        let mut buffer = [0u8; 4];
        let encoded = c.encode_utf8(&mut buffer).as_bytes();
        let high = (scalar - 0x1_0000) / 0x400 + 0xd800;
        let low = (scalar - 0x1_0000) % 0x400 + 0xdc00;
        assert_eq!(utf8_to_ucs2(encoded, 0), (((high << 8) + low) as u16, 4));
    }
}

#[test]
fn bytes_that_start_no_scalar_give_nothing() {
    assert_eq!(utf8_to_ucs2(&[0x80], 0), (0, 0));
    assert_eq!(utf8_to_ucs2(&[0xbf, 0x41], 0), (0, 0));
    assert_eq!(utf8_to_ucs2(&[0xf8, 0x80, 0x80, 0x80], 0), (0, 0));
    assert_eq!(utf8_to_ucs2(&[0xff], 0), (0, 0));
    assert_eq!(utf8_to_ucs2("あ".as_bytes(), 1), (0, 0));
}

#[test]
fn integers_are_read_little_endian() {
    let data = [0x34, 0x12, 0xff, 0xff, 0x00, 0x80, 0x78, 0x56, 0x34, 0x12, 0xfe, 0xff, 0xff, 0xff];
    assert_eq!(unpack_u16(&data, 0), 0x1234);
    assert_eq!(unpack_u16(&data, 2), 0xffff);
    assert_eq!(unpack_i16(&data, 0), 0x1234);
    assert_eq!(unpack_i16(&data, 2), -1);
    assert_eq!(unpack_i16(&data, 4), i16::MIN);
    assert_eq!(unpack_u32(&data, 6), 0x1234_5678);
    assert_eq!(unpack_u32(&data, 10), 0xffff_fffe);
    assert_eq!(unpack_i32(&data, 6), 0x1234_5678);
    assert_eq!(unpack_i32(&data, 10), -2);
    assert_eq!(unpack_i32(&[0, 0, 0, 0x80], 0), i32::MIN);
    assert_eq!(unpack_i32(&[0xff, 0xff, 0xff, 0x7f], 0), i32::MAX);
    for v in [0i32, 1, -1, 340, -1376, i32::MIN, i32::MAX] {
        assert_eq!(unpack_i32(&v.to_le_bytes(), 0), v);
        assert_eq!(unpack_u32(&v.to_le_bytes(), 0), v as u32);
    }
    for v in [0i16, 1, -1, 340, -1376, i16::MIN, i16::MAX] {
        assert_eq!(unpack_i16(&v.to_le_bytes(), 0), v);
        assert_eq!(unpack_u16(&v.to_le_bytes(), 0), v as u16);
    }
}

#[test]
fn strings_end_at_the_first_nul_byte() {
    let data = b"SPACE\0\0KANJI\0x";
    assert_eq!(nul_terminated_len(data, 0, data.len()), 5);
    assert_eq!(nul_terminated_len(data, 2, data.len()), 3);
    assert_eq!(nul_terminated_len(data, 5, data.len()), 0);
    assert_eq!(nul_terminated_len(data, 7, data.len()), 5);
    assert_eq!(nul_terminated_len(data, 13, data.len()), 1);
    assert_eq!(nul_terminated_len(data, 0, 3), 3);
    assert_eq!(nul_terminated_len(data, 14, 14), 0);
}
