use smoljson::text::dec_utf16_single;

#[test]
fn test_u16() {
    for c in (0x10000..0x110000).filter_map(core::char::from_u32) {
        let mut buf = [0, 0];
        c.encode_utf16(&mut buf);
        assert_eq!(dec_utf16_single(buf[0], buf[1]), Some(c));
    }
}

#[test]
fn unpaired_units_are_no_character() {
    assert_eq!(dec_utf16_single(0xdc00, 0xdc00), None);
    assert_eq!(dec_utf16_single(0xd83d, 0x0020), None);
    assert_eq!(dec_utf16_single(0xd83d, 0xd83d), None);
    assert_eq!(dec_utf16_single(0x0041, 0xdc00), None);
    assert_eq!(dec_utf16_single(0xd83d, 0xde0b), Some('\u{1F60B}'));
}
