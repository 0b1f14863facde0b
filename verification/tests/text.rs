use ssp::text;

#[test]
fn decimal_numbers() {
    let mut s = String::new();
    text::push_decimal(&mut s, 0);
    text::push_decimal(&mut s, 90);
    text::push_decimal(&mut s, u64::MAX);
    assert_eq!(s, "09018446744073709551615");
}

#[test]
fn version_text_and_order() {
    let mut s = String::from("v");
    text::push_version(&mut s, &[3, 19, 255]);
    assert_eq!(s, "v3.19.255");
    assert!(text::is_version_before(&[0, 9, 9], &[1, 0, 0]));
    assert!(text::is_version_before(&[1, 2, 3], &[1, 2, 4]));
    assert!(text::is_version_before(&[1, 2, 200], &[1, 3, 0]));
    assert!(!text::is_version_before(&[1, 2, 3], &[1, 2, 3]));
    assert!(!text::is_version_before(&[2, 0, 0], &[1, 255, 255]));
}

#[test]
fn big_endian_numbers() {
    assert_eq!(text::u32_to_be(0x0102_0304), [1, 2, 3, 4]);
    assert_eq!(text::u32_from_be(1, 2, 3, 4), 0x0102_0304);
    for n in [0u32, 255, 256, 65535, 65536, u32::MAX] {
        let b = text::u32_to_be(n);
        assert_eq!(b, n.to_be_bytes());
        assert_eq!(text::u32_from_be(b[0], b[1], b[2], b[3]), n);
    }
}
