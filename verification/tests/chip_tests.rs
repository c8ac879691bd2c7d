use afptool::chip::{chip_family_name, legacy_family_name};
use afptool::{chip_name_to_code, decode_chip_field, encode_chip_field, Error};

#[test]
fn chip_field_rk3588_is_ascii_digits_reversed() {
    // A vendor RK3588 image carries '8' '8' '5' '3' at 0x15..0x19.
    assert_eq!(encode_chip_field("RK3588").unwrap(), [b'8', b'8', b'5', b'3']);
    assert_eq!(encode_chip_field("RK3588S").unwrap(), [b'8', b'8', b'5', b'3']);
}

#[test]
fn chip_field_rk3562_matches_previous_encoding() {
    // Family code 0x32 is also ASCII '2'.
    assert_eq!(encode_chip_field("RK3562").unwrap(), [0x32, b'6', b'5', b'3']);
}

#[test]
fn chip_field_legacy_families_keep_family_code() {
    assert_eq!(encode_chip_field("RK3288").unwrap(), [0x80, b'8', b'2', b'3']);
    assert_eq!(encode_chip_field("RK3066").unwrap(), [0x60, b'6', b'0', b'3']);
    assert_eq!(encode_chip_field("RK29XX").unwrap(), [0x50, 0, 0, 0]);
    assert_eq!(encode_chip_field("PX30").unwrap(), [0x30, 0, 0, 0]);
}

#[test]
fn chip_field_decode() {
    assert_eq!(decode_chip_field(b"8853"), Some("RK3588".to_string()));
    assert_eq!(decode_chip_field(&[0x32, b'6', b'5', b'3']), Some("RK3562".to_string()));
    assert_eq!(decode_chip_field(&[0x30, 0, 0, 0]), None);
    assert_eq!(decode_chip_field(&[0x80, b'8', b'2', b'3']), None);
}

#[test]
fn chip_names_are_matched_without_regard_to_case() {
    assert_eq!(chip_name_to_code("rk3588"), Ok(0x35));
    assert_eq!(chip_name_to_code("Rk3399Pro"), Ok(0x33));
    assert_eq!(chip_name_to_code("px3"), Ok(0x70));
    assert_eq!(encode_chip_field("rk3588s").unwrap(), *b"8853");
}

#[test]
fn every_family_has_its_code() {
    let table: [(&str, u8); 12] = [
        ("RV1109", 0x19),
        ("RV1126", 0x19),
        ("PX30", 0x30),
        ("RK3562", 0x32),
        ("RK3326", 0x36),
        ("RK3568", 0x38),
        ("RK3528", 0x39),
        ("RK3368", 0x41),
        ("RK3308", 0x48),
        ("RV1108", 0x51),
        ("RK3188", 0x70),
        ("RK32", 0x80),
    ];
    for (name, code) in table {
        assert_eq!(chip_name_to_code(name), Ok(code), "{}", name);
    }
}

#[test]
fn unknown_chips_are_refused() {
    assert_eq!(chip_name_to_code("RK9999"), Err(Error::UnsupportedChip("RK9999".to_string())));
    assert_eq!(encode_chip_field("RK35"), Err(Error::UnsupportedChip("RK35".to_string())));
    assert_eq!(chip_name_to_code(""), Err(Error::UnsupportedChip(String::new())));
    assert_eq!(
        chip_name_to_code("rk9").unwrap_err().message(),
        "Unsupported chip family: rk9"
    );
}

#[test]
fn legacy_chip_with_few_digits_keeps_only_family_code() {
    // "RV1108" is a legacy family: the code byte, then its first three digits reversed.
    assert_eq!(encode_chip_field("RV1108").unwrap(), [0x51, b'0', b'1', b'1']);
    // "RK29" has only two digits: family code and zero padding.
    assert_eq!(encode_chip_field("RK29").unwrap(), [0x50, 0, 0, 0]);
}

#[test]
fn modern_chip_field_reads_back_as_its_name() {
    for name in ["RK3566", "RK3588", "RK3399", "RV1126", "RK3528"] {
        let field = encode_chip_field(name).unwrap();
        assert_eq!(decode_chip_field(&field), Some(name.replace("RV", "RK")));
    }
}

#[test]
fn legacy_family_codes_have_display_names() {
    assert_eq!(legacy_family_name(0x80), Some("RK32xx/RK3288"));
    assert_eq!(legacy_family_name(0x30), Some("PX30/RK3326"));
    assert_eq!(legacy_family_name(0x19), Some("RV1109/RV1126"));
    assert_eq!(legacy_family_name(0x42), None);
}

#[test]
fn lowercase_chip_names_read_back_as_upper_case() {
    let field = encode_chip_field("rk3588s").unwrap();
    assert_eq!(decode_chip_field(&field), Some("RK3588".to_string()));
    let field = encode_chip_field("rv1126").unwrap();
    assert_eq!(decode_chip_field(&field), Some("RK1126".to_string()));
    // Legacy families and names without four digits read back as nothing.
    assert_eq!(decode_chip_field(&encode_chip_field("px30").unwrap()), None);
    assert_eq!(decode_chip_field(&encode_chip_field("rk3288").unwrap()), None);
    assert_eq!(decode_chip_field(&encode_chip_field("Rk3399Pro").unwrap()), Some("RK3399".to_string()));
}

#[test]
fn chip_names_beyond_ascii_keep_their_digits() {
    // U+017F (long s) uppercases to 'S': "rk3588ſ" names the RK3588S.
    assert_eq!(chip_name_to_code("rk3588\u{17f}"), Ok(0x35));
    let field = encode_chip_field("rk3588\u{17f}").unwrap();
    assert_eq!(field, *b"8853");
    assert_eq!(decode_chip_field(&field), Some("RK3588".to_string()));
}

#[test]
fn unpacking_names_the_chip_family() {
    assert_eq!(chip_family_name(b"8853"), Some("RK3588".to_string()));
    assert_eq!(chip_family_name(&[0x80, b'8', b'2', b'3']), Some("RK32xx/RK3288".to_string()));
    assert_eq!(chip_family_name(&[0x42, 0, 0, 0]), None);
}
