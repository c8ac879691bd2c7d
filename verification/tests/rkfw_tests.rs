use afptool::error::RkfwOption;
use afptool::header::{container_kind, starts_with_rkaf, ContainerKind};
use afptool::rkfw::{
    build_rkfw_header, embedded_update_size, hex_lower, parse_code, parse_rkfw_header,
    parse_version, set_rkfw_layout, ImageDigest, RKFW_HEADER_SIZE,
};
use afptool::{Error, RKFW_SIGNATURE};

/// A reference RKFW header as a vendor tool writes it, with undocumented
/// bytes at 0x36..0x39.
fn reference_header(boot_len: u32, update_len: u32) -> Vec<u8> {
    let mut h = vec![0u8; 0x66];
    h[0..4].copy_from_slice(b"RKFW");
    h[0x04] = 0x66;
    h[6] = 0x01;
    h[8] = 0x01;
    h[9] = 0x08;
    h[0x0d] = 0x02;
    h[0x0e] = 0xea;
    h[0x0f] = 0x07;
    h[0x10] = 4;
    h[0x11] = 29;
    h[0x12] = 23;
    h[0x13] = 4;
    h[0x14] = 41;
    h[0x15..0x19].copy_from_slice(b"8853");
    h[0x19..0x1d].copy_from_slice(&0x66u32.to_le_bytes());
    h[0x1d..0x21].copy_from_slice(&boot_len.to_le_bytes());
    h[0x21..0x25].copy_from_slice(&(0x66 + boot_len).to_le_bytes());
    h[0x25..0x29].copy_from_slice(&update_len.to_le_bytes());
    h[0x2d] = 0x01;
    h[0x36..0x39].copy_from_slice(&[0x48, 0x49, 0x01]);
    h
}

#[test]
fn versions_are_major_minor_build() {
    assert_eq!(parse_version("8.1.0"), Ok((8, 1, 0)));
    assert_eq!(parse_version("255.0.65535"), Ok((255, 0, 65535)));
    assert_eq!(parse_version("+2.+3.+4"), Ok((2, 3, 4)));
    assert_eq!(parse_version("1.2"), Err(Error::VersionFormat));
    assert_eq!(parse_version("1.2.3.4"), Err(Error::VersionFormat));
    assert_eq!(parse_version("256.0.0"), Err(Error::InvalidMajorVersion));
    assert_eq!(parse_version("1.x.0"), Err(Error::InvalidMinorVersion));
    assert_eq!(parse_version("1.1.70000"), Err(Error::InvalidBuildNumber));
    assert_eq!(parse_version("1..0"), Err(Error::InvalidMinorVersion));
    assert_eq!(parse_version("-1.0.0"), Err(Error::InvalidMajorVersion));
}

#[test]
fn code_field_is_hexadecimal_with_optional_prefix() {
    assert_eq!(parse_code("0x02000000"), Ok(0x0200_0000));
    assert_eq!(parse_code("0X1f"), Ok(0x1f));
    assert_eq!(parse_code("ffffffff"), Ok(0xffff_ffff));
    // Every leading "0x" goes, then every leading "0X".
    assert_eq!(parse_code("0x0x12"), Ok(0x12));
    assert_eq!(parse_code("0x0X12"), Ok(0x12));
    assert_eq!(parse_code("zz"), Err(Error::InvalidCodeField("zz".to_string())));
    assert_eq!(parse_code("0x"), Err(Error::InvalidCodeField(String::new())));
    assert_eq!(parse_code("0x123456789"), Err(Error::InvalidCodeField("123456789".to_string())));
    assert_eq!(
        parse_code("0x0Xqq").unwrap_err().message(),
        "Invalid hex value for code field: qq"
    );
}

fn date_bytes(timestamp: i64) -> Result<Vec<u8>, Error> {
    build_rkfw_header(None, "in", Some("RK3588"), Some("1.0.0"), Some(timestamp), Some("0"))
        .map(|h| h[0x0e..0x15].to_vec())
}

#[test]
fn timestamps_become_utc_calendar_fields() {
    assert_eq!(date_bytes(1_731_031_994), Ok(vec![0xe8, 0x07, 11, 8, 2, 13, 14]));
    assert_eq!(date_bytes(0), Ok(vec![0xb2, 0x07, 1, 1, 0, 0, 0]));
    assert_eq!(date_bytes(-1), Ok(vec![0xb1, 0x07, 12, 31, 23, 59, 59]));
    assert_eq!(date_bytes(i64::MAX), Err(Error::InvalidTimestamp));
    // A leap day, and the first day of the proleptic year 0.
    assert_eq!(date_bytes(951_782_400), Ok(vec![0xd0, 0x07, 2, 29, 0, 0, 0]));
    assert_eq!(date_bytes(-719_528 * 86_400), Ok(vec![0, 0, 1, 1, 0, 0, 0]));
}

#[test]
fn build_date_reads_back_as_its_timestamp() {
    for ts in [0i64, 951_782_400, 1_731_031_994, 1_777_503_881] {
        let mut header = build_rkfw_header(None, "in", Some("RK3588"), Some("1.0.0"), Some(ts), Some("0")).unwrap();
        set_rkfw_layout(&mut header, 0, 0).unwrap();
        assert_eq!(parse_rkfw_header(&header).build_timestamp(), Some(ts));
    }
}

#[test]
fn rkfw_pack_writes_rk3588_chip_bytes() {
    let header = build_rkfw_header(None, "in", Some("RK3588"), Some("1.0.0"), Some(1_731_031_994), Some("0x02000000"))
        .unwrap();
    assert_eq!(header.len(), RKFW_HEADER_SIZE);
    assert_eq!(&header[0..4], RKFW_SIGNATURE);
    assert_eq!(header[4], 0x66);
    assert_eq!(&header[6..10], &[0, 0, 0, 1]);
    assert_eq!(&header[0x0a..0x0e], &0x0200_0000u32.to_le_bytes());
    assert_eq!(&header[0x0e..0x15], &[0xe8, 0x07, 11, 8, 2, 13, 14]);
    assert_eq!(&header[0x15..0x19], b"8853");
    assert_eq!(header[0x2d], 1);
}

#[test]
fn rkfw_pack_without_template_requires_flags() {
    let missing_chip = build_rkfw_header(None, "in", None, Some("1.0.0"), Some(1_731_031_994), Some("0x02000000"));
    assert_eq!(missing_chip, Err(Error::MissingOption(RkfwOption::Chip, "in".to_string())));
    assert_eq!(
        missing_chip.unwrap_err().message(),
        "--chip is required because no rkfw-header.bin template was found in in"
    );
    assert_eq!(
        build_rkfw_header(None, "in", None, None, None, None),
        Err(Error::MissingOption(RkfwOption::Version, "in".to_string()))
    );
    assert_eq!(
        build_rkfw_header(None, "in", Some("RK3588"), Some("1.0.0"), None, Some("0x1")),
        Err(Error::MissingOption(RkfwOption::Timestamp, "in".to_string()))
    );
    assert_eq!(
        build_rkfw_header(None, "in", Some("RK3588"), Some("1.0.0"), Some(0), None),
        Err(Error::MissingOption(RkfwOption::Code, "in".to_string()))
    );
    // A template shorter than the header counts as none.
    assert_eq!(
        build_rkfw_header(Some(&[0u8; 10]), "in", None, None, None, None),
        Err(Error::MissingOption(RkfwOption::Version, "in".to_string()))
    );
}

#[test]
fn invalid_options_are_refused_in_order() {
    assert_eq!(
        build_rkfw_header(None, "in", Some("RK9"), Some("1.0"), Some(0), Some("0x1")),
        Err(Error::VersionFormat)
    );
    assert_eq!(
        build_rkfw_header(None, "in", Some("RK9"), Some("1.0.0"), Some(0), Some("xyz")),
        Err(Error::InvalidCodeField("xyz".to_string()))
    );
    assert_eq!(
        build_rkfw_header(None, "in", Some("RK9"), Some("1.0.0"), Some(i64::MIN), Some("0x1")),
        Err(Error::InvalidTimestamp)
    );
    assert_eq!(
        build_rkfw_header(None, "in", Some("RK9"), Some("1.0.0"), Some(0), Some("0x1")),
        Err(Error::UnsupportedChip("RK9".to_string()))
    );
}

#[test]
fn rkfw_roundtrip_is_byte_identical_with_saved_header() {
    let saved = reference_header(16, 32);
    let mut header = build_rkfw_header(Some(&saved), "in", None, None, None, None).unwrap();
    assert_eq!(set_rkfw_layout(&mut header, 16, 32), Ok(0x76));
    assert_eq!(header, saved);
}

#[test]
fn rkfw_pack_cli_flags_override_template() {
    let saved = reference_header(16, 32);
    let header = build_rkfw_header(Some(&saved), "in", Some("RK3566"), Some("2.3.4"), None, None).unwrap();
    assert_eq!(header[9], 2, "major version overridden");
    assert_eq!(header[8], 3, "minor version overridden");
    assert_eq!(&header[6..8], &[4, 0], "build overridden");
    assert_eq!(&header[0x15..0x19], b"6653");
    // What no flag overrides stays as saved.
    assert_eq!(&header[0x0a..0x15], &saved[0x0a..0x15]);
    assert_eq!(&header[0x36..0x39], &[0x48, 0x49, 0x01]);
}

#[test]
fn layout_fields_follow_boot_and_update_sizes() {
    let mut header = vec![0u8; RKFW_HEADER_SIZE];
    assert_eq!(set_rkfw_layout(&mut header, 0x1000, 0x1_2345_6789), Ok(0x1066));
    assert_eq!(&header[0x19..0x1d], &0x66u32.to_le_bytes());
    assert_eq!(&header[0x1d..0x21], &0x1000u32.to_le_bytes());
    assert_eq!(&header[0x21..0x25], &0x1066u32.to_le_bytes());
    assert_eq!(&header[0x25..0x29], &0x2345_6789u32.to_le_bytes());
    let mut header = vec![0u8; RKFW_HEADER_SIZE];
    assert_eq!(set_rkfw_layout(&mut header, 0xffff_ff9a, 0), Err(Error::BootTooLarge(0xffff_ff9a)));
    assert_eq!(Error::BootTooLarge(0xffff_ff9a).message(), "BOOT is too large (4294967194 bytes)");
    assert_eq!(header, vec![0u8; RKFW_HEADER_SIZE]);
    assert_eq!(set_rkfw_layout(&mut header, 0xffff_ff99, 0), Ok(0xffff_ffff));
}

#[test]
fn image_digest_is_lowercase_md5_hex() {
    let d = ImageDigest::new();
    assert_eq!(d.finish_hex(), b"d41d8cd98f00b204e9800998ecf8427e".to_vec());
    let mut d = ImageDigest::new();
    d.consume(b"a");
    d.consume(b"");
    d.consume(b"bc");
    assert_eq!(d.finish_hex(), b"900150983cd24fb0d6963f7d28e17f72".to_vec());
    let data: Vec<u8> = (0..10_000u32).map(|i| (i * 7) as u8).collect();
    let mut d = ImageDigest::new();
    d.consume(&data[..4321]);
    d.consume(&data[4321..]);
    assert_eq!(d.finish_hex(), format!("{:x}", md5::compute(&data)).into_bytes());
    assert_eq!(hex_lower(&[0x00, 0x9f, 0xa0, 0xff]), b"009fa0ff".to_vec());
}

#[test]
fn rkfw_header_fields_are_read_back() {
    let info = parse_rkfw_header(&reference_header(16, 32));
    assert_eq!((info.major, info.minor, info.build), (8, 1, 1));
    assert_eq!(info.code, 0x0200_0000);
    assert_eq!((info.year, info.month, info.day), (2026, 4, 29));
    assert_eq!((info.hour, info.minute, info.second), (23, 4, 41));
    assert_eq!(&info.chip_field, b"8853");
    assert_eq!((info.boot_offset, info.boot_size), (0x66, 16));
    assert_eq!((info.update_offset, info.update_size), (0x76, 32));
    assert_eq!(info.build_timestamp(), Some(1_777_503_881));
    let mut bad = reference_header(16, 32);
    bad[0x10] = 13;
    assert_eq!(parse_rkfw_header(&bad).build_timestamp(), None);
    bad[0x10] = 4;
    bad[0x12] = 24;
    assert_eq!(parse_rkfw_header(&bad).build_timestamp(), None);
}

#[test]
fn embedded_update_ends_before_the_md5_text() {
    let tail = b"0123456789abcdef0123456789ABCDEF";
    // 0x66 header, 16 BOOT bytes, 32 update bytes, 32 MD5 characters.
    assert_eq!(embedded_update_size(32, 0x66 + 16 + 32 + 32, 0x76, Some(tail)), 32);
    // Without an MD5 text the update runs to the end of the file.
    let not_hex = b"0123456789abcdef0123456789abcdeg";
    assert_eq!(embedded_update_size(64, 0x66 + 16 + 64, 0x76, Some(not_hex)), 64);
    assert_eq!(embedded_update_size(4, 0x7a, 0x76, None), 4);
    // A wrapped size field is recovered from the file layout.
    let big: u64 = 0x76 + 8_279_937_028 + 32;
    assert_eq!(embedded_update_size(0xED85_D004, big, 0x76, Some(tail)), 8_279_937_028);
    // A file shorter than its update offset leaves the stored size.
    assert_eq!(embedded_update_size(9, 0x10, 0x76, None), 9);
}

#[test]
fn containers_are_told_apart_by_signature() {
    assert_eq!(container_kind(b"RKAF"), Some(ContainerKind::Rkaf));
    assert_eq!(container_kind(b"RKFW"), Some(ContainerKind::Rkfw));
    assert_eq!(container_kind(b"RKFP"), None);
    assert_eq!(container_kind(&[0, 0, 0, 0]), None);
    assert!(starts_with_rkaf(b"RKAF\x01\x02"));
    assert!(!starts_with_rkaf(b"RKA"));
    assert!(!starts_with_rkaf(b"rkaf"));
}

#[test]
fn unpacking_recovers_the_update_size_that_packing_wrote() {
    for update_size in [32u64, (5 << 30) + 7] {
        let mut header = vec![0u8; RKFW_HEADER_SIZE];
        let update_offset = set_rkfw_layout(&mut header, 16, update_size).unwrap();
        let info = parse_rkfw_header(&header);
        let mut digest = ImageDigest::new();
        digest.consume(&header);
        let tail = digest.finish_hex();
        let file_size = update_offset + update_size + tail.len() as u64;
        let size = embedded_update_size(info.update_size, file_size, info.update_offset, Some(&tail));
        assert_eq!(size, update_size);
    }
}

/// An RKFW image as packing writes it: header, BOOT, update image, and the
/// lowercase MD5 text of all of them.
fn assemble_rkfw(mut header: Vec<u8>, boot: &[u8], update: &[u8]) -> Vec<u8> {
    set_rkfw_layout(&mut header, boot.len() as u64, update.len() as u64).unwrap();
    let mut image = header;
    image.extend_from_slice(boot);
    image.extend_from_slice(update);
    let mut digest = ImageDigest::new();
    digest.consume(&image);
    let hex = digest.finish_hex();
    image.extend_from_slice(&hex);
    image
}

#[test]
fn rkfw_unpacking_then_repacking_gives_the_same_image() {
    let header = build_rkfw_header(None, "in", Some("RK3566"), Some("1.2.3"), Some(1_700_000_000), Some("0x0200")).unwrap();
    let boot: Vec<u8> = (0..100u32).map(|i| i as u8).collect();
    let mut update = b"RKAF".to_vec();
    update.extend((0..300u32).map(|i| (i * 13) as u8));
    let image = assemble_rkfw(header, &boot, &update);

    // Unpack: the saved header, BOOT and the embedded update image.
    let saved = image[..RKFW_HEADER_SIZE].to_vec();
    let info = parse_rkfw_header(&saved);
    let tail = &image[image.len() - 32..];
    let update_size = embedded_update_size(info.update_size, image.len() as u64, info.update_offset, Some(tail));
    let boot_back = &image[info.boot_offset as usize..(info.boot_offset + info.boot_size) as usize];
    let start = info.update_offset as usize;
    let update_back = &image[start..start + update_size as usize];
    assert_eq!(boot_back, &boot[..]);
    assert_eq!(update_back, &update[..]);

    // Repack with no options from what unpacking saved.
    let again = build_rkfw_header(Some(&saved), "out", None, None, None, None).unwrap();
    assert_eq!(assemble_rkfw(again, boot_back, update_back), image);
}
