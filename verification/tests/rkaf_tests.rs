use afptool::crc::{
    is_valid_parm_blob, parameter_image, parm_checksum, parm_crc32, rkcrc32, wrap_parm,
};
use afptool::rkaf::{
    field_text, layout_rkaf, metadata_lookup, parm_payload_range, parse_machine_id,
    parse_package_file, parse_partition_metadata, plan_rkaf_extraction, plan_rkaf_members,
    prepare_rkaf_header, rkaf_container_end, length_field_matches, check_rkaf_magic,
    write_cstr_preserving_tail, PackLayout, PackMember, PackageEntry, PartitionMetadata,
};
use afptool::member_paths::{package_source, resolve_member_paths};
use afptool::error::NumberError;
use afptool::{recover_partition_layout, Error, UpdateHeader, UPDATE_HEADER_SIZE};

fn entry(name: &str, path: &str) -> PackageEntry {
    PackageEntry { name: name.to_string(), path: path.to_string() }
}

fn metadata(name: &str, flash_size: u32, flash_offset: u32) -> PartitionMetadata {
    PartitionMetadata { name: name.to_string(), flash_size, flash_offset }
}

fn cstr(field: &[u8]) -> &[u8] {
    let end = field.iter().position(|&b| b == 0).unwrap();
    &field[..end]
}

#[test]
fn package_file_lists_name_and_path_of_each_entry() {
    let content = b"# vendor comment\nparameter parameter.txt\r\nuboot\tImage/uboot.img\n\n   backup   RESERVED  extra\nlonely\nmisc misc.img";
    let entries = parse_package_file(content).unwrap();
    assert_eq!(
        entries,
        vec![
            entry("parameter", "parameter.txt"),
            entry("uboot", "Image/uboot.img"),
            entry("backup", "RESERVED"),
            entry("misc", "misc.img"),
        ]
    );
}

#[test]
fn package_file_comments_in_legacy_encodings_are_skipped() {
    let content = b"# \xb0\xfc\xce\xc4\xbc\xfe\nboot boot.img\n";
    assert_eq!(parse_package_file(content).unwrap(), vec![entry("boot", "boot.img")]);
}

#[test]
fn package_file_without_entries_is_refused() {
    assert_eq!(parse_package_file(b"# only a comment\n\n"), Err(Error::NoPackageEntries));
    assert_eq!(parse_package_file(b""), Err(Error::NoPackageEntries));
}

#[test]
fn machine_id_comes_from_the_first_machine_id_line() {
    let content = b"FIRMWARE_VER: 8.1\nMACHINE_ID: 007 \nMACHINE_ID: 008\nCMDLINE:x\n";
    assert_eq!(parse_machine_id(content), vec!['0', '0', '7']);
    assert_eq!(parse_machine_id(b"CMDLINE:x\n"), Vec::<char>::new());
    assert_eq!(parse_machine_id(b" MACHINE_ID: 1\n"), Vec::<char>::new());
}

#[test]
fn partition_metadata_lines_give_flash_size_and_offset() {
    let content = b"userdata,userdata.img,0xffffffff,0x00a98000,0x00000800,0x00000001,0x00000400\n\nshort,line\nboot,boot.img,2000,0x4000,0,0,0\n";
    let ms = parse_partition_metadata(content).unwrap();
    assert_eq!(
        ms,
        vec![metadata("userdata", 0xffff_ffff, 0x00a9_8000), metadata("boot", 0x2000, 0x4000)]
    );
    assert_eq!(metadata_lookup(&ms, &"boot".to_string()), Some((0x2000, 0x4000)));
    assert_eq!(metadata_lookup(&ms, &"misc".to_string()), None);
}

#[test]
fn later_metadata_for_a_partition_wins() {
    let content = b"boot,a,0x1,0x2,0,0,0\nboot,b,0x3,0x4,0,0,0\n";
    let ms = parse_partition_metadata(content).unwrap();
    assert_eq!(metadata_lookup(&ms, &"boot".to_string()), Some((3, 4)));
}

#[test]
fn partition_metadata_with_bad_numbers_is_refused() {
    let content = b"boot,boot.img,0xzz,0x0,0,0,0\n";
    assert_eq!(parse_partition_metadata(content), Err(Error::InvalidMetadataNumber(NumberError::InvalidDigit)));
    let content = b"boot,boot.img,0x123456789,0x0,0,0,0\n";
    assert_eq!(parse_partition_metadata(content), Err(Error::InvalidMetadataNumber(NumberError::PosOverflow)));
    let content = b"boot,boot.img,0x1,0x,0,0,0\n";
    let error = parse_partition_metadata(content).unwrap_err();
    assert_eq!(error, Error::InvalidMetadataNumber(NumberError::Empty));
    assert_eq!(error.message(), "cannot parse integer from empty string");
    // Overflow is found before a later invalid digit.
    let content = b"boot,boot.img,0x123456789z,0x0,0,0,0\n";
    assert_eq!(parse_partition_metadata(content), Err(Error::InvalidMetadataNumber(NumberError::PosOverflow)));
    let content = b"boot,boot.img,0x1234z6789,0x0,0,0,0\n";
    assert_eq!(parse_partition_metadata(content).unwrap_err().message(), "invalid digit found in string");
    let content = b"boot,boot.img,0x1,0x0,0,0,0\n\xff\xfe,x,1,2,3,4,5\n";
    assert_eq!(parse_partition_metadata(content), Err(Error::MetadataNotText));
    assert_eq!(Error::MetadataNotText.message(), "stream did not contain valid UTF-8");
}

#[test]
fn fresh_header_gets_magic_version_and_spaced_names() {
    let header = prepare_rkaf_header(None, "in/rkaf-header.bin", "RK3588", "RK3588", &['0', '0', '7']).unwrap();
    assert_eq!(&header.magic, b"RKAF");
    assert_eq!(header.version, 0x0100_0000);
    assert_eq!(header.num_parts, 0);
    assert_eq!(cstr(&header.model), b" RK3588");
    assert_eq!(cstr(&header.manufacturer), b" RK3588");
    assert_eq!(cstr(&header.id), b" 007");
    // A name that already starts with a space is kept as it is.
    let header = prepare_rkaf_header(None, "in/rkaf-header.bin", " RK3562", "Rockchip", &[]).unwrap();
    assert_eq!(cstr(&header.model), b" RK3562");
    assert_eq!(cstr(&header.manufacturer), b" Rockchip");
    assert_eq!(header.id[0], 0);
}

#[test]
fn rkaf_template_preserves_unknown_header_bytes() {
    let mut template = vec![0u8; UPDATE_HEADER_SIZE];
    template[0..4].copy_from_slice(b"RKAF");
    template[8 + 32] = 0x59; // tail of the model field
    template[42..47].copy_from_slice(b" 007\0");
    template[42 + 20] = 0x42; // tail of the id field
    template[132..136].copy_from_slice(&0x0800_0000u32.to_le_bytes());
    let header = prepare_rkaf_header(Some(&template), "in/rkaf-header.bin", "RK3588", "RK3588", &[]).unwrap();
    assert_eq!(header.model[32], 0x59);
    assert_eq!(&header.model[..8], b" RK3588\0");
    assert_eq!(header.id[0], 0);
    assert_eq!(&header.id[1..4], b"007");
    assert_eq!(header.id[20], 0x42);
    assert_eq!(header.version, 0x0800_0000);
}

#[test]
fn unusable_template_is_refused() {
    let mut template = vec![0u8; UPDATE_HEADER_SIZE];
    template[136..140].copy_from_slice(&17u32.to_le_bytes());
    assert_eq!(
        prepare_rkaf_header(Some(&template), "in/rkaf-header.bin", "m", "x", &[]),
        Err(Error::InvalidHeaderTemplate("in/rkaf-header.bin".to_string()))
    );
    assert_eq!(
        Error::InvalidHeaderTemplate("in/rkaf-header.bin".to_string()).message(),
        "Invalid RKAF header template: in/rkaf-header.bin"
    );
    // A saved header shorter than 2048 bytes is ignored.
    let header = prepare_rkaf_header(Some(&template[..100]), "in/rkaf-header.bin", "m", "x", &[]).unwrap();
    assert_eq!(header.version, 0x0100_0000);
}

#[test]
fn cstr_write_keeps_the_tail() {
    let mut field = [0xaau8; 8];
    write_cstr_preserving_tail(&mut field, b"abc");
    assert_eq!(field, [b'a', b'b', b'c', 0, 0xaa, 0xaa, 0xaa, 0xaa]);
    write_cstr_preserving_tail(&mut field, b"0123456789");
    assert_eq!(&field, b"0123456\0");
}

fn sample_entries() -> Vec<PackageEntry> {
    vec![
        entry("parameter", "parameter.txt"),
        entry("uboot", "uboot.img"),
        entry("backup", "RESERVED"),
        entry("misc", "misc.img"),
        entry("uboot_b", "uboot.img"),
        entry("update", "SELF"),
    ]
}

#[test]
fn members_are_planned_once_in_package_order() {
    let entries = sample_entries();
    let ms = vec![metadata("uboot", 0x2000, 0x4000)];
    let requests = plan_rkaf_members(&entries, &ms).unwrap();
    let view: Vec<(String, bool)> = requests.iter().map(|r| (r.path.clone(), r.is_parameter)).collect();
    assert_eq!(
        view,
        vec![
            ("parameter.txt".to_string(), true),
            ("uboot.img".to_string(), false),
            ("misc.img".to_string(), false),
        ]
    );
    assert_eq!(plan_rkaf_members(&entries, &Vec::new()), Err(Error::MissingPartitionMetadata));
}

#[test]
fn rkaf_reserved_entries_are_dropped_from_header() {
    let entries = sample_entries();
    let ms = vec![metadata("uboot", 0x2000, 0x4000), metadata("parameter", 0x0, 0x2000)];
    let mut header = prepare_rkaf_header(None, "in/rkaf-header.bin", "RK3588", "RK3588", &[]).unwrap();
    let sizes = [100u64, 5000, 0];
    let layout = layout_rkaf(&mut header, &entries, &sizes, &ms).unwrap();
    assert_eq!(
        layout.members,
        vec![
            PackMember { size: 100, padded_size: 2048 },
            PackMember { size: 5000, padded_size: 6144 },
            PackMember { size: 0, padded_size: 0 },
        ]
    );
    assert_eq!(layout.total, 10240);
    assert_eq!(header.num_parts, 5);
    assert_eq!(header.length, 10240);
    let names: Vec<&[u8]> = (0..5).map(|i| cstr(&header.parts[i].name)).collect();
    assert_eq!(names, vec![&b"parameter"[..], b"uboot", b"misc", b"uboot_b", b"update"]);
    for i in 0..5 {
        assert_ne!(cstr(&header.parts[i].full_path), b"RESERVED");
    }
    let p = &header.parts[1];
    assert_eq!((p.part_offset, p.part_byte_count, p.padded_size), (4096, 5000, 3));
    assert_eq!((p.flash_size, p.flash_offset), (0x2000, 0x4000));
    let alias = &header.parts[3];
    assert_eq!((alias.part_offset, alias.part_byte_count, alias.flash_size), (4096, 5000, 0));
    let self_entry = &header.parts[4];
    assert_eq!((self_entry.part_offset, self_entry.part_byte_count), (0, 0));
    assert_eq!(header.parts[0].flash_offset, 0x2000);
}

#[test]
fn packed_layout_is_read_back_by_unpacking() {
    let entries = sample_entries();
    let ms = vec![metadata("uboot", 0x2000, 0x4000)];
    let mut header = prepare_rkaf_header(None, "in/rkaf-header.bin", "RK3588", "RK3588", &[]).unwrap();
    let layout = layout_rkaf(&mut header, &entries, &[100, 5000, 0], &ms).unwrap();
    let image = header.encode().unwrap();
    let decoded = UpdateHeader::decode(&image).unwrap();
    let recovered = recover_partition_layout(&decoded, layout.total).unwrap();
    assert_eq!(recovered, vec![(2048, 100), (4096, 5000), (10240, 0), (4096, 5000), (0, 0)]);
}

#[test]
fn rkaf_5gib_member_roundtrips_losslessly() {
    let entries = vec![entry("userdata", "userdata.img"), entry("recovery", "recovery.img")];
    let ms = vec![metadata("userdata", 0, 0)];
    let five_gib: u64 = 5 << 30;
    let mut header = prepare_rkaf_header(None, "in/rkaf-header.bin", "RK3588", "RK3588", &[]).unwrap();
    let layout = layout_rkaf(&mut header, &entries, &[five_gib, 0x1000], &ms).unwrap();
    assert_eq!(layout.total, 2048 + five_gib + 0x1000);
    // The stored fields keep only the low 32 bits; the sector count keeps all.
    assert_eq!(header.parts[0].part_byte_count, 0x4000_0000);
    assert_eq!(header.parts[0].padded_size, 0x28_0000);
    assert_eq!(header.parts[1].part_offset, 0x4000_0800);
    assert_eq!(header.length, 0x4000_1800);
    let recovered = recover_partition_layout(&header, layout.total).unwrap();
    assert_eq!(recovered, vec![(2048, five_gib), (2048 + five_gib, 0x1000)]);
}

#[test]
fn more_than_sixteen_slots_are_refused() {
    let entries: Vec<PackageEntry> = (0..17).map(|i| entry(&format!("p{}", i), &format!("p{}.img", i))).collect();
    let ms = vec![metadata("p0", 0, 0)];
    let requests = plan_rkaf_members(&entries, &ms).unwrap();
    assert_eq!(requests.len(), 17);
    let sizes = vec![1u64; 17];
    let mut header = UpdateHeader::default();
    assert_eq!(layout_rkaf(&mut header, &entries, &sizes, &ms), Err(Error::TooManyPackageEntries));
    assert_eq!(Error::TooManyPackageEntries.message(), "Too many partitions in package-file (maximum is 16)");
    // Reserved entries do not count.
    let mut with_reserved: Vec<PackageEntry> = entries[..16].to_vec();
    with_reserved.push(entry("backup", "RESERVED"));
    let mut header = UpdateHeader::default();
    assert!(layout_rkaf(&mut header, &with_reserved, &sizes, &ms).is_ok());
    assert_eq!(header.num_parts, 16);
}

const PARAMETER: &[u8] = b"CMDLINE:console=ttyFIQ0,1500000\n";

#[test]
fn test_parameter_parm_wrapped_on_pack() {
    let wrapped = wrap_parm(PARAMETER);
    assert_eq!(&wrapped[0..4], b"PARM");
    assert_eq!(&wrapped[4..8], &(PARAMETER.len() as u32).to_le_bytes());
    assert_eq!(&wrapped[8..8 + PARAMETER.len()], PARAMETER);
    assert_eq!(&wrapped[8 + PARAMETER.len()..], &0x2c36_fd8au32.to_le_bytes());
    assert_eq!(wrapped.len(), PARAMETER.len() + 12);
    assert!(is_valid_parm_blob(&wrapped));
    assert_eq!(parameter_image(PARAMETER.to_vec()), wrapped);
}

#[test]
fn prewrapped_parameter_blobs_are_kept_byte_for_byte() {
    let wrapped = wrap_parm(PARAMETER);
    assert_eq!(parameter_image(wrapped.clone()), wrapped);
    // A blob with the legacy checksum is valid too and kept.
    let mut legacy = wrapped.clone();
    let n = legacy.len();
    legacy[n - 4..].copy_from_slice(&parm_crc32(PARAMETER).to_le_bytes());
    assert!(is_valid_parm_blob(&legacy));
    assert_eq!(parameter_image(legacy.clone()), legacy);
    // A blob with a wrong checksum is wrapped again.
    let mut broken = wrapped.clone();
    broken[n - 1] ^= 1;
    assert!(!is_valid_parm_blob(&broken));
    assert_eq!(parameter_image(broken.clone()).len(), broken.len() + 12);
    // A wrong length field makes it no blob.
    let mut wrong_len = wrapped.clone();
    wrong_len[4] += 1;
    assert!(!is_valid_parm_blob(&wrong_len));
    assert!(!is_valid_parm_blob(b"PARM\0\0\0"));
}

#[test]
fn checksums_have_their_known_values() {
    assert_eq!(rkcrc32(0, b"123456789"), 0x889a_9615);
    assert_eq!(parm_crc32(b"123456789"), 0x89a1_897f);
    assert_eq!(parm_checksum(PARAMETER), 0x2c36_fd8a);
    assert_eq!(parm_crc32(PARAMETER), 0xc89c_2297);
    assert_eq!(rkcrc32(0, b""), 0);
    assert_eq!(rkcrc32(0x1234, b""), 0x1234);
}

#[test]
fn rockchip_crc_can_be_computed_in_pieces() {
    let data: Vec<u8> = (0..=255u8).cycle().take(5000).collect();
    let whole = rkcrc32(0, &data);
    let streamed = rkcrc32(rkcrc32(rkcrc32(0, &data[..7]), &data[7..4096]), &data[4096..]);
    assert_eq!(whole, streamed);
}

#[test]
fn test_parm_header_stripped_on_extract() {
    let wrapped = wrap_parm(PARAMETER);
    let head: [u8; 8] = wrapped[..8].try_into().unwrap();
    let (offset, len) = parm_payload_range(2048, wrapped.len() as u64, &head);
    assert_eq!((offset, len), (2056, PARAMETER.len() as u64));
    let image_start = 2048usize;
    let mut image = vec![0u8; image_start];
    image.extend_from_slice(&wrapped);
    assert_eq!(&image[offset as usize..(offset + len) as usize], PARAMETER);
}

#[test]
fn rkaf_container_checks() {
    let mut header = UpdateHeader::default();
    assert_eq!(check_rkaf_magic(&header), Err(Error::InvalidMagic));
    header.magic = *b"RKAF";
    assert_eq!(check_rkaf_magic(&header), Ok(()));
    assert_eq!(rkaf_container_end(10244), 10240);
    assert_eq!(rkaf_container_end(3), 0);
    header.length = 0x800;
    assert!(length_field_matches(&header, 0x1_0000_0800));
    assert!(!length_field_matches(&header, 0x801));
}

#[test]
fn field_text_stops_at_the_first_nul() {
    assert_eq!(field_text(b"abc\0def"), Some("abc".to_string()));
    assert_eq!(field_text(b"\0"), Some(String::new()));
    assert_eq!(field_text(b"abc"), None);
    assert_eq!(field_text(b"a\xffb\0"), Some("a\u{fffd}b".to_string()));
}

#[test]
fn extraction_plan_saves_metadata_and_skips_special_entries() {
    let mut header = UpdateHeader::default();
    header.magic = *b"RKAF";
    header.num_parts = 4;
    let slots: [(&[u8], &[u8], u32, u32, u32, u32, u32); 4] = [
        (b"parameter", b"parameter.txt", 0, 0x2000, 0x800, 1, 44),
        (b"update", b"SELF", 0, 0, 0, 0, 0),
        (b"backup", b"RESERVED", 0, 0, 0, 0, 0),
        (b"boot", b"Image/boot.img", 0x10000, 0x4000, 0x1000, 2, 0x900),
    ];
    for (i, (name, path, fs, fo, po, ps, bc)) in slots.iter().enumerate() {
        let p = &mut header.parts[i];
        p.name[..name.len()].copy_from_slice(name);
        p.full_path[..path.len()].copy_from_slice(path);
        p.flash_size = *fs;
        p.flash_offset = *fo;
        p.part_offset = *po;
        p.padded_size = *ps;
        p.part_byte_count = *bc;
    }
    let layout = recover_partition_layout(&header, 0x2000).unwrap();
    let plan = plan_rkaf_extraction(&header, &layout);
    assert_eq!(plan.len(), 4);
    let first = plan[0].as_ref().unwrap();
    assert_eq!(
        first.metadata_line,
        b"parameter,parameter.txt,0x00000000,0x00002000,0x00000800,0x00000001,0x0000002c\n".to_vec()
    );
    assert!(first.extract && first.strip_parm);
    assert_eq!((first.offset, first.len), (0x800, 44));
    let self_entry = plan[1].as_ref().unwrap();
    assert!(!self_entry.extract);
    assert!(!plan[2].as_ref().unwrap().extract);
    let boot = plan[3].as_ref().unwrap();
    assert_eq!(boot.path, "Image/boot.img");
    assert!(boot.extract && !boot.strip_parm);
    assert_eq!((boot.offset, boot.len), (0x1000, 0x900));
}

#[test]
fn entries_whose_path_field_has_no_nul_are_skipped() {
    let mut header = UpdateHeader::default();
    header.num_parts = 1;
    header.parts[0].full_path = [b'x'; 60];
    let plan = plan_rkaf_extraction(&header, &vec![(0, 0)]);
    assert_eq!(plan.len(), 1);
    assert!(plan[0].is_none());
}

#[test]
fn repacking_keeps_the_member_paths_of_the_saved_header() {
    let mut template = UpdateHeader::default();
    template.magic = *b"RKAF";
    template.num_parts = 3;
    let slots: [(&[u8], &[u8]); 3] = [
        (b"parameter", b"parameter.txt"),
        (b"boot", b"Image/boot.img"),
        (b"backup", b"RESERVED"),
    ];
    for (i, (name, path)) in slots.iter().enumerate() {
        template.parts[i].name[..name.len()].copy_from_slice(name);
        template.parts[i].full_path[..path.len()].copy_from_slice(path);
    }
    // An unlisted slot is not consulted.
    template.parts[3].name[..4].copy_from_slice(b"misc");
    template.parts[3].full_path[..13].copy_from_slice(b"Image/misc.im");
    let bytes = template.encode().unwrap();
    let header = prepare_rkaf_header(Some(&bytes), "in/rkaf-header.bin", "RK3588", "RK3588", &[]).unwrap();

    let entries = vec![
        entry("parameter", "parameter.txt"),
        entry("boot", "boot.img"),
        entry("backup", "RESERVED"),
        entry("misc", "misc.img"),
    ];
    let resolved = resolve_member_paths(&header, &entries);
    assert_eq!(
        resolved,
        vec![
            entry("parameter", "parameter.txt"),
            entry("boot", "Image/boot.img"),
            entry("backup", "RESERVED"),
            entry("misc", "misc.img"),
        ]
    );
    assert_eq!(package_source(&entries, &resolved, &"Image/boot.img".to_string()), Some("boot.img".to_string()));
    assert_eq!(package_source(&entries, &resolved, &"misc.img".to_string()), Some("misc.img".to_string()));
    assert_eq!(package_source(&entries, &resolved, &"boot.img".to_string()), None);

    // Without a saved header the package-file paths stand.
    let fresh = prepare_rkaf_header(None, "in/rkaf-header.bin", "RK3588", "RK3588", &[]).unwrap();
    assert_eq!(resolve_member_paths(&fresh, &entries), entries);
}

#[test]
fn repacking_from_the_saved_header_reproduces_it() {
    let entries = sample_entries();
    let ms = vec![metadata("uboot", 0x2000, 0x4000)];
    let sizes = [100u64, 5000, 0];
    // A vendor header with bytes in the tails of its string fields.
    let mut vendor = UpdateHeader::default();
    vendor.version = 0x0800_0000;
    vendor.model[30] = 0x48;
    vendor.parts[1].full_path[59] = 0x48;
    vendor.parts[7].name[3] = 0x11;
    vendor.reserved[100] = 0x5a;
    let vendor_bytes = vendor.encode().unwrap();
    for template in [None, Some(&vendor_bytes[..])] {
        let mut first = prepare_rkaf_header(template, "in/rkaf-header.bin", "RK3588", "Vendor", &['0', '7']).unwrap();
        layout_rkaf(&mut first, &entries, &sizes, &ms).unwrap();
        let saved = first.encode().unwrap();
        let mut again = prepare_rkaf_header(Some(&saved), "in/rkaf-header.bin", "RK3588", "Vendor", &['0', '7']).unwrap();
        layout_rkaf(&mut again, &entries, &sizes, &ms).unwrap();
        assert_eq!(again.encode().unwrap(), saved);
    }
}

#[test]
fn written_strings_read_back_up_to_the_first_nul() {
    let mut field = [0x41u8; 12];
    write_cstr_preserving_tail(&mut field, b"boot");
    assert_eq!(field_text(&field), Some("boot".to_string()));
    write_cstr_preserving_tail(&mut field, b"a-very-long-name");
    assert_eq!(field_text(&field), Some("a-very-long".to_string()));
}

#[test]
fn rkaf_template_id_cleared_when_machine_id_removed() {
    let first = prepare_rkaf_header(None, "in/rkaf-header.bin", "RK3588", "RK3588", &['0', '0', '7']).unwrap();
    assert_eq!(&first.id[..5], b" 007\0");
    let saved = first.encode().unwrap();
    let again = prepare_rkaf_header(Some(&saved), "in/rkaf-header.bin", "RK3588", "RK3588", &[]).unwrap();
    assert_eq!(again.id[0], 0, "logical id must be cleared when parameter.txt has no MACHINE_ID");
    assert_eq!(&again.id[1..5], b"007\0");
}

#[test]
fn rkaf_padded_size_computed_from_actual_file_not_stale_metadata() {
    let content = b"userdata,userdata.img,0xffffffff,0x00a98000,0x00000800,0x00000001,0x00000400\n";
    let ms = parse_partition_metadata(content).unwrap();
    let entries = parse_package_file(b"userdata userdata.img\n").unwrap();
    let mut header = prepare_rkaf_header(None, "in/rkaf-header.bin", "RK3588", "RK3588", &[]).unwrap();
    layout_rkaf(&mut header, &entries, &[5000], &ms).unwrap();
    let encoded = header.encode().unwrap();
    let padded = u32::from_le_bytes(encoded[140 + 104..140 + 108].try_into().unwrap());
    assert_eq!(padded, 3, "padded_size must reflect the actual file (3 sectors), not stale metadata");
    assert_eq!(header.parts[0].flash_size, 0xffff_ffff);
    assert_eq!(header.parts[0].flash_offset, 0x00a9_8000);
}

#[test]
fn test_parameter_roundtrip() {
    // Packing wraps the bare file; unpacking extracts the content again;
    // repacking that content gives the same blob.
    let wrapped = parameter_image(PARAMETER.to_vec());
    let head: [u8; 8] = wrapped[..8].try_into().unwrap();
    let (offset, len) = parm_payload_range(2048, wrapped.len() as u64, &head);
    let mut image = vec![0u8; 2048];
    image.extend_from_slice(&wrapped);
    let extracted = image[offset as usize..(offset + len) as usize].to_vec();
    assert_eq!(extracted, PARAMETER);
    assert_eq!(parameter_image(extracted), wrapped);
}

/// An RKAF image as packing writes it: the encoded header, each member
/// padded with zeros to whole sectors, and the little-endian RockChip CRC
/// of everything before it.
fn assemble_rkaf(header: &UpdateHeader, datas: &[Vec<u8>], layout: &PackLayout) -> Vec<u8> {
    let mut image = header.encode().unwrap().to_vec();
    for (data, member) in datas.iter().zip(layout.members.iter()) {
        assert_eq!(data.len() as u64, member.size);
        image.extend_from_slice(data);
        image.resize(image.len() + (member.padded_size - member.size) as usize, 0);
    }
    let crc = rkcrc32(0, &image);
    image.extend_from_slice(&crc.to_le_bytes());
    image
}

/// What unpacking writes for each extracted member: its path and bytes.
fn unpack_members(image: &[u8]) -> Vec<(String, Vec<u8>)> {
    let header = UpdateHeader::decode(&image[..UPDATE_HEADER_SIZE]).unwrap();
    check_rkaf_magic(&header).unwrap();
    let end = rkaf_container_end(image.len() as u64);
    assert!(length_field_matches(&header, end));
    let places = recover_partition_layout(&header, end).unwrap();
    let mut out = Vec::new();
    for m in plan_rkaf_extraction(&header, &places).into_iter().flatten() {
        if !m.extract {
            continue;
        }
        let (offset, len) = if m.strip_parm {
            let at = m.offset as usize;
            let head: [u8; 8] = image[at..at + 8].try_into().unwrap();
            parm_payload_range(m.offset, m.len, &head)
        } else {
            (m.offset, m.len)
        };
        out.push((m.path.clone(), image[offset as usize..(offset + len) as usize].to_vec()));
    }
    out
}

#[test]
fn unpacking_extracts_the_packed_member_bytes() {
    let entries = sample_entries();
    let ms = vec![metadata("uboot", 0x2000, 0x4000)];
    let requests = plan_rkaf_members(&entries, &ms).unwrap();
    let uboot: Vec<u8> = (0..5000u32).map(|i| (i * 31 % 251) as u8 + 1).collect();
    let datas = vec![parameter_image(PARAMETER.to_vec()), uboot.clone(), Vec::new()];
    assert_eq!(requests.len(), datas.len());
    let sizes: Vec<u64> = datas.iter().map(|d| d.len() as u64).collect();
    let mut header = prepare_rkaf_header(None, "in/rkaf-header.bin", "RK3588", "RK3588", &[]).unwrap();
    let layout = layout_rkaf(&mut header, &entries, &sizes, &ms).unwrap();
    let image = assemble_rkaf(&header, &datas, &layout);
    assert_eq!(image.len() as u64, layout.total + 4);
    assert_eq!(
        unpack_members(&image),
        vec![
            ("parameter.txt".to_string(), PARAMETER.to_vec()),
            ("uboot.img".to_string(), uboot.clone()),
            ("misc.img".to_string(), Vec::new()),
            ("uboot.img".to_string(), uboot),
        ]
    );
}

#[test]
fn unpacking_then_repacking_gives_the_same_image() {
    let entries = parse_package_file(b"parameter parameter.txt\nboot Image/boot.img\nbackup RESERVED\n").unwrap();
    let ms = parse_partition_metadata(b"boot,Image/boot.img,0x00010000,0x00002000,0,0,0\n").unwrap();
    let boot: Vec<u8> = (0..3000u32).map(|i| (i % 7) as u8).collect();
    let datas = vec![parameter_image(PARAMETER.to_vec()), boot];
    let sizes: Vec<u64> = datas.iter().map(|d| d.len() as u64).collect();
    let mut header = prepare_rkaf_header(None, "in/rkaf-header.bin", "RK3588", "RK3588", &[]).unwrap();
    let layout = layout_rkaf(&mut header, &entries, &sizes, &ms).unwrap();
    let image = assemble_rkaf(&header, &datas, &layout);

    // Unpack: the saved header and the extracted files.
    let saved = image[..UPDATE_HEADER_SIZE].to_vec();
    let files = unpack_members(&image);
    assert_eq!(files[0], ("parameter.txt".to_string(), PARAMETER.to_vec()));
    assert_eq!(files[1].0, "Image/boot.img");

    // Repack from the saved header and the extracted files.
    let mut again = prepare_rkaf_header(Some(&saved), "out/rkaf-header.bin", "RK3588", "RK3588", &[]).unwrap();
    let resolved = resolve_member_paths(&again, &entries);
    let requests = plan_rkaf_members(&resolved, &ms).unwrap();
    let redone: Vec<Vec<u8>> = requests
        .iter()
        .map(|r| {
            let (_, bytes) = files.iter().find(|(p, _)| *p == r.path).unwrap();
            if r.is_parameter { parameter_image(bytes.clone()) } else { bytes.clone() }
        })
        .collect();
    let sizes: Vec<u64> = redone.iter().map(|d| d.len() as u64).collect();
    let layout = layout_rkaf(&mut again, &resolved, &sizes, &ms).unwrap();
    assert_eq!(assemble_rkaf(&again, &redone, &layout), image);
}

#[test]
fn repacking_keeps_template_tails_under_new_inputs() {
    let mut vendor = UpdateHeader::default();
    vendor.magic = *b"RKAF";
    vendor.version = 0x0800_0000;
    vendor.model[29] = 0x48;
    vendor.model[30] = 0x01;
    vendor.parts[1].full_path[58] = 0x48;
    vendor.parts[9].name[5] = 0x77;
    vendor.reserved[7] = 0x33;
    let template = vendor.encode().unwrap();
    let entries = parse_package_file(b"parameter parameter.txt\nuserdata userdata.img\n").unwrap();
    let ms = vec![metadata("userdata", 0, 0)];
    let mut header = prepare_rkaf_header(Some(&template), "in/rkaf-header.bin", "RK3588", "Maker", &['9']).unwrap();
    layout_rkaf(&mut header, &entries, &[40, 7000], &ms).unwrap();
    let out = header.encode().unwrap();
    assert_eq!(out[0x25], 0x48);
    assert_eq!(out[0x26], 0x01);
    assert_eq!(out[342], 0x48);
    assert_eq!(&out[8..16], b" RK3588\0");
    assert_eq!(&out[252..261], b"userdata\0");
    assert_eq!(&out[132..136], &0x0800_0000u32.to_le_bytes());
    let decoded = UpdateHeader::decode(&out).unwrap();
    assert_eq!(decoded.num_parts, 2);
    assert_eq!(decoded.parts[9].name[5], 0x77);
    assert_eq!(decoded.reserved[7], 0x33);
}

#[test]
fn any_unicode_white_space_separates_package_file_fields() {
    let content = "boot\u{3000}boot.img\nmisc\u{a0}misc.img\n\u{2003}rootfs\u{85}rootfs.img\u{2028}\n".as_bytes();
    let entries = parse_package_file(content).unwrap();
    assert_eq!(
        entries,
        vec![entry("boot", "boot.img"), entry("misc", "misc.img"), entry("rootfs", "rootfs.img")]
    );
}

#[test]
fn comment_lines_in_any_encoding_list_nothing() {
    // GBK text after '#', and a comment opened after ideographic space.
    let content = b"#\xb7\xd6\xc7\xf8 \xff\xfe\n\xe3\x80\x80# \xc4\xda\xba\xcb boot boot.img\nmisc misc.img\n";
    assert_eq!(parse_package_file(content).unwrap(), vec![entry("misc", "misc.img")]);
}

#[test]
fn layout_refuses_missing_sizes_and_oversized_images() {
    let entries = sample_entries();
    let ms = vec![metadata("uboot", 0x2000, 0x4000)];
    let fresh = prepare_rkaf_header(None, "in/rkaf-header.bin", "RK3588", "RK3588", &[]).unwrap();
    let mut header = fresh.clone();
    assert_eq!(layout_rkaf(&mut header, &entries, &[100, 5000], &ms), Err(Error::MissingMemberSizes(2, 3)));
    assert_eq!(header, fresh);
    assert_eq!(Error::MissingMemberSizes(2, 3).message(), "sizes given for 2 members, 3 needed");
    assert_eq!(
        layout_rkaf(&mut header, &entries, &[100, u64::MAX - 4096, 0], &ms),
        Err(Error::ImageTooLarge)
    );
    assert_eq!(header, fresh);
    assert_eq!(Error::ImageTooLarge.message(), "image would exceed the largest representable size");
    // The largest image that still fits is laid out.
    let last = u64::MAX - 2047 - 2048 - 2048;
    let layout = layout_rkaf(&mut header, &entries, &[100, 0, last], &ms).unwrap();
    assert_eq!(layout.total, u64::MAX - 2047);
}
