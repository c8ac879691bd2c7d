use afptool::{recover_partition_layout, UpdateHeader, UpdatePart};
use afptool::{Error, RKAF_SIGNATURE};

fn part(offset: u32, padded_sectors: u32, byte_count: u32) -> UpdatePart {
    UpdatePart {
        part_offset: offset,
        padded_size: padded_sectors,
        part_byte_count: byte_count,
        ..UpdatePart::default()
    }
}

fn named_part(path: &[u8], offset: u32, padded_sectors: u32, byte_count: u32) -> UpdatePart {
    let mut part = part(offset, padded_sectors, byte_count);
    part.full_path[..path.len()].copy_from_slice(path);
    part
}

#[test]
fn recovers_wrapped_offsets_after_large_partition() {
    let mut header = UpdateHeader::default();
    header.magic.copy_from_slice(RKAF_SIGNATURE);
    header.num_parts = 3;
    header.parts[0] = part(0x00b5_7000, 0x002a_0134, 0x5009_a000);
    header.parts[1] = part(0x50bf_1000, 0x0000_158b, 0x00ac_5800);
    header.parts[2] = part(0x516b_6800, 0x0000_0018, 0x0000_c000);

    let layout = recover_partition_layout(&header, 0x1_516c_2800).unwrap();

    assert_eq!(layout[0], (0x00b5_7000, 0x1_5009_a000));
    assert_eq!(layout[1], (0x1_50bf_1000, 0x00ac_5800));
    assert_eq!(layout[2], (0x1_516b_6800, 0x0000_c000));
}

#[test]
fn preserves_aliases_that_share_a_member_offset() {
    let mut header = UpdateHeader {
        num_parts: 2,
        ..UpdateHeader::default()
    };
    header.parts[0] = named_part(b"shared.img", 0x0000_0800, 1, 4);
    header.parts[1] = named_part(b"shared.img", 0x0000_0800, 1, 4);

    let layout = recover_partition_layout(&header, 0x0000_1000).unwrap();

    assert_eq!(layout, vec![(0x800, 4), (0x800, 4)]);
}

#[test]
fn entries_without_data_are_reported_at_offset_zero() {
    let mut header = UpdateHeader::default();
    header.num_parts = 2;
    header.parts[0] = named_part(b"SELF", 0, 0, 0x1234);
    header.parts[1] = named_part(b"boot.img", 0x800, 2, 0x900);
    let layout = recover_partition_layout(&header, 0x1800).unwrap();
    assert_eq!(layout, vec![(0, 0x1234), (0x800, 0x900)]);
}

#[test]
fn entries_past_the_container_end_are_refused() {
    let mut header = UpdateHeader::default();
    header.num_parts = 1;
    header.parts[0] = named_part(b"boot.img", 0x800, 1, 0x400);
    assert_eq!(recover_partition_layout(&header, 0xbff), Err(Error::PartitionOutsideContainer(0x800, 0x400, 0xbff)));
    assert_eq!(
        recover_partition_layout(&header, 0xbff).unwrap_err().message(),
        "Partition range exceeds container: offset 2048, size 1024, container end 3071"
    );
    assert_eq!(recover_partition_layout(&header, 0xc00), Ok(vec![(0x800, 0x400)]));
}

#[test]
fn distinct_files_at_one_low_offset_are_not_aliases() {
    // Two files whose stored offsets agree: the second is placed 4 GiB on.
    let mut header = UpdateHeader::default();
    header.num_parts = 2;
    header.parts[0] = named_part(b"a.img", 0x800, 0x20_0000, 0);
    header.parts[1] = named_part(b"b.img", 0x800, 1, 0x10);
    let layout = recover_partition_layout(&header, 0x2_0000_0000).unwrap();
    assert_eq!(layout, vec![(0x800, 0x1_0000_0000), (0x1_0000_0800, 0x10)]);
}

#[test]
fn huge_allocations_are_placed_back_to_back() {
    // Two members of 0xffff_ffff sectors each, stored at the same low offset.
    let mut header = UpdateHeader::default();
    header.num_parts = 2;
    header.parts[0] = named_part(b"a.img", 0x800, 0xffff_ffff, 0);
    header.parts[1] = named_part(b"b.img", 0x800, 0xffff_ffff, 0);
    let layout = recover_partition_layout(&header, u64::MAX).unwrap();
    assert_eq!(layout[0], (0x800, 0x7ff_0000_0000));
    assert_eq!(layout[1], (0x800_0000_0800, 0x7ff_0000_0000));
}
