use afptool::{UpdateHeader, RKAF_SIGNATURE};

fn create_mock_rkaf() -> Vec<u8> {
    let mut data = vec![0u8; 2048];
    data[0..4].copy_from_slice(RKAF_SIGNATURE);
    // length 0x800
    data[4] = 0x00;
    data[5] = 0x08;
    data[6] = 0x00;
    data[7] = 0x00;
    // manufacturer after magic, length, model and id
    let manufacturer = b"RK3326";
    let offset = 4 + 4 + 34 + 30;
    data[offset..offset + manufacturer.len()].copy_from_slice(manufacturer);
    // model after magic and length
    let model = b"RK3326";
    let offset = 4 + 4;
    data[offset..offset + model.len()].copy_from_slice(model);
    // no partitions
    let num_parts_offset = 4 + 4 + 34 + 30 + 56 + 4 + 4;
    data[num_parts_offset] = 0;
    data[num_parts_offset + 1] = 0;
    data[num_parts_offset + 2] = 0;
    data[num_parts_offset + 3] = 0;
    data
}

#[test]
fn test_update_header_from_bytes() {
    let mock_rkaf = create_mock_rkaf();
    let header = UpdateHeader::from_bytes(&mock_rkaf);

    assert_eq!(&header.magic, RKAF_SIGNATURE);
    let length = header.length;
    assert_eq!(length, 0x800);

    let manufacturer = b"RK3326\0\0\0\0\0\0\0\0\0\0\0\0\0\0\0\0\0\0\0\0\0\0\0\0\0\0\0\0\0\0\0\0\0\0\0\0\0\0\0\0\0\0\0\0\0\0\0\0\0\0";
    assert_eq!(&header.manufacturer[..], manufacturer);

    let model = b"RK3326\0\0\0\0\0\0\0\0\0\0\0\0\0\0\0\0\0\0\0\0\0\0\0\0\0\0\0\0";
    assert_eq!(&header.model[..], model);

    let num_parts = header.num_parts;
    assert_eq!(num_parts, 0);
}

#[test]
fn test_update_header_to_bytes() {
    let mut header = UpdateHeader::default();
    header.magic.copy_from_slice(RKAF_SIGNATURE);
    header.length = 0x800;
    header.num_parts = 0;

    let manufacturer = b"RK3326";
    header.manufacturer[..manufacturer.len()].copy_from_slice(manufacturer);

    let model = b"RK3326";
    header.model[..model.len()].copy_from_slice(model);

    let bytes = header.to_bytes();
    assert_eq!(&bytes[0..4], RKAF_SIGNATURE);

    assert_eq!(bytes[4], 0x00);
    assert_eq!(bytes[5], 0x08);
    assert_eq!(bytes[6], 0x00);
    assert_eq!(bytes[7], 0x00);

    let num_parts_offset = 4 + 4 + 34 + 30 + 56 + 4 + 4;
    assert_eq!(bytes[num_parts_offset], 0);
    assert_eq!(bytes[num_parts_offset + 1], 0);
    assert_eq!(bytes[num_parts_offset + 2], 0);
    assert_eq!(bytes[num_parts_offset + 3], 0);
}
