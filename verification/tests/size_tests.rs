use afptool::recover_true_size;

#[test]
fn recover_true_size_no_wrap() {
    // Small partition: the stored value is already the truth.
    assert_eq!(recover_true_size(0x20, 906), 0x20);
    // Bound smaller than stored (corrupt input): trust the stored value.
    assert_eq!(recover_true_size(100, 50), 100);
}

#[test]
fn recover_true_size_userdata_from_real_firmware() {
    // A 4.5 GiB userdata whose byte count wrapped to exactly 512 MiB.
    assert_eq!(recover_true_size(536_870_912, 4_831_838_208), 4_831_838_208);
    // Same, with sector-padding slack above the true size.
    assert_eq!(recover_true_size(536_870_912, 4_831_840_000), 4_831_838_208);
}

#[test]
fn recover_true_size_rkfw_update_from_real_firmware() {
    // The stored 0xED85D004 of an 8,279,937,028-byte embedded update.
    assert_eq!(recover_true_size(0xED85D004, 8_279_937_028), 8_279_937_028);
}

#[test]
fn recovered_size_is_the_largest_congruent_fit() {
    // Equal bound and stored value.
    assert_eq!(recover_true_size(7, 7), 7);
    // A stored 0 with room for exactly two whole 4 GiB ranges.
    assert_eq!(recover_true_size(0, 1 << 33), 1 << 33);
    // Just short of another range: the stored value stays.
    assert_eq!(recover_true_size(5, (1 << 32) + 4), 5);
    // The largest bound.
    assert_eq!(recover_true_size(1, u64::MAX), u64::MAX - (1 << 32) + 2);
}
