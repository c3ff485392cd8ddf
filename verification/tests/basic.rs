use fat32_nostd::fat32::Fat32;
use fat32_nostd::mock::MockBlockDevice;

#[test]
fn test_mount_empty() {
    let mut dev = MockBlockDevice::new(4);

    // minimal BPB: 512-byte sectors and the boot signature
    dev.sectors[0][11..13].copy_from_slice(&512u16.to_le_bytes());
    dev.sectors[0][510] = 0x55;
    dev.sectors[0][511] = 0xAA;

    let res = Fat32::mount(dev);
    assert!(res.is_ok());
}
