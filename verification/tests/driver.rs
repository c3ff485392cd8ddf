use fat32_nostd::device::{BlockDevice, DeviceError};
use fat32_nostd::fat32::dirent::{decode_dir_entry, ShortDirEntry};
use fat32_nostd::fat32::table::{next_cluster, EOF};
use fat32_nostd::fat32::{Fat32, FsError};
use fat32_nostd::mock::MockBlockDevice;
use fat32_nostd::version;

fn blank_entry() -> ShortDirEntry {
    ShortDirEntry {
        name: [0u8; 11],
        attr: 0,
        nt_res: 0,
        crt_time_tenth: 0,
        crt_time: 0,
        crt_date: 0,
        lst_acc_date: 0,
        fst_clus_hi: 0,
        wrt_time: 0,
        wrt_date: 0,
        fst_clus_lo: 0,
        file_size: 0,
    }
}

/// A 16-sector image: 512-byte sectors, 1 sector per cluster, 1 reserved
/// sector, 1 FAT of 1 sector, root directory at cluster 2.  The data region
/// begins at sector 2, so cluster `n` lives in sector `n`.
fn base_image() -> MockBlockDevice {
    let mut dev = MockBlockDevice::new(16);
    let s = &mut dev.sectors[0];
    s[11..13].copy_from_slice(&512u16.to_le_bytes());
    s[13] = 1;
    s[14..16].copy_from_slice(&1u16.to_le_bytes());
    s[16] = 1;
    s[36..40].copy_from_slice(&1u32.to_le_bytes());
    s[44..48].copy_from_slice(&2u32.to_le_bytes());
    s[510] = 0x55;
    s[511] = 0xAA;
    dev
}

fn set_fat_entry(dev: &mut MockBlockDevice, cluster: usize, value: u32) {
    let off = cluster * 4;
    dev.sectors[1][off..off + 4].copy_from_slice(&value.to_le_bytes());
}

/// Write a directory record into `sector` at record index `slot`.
fn put_dir_record(
    dev: &mut MockBlockDevice,
    sector: usize,
    slot: usize,
    name: &[u8; 11],
    attr: u8,
    first_cluster: u32,
    file_size: u32,
) {
    let off = slot * 32;
    let s = &mut dev.sectors[sector];
    s[off..off + 11].copy_from_slice(name);
    s[off + 11] = attr;
    s[off + 20..off + 22].copy_from_slice(&((first_cluster >> 16) as u16).to_le_bytes());
    s[off + 26..off + 28].copy_from_slice(&(first_cluster as u16).to_le_bytes());
    s[off + 28..off + 32].copy_from_slice(&file_size.to_le_bytes());
}

/// The image of the end-to-end scenarios: one root entry `FILE    TXT`
/// whose data, `Hello FAT32`, sits in cluster 3.
fn file_image() -> MockBlockDevice {
    let mut dev = base_image();
    set_fat_entry(&mut dev, 2, EOF);
    set_fat_entry(&mut dev, 3, EOF);
    put_dir_record(&mut dev, 2, 0, b"FILE    TXT", 0x20, 3, 11);
    dev.sectors[3][..11].copy_from_slice(b"Hello FAT32");
    dev
}

#[test]
fn test_version() {
    assert_eq!(version(), "0.0.1");
}

#[test]
fn test_mount_rejects_bad_signature() {
    let mut dev = MockBlockDevice::new(4);
    dev.sectors[0][11..13].copy_from_slice(&512u16.to_le_bytes());
    dev.sectors[0][510] = 0x55;
    dev.sectors[0][511] = 0xAB;
    assert!(matches!(Fat32::mount(dev), Err(FsError::BadSig)));

    let mut dev = MockBlockDevice::new(4);
    dev.sectors[0][11..13].copy_from_slice(&512u16.to_le_bytes());
    assert!(matches!(Fat32::mount(dev), Err(FsError::BadSig)));
}

#[test]
fn test_mount_rejects_unsupported_sector_size() {
    let mut dev = MockBlockDevice::new(4);
    dev.sectors[0][11..13].copy_from_slice(&1024u16.to_le_bytes());
    dev.sectors[0][510] = 0x55;
    dev.sectors[0][511] = 0xAA;
    assert!(matches!(Fat32::mount(dev), Err(FsError::Unsupported)));
}

#[test]
fn test_mount_propagates_device_failure() {
    let dev = MockBlockDevice::new(0);
    assert!(matches!(Fat32::mount(dev), Err(FsError::Io)));
}

#[test]
fn test_first_sector_of_cluster_formula() {
    let mut fs = Fat32::mount(base_image()).unwrap();
    // first_data_lba = 1 reserved + 1 fat * 1 sector = 2
    assert_eq!(fs.first_sector_of_cluster(2), 2);
    assert_eq!(fs.first_sector_of_cluster(3), 3);
    assert_eq!(fs.first_sector_of_cluster(100), 100);
    // with 4 sectors per cluster the step is 4
    let mut dev = base_image();
    dev.sectors[0][13] = 4;
    fs = Fat32::mount(dev).unwrap();
    assert_eq!(fs.first_sector_of_cluster(2), 2);
    assert_eq!(fs.first_sector_of_cluster(5), 2 + 3 * 4);
}

#[test]
fn test_next_cluster_masks_reserved_bits() {
    let mut dev = base_image();
    set_fat_entry(&mut dev, 2, 0xF000_0003);
    set_fat_entry(&mut dev, 3, 0xFFFF_FFFF);
    set_fat_entry(&mut dev, 4, 0x0000_0007);
    let mut fs = Fat32::mount(dev).unwrap();
    let mut tmp = vec![0u8; 512];
    assert_eq!(fs.next_cluster(2, &mut tmp), Ok(0x0000_0003));
    assert_eq!(fs.next_cluster(3, &mut tmp), Ok(0x0FFF_FFFF));
    assert_eq!(fs.next_cluster(4, &mut tmp), Ok(0x0000_0007));
}

#[test]
fn test_read_cluster_concatenates_sectors() {
    let mut dev = base_image();
    dev.sectors[0][13] = 2;  // 2 sectors per cluster: cluster 2 -> sectors 2, 3
    dev.sectors[2] = vec![0xAB; 512];
    dev.sectors[3] = vec![0xCD; 512];
    let mut fs = Fat32::mount(dev).unwrap();
    let mut buf = vec![0u8; 1024];
    fs.read_cluster(2, &mut buf).unwrap();
    assert!(buf[..512].iter().all(|b| *b == 0xAB));
    assert!(buf[512..].iter().all(|b| *b == 0xCD));
}

#[test]
fn test_read_cluster_short_buffer_is_parse_error() {
    let mut fs = Fat32::mount(base_image()).unwrap();
    let mut buf = vec![0u8; 100];
    assert_eq!(fs.read_cluster(2, &mut buf), Err(FsError::Parse));
}

#[test]
fn test_read_cluster_out_of_range_is_io_error() {
    let mut fs = Fat32::mount(base_image()).unwrap();
    let mut buf = vec![0u8; 512];
    assert_eq!(fs.read_cluster(1, &mut buf), Err(FsError::Io));
    assert_eq!(fs.read_cluster(500, &mut buf), Err(FsError::Io));
}

#[test]
fn test_dir_scan_is_idempotent_and_order_preserving() {
    let mut dev = file_image();
    put_dir_record(&mut dev, 2, 1, b"SECOND  BIN", 0x20, 4, 7);
    let mut fs = Fat32::mount(dev).unwrap();
    let mut buf = vec![0u8; 512];
    let mut out1 = vec![blank_entry(); 8];
    let mut out2 = vec![blank_entry(); 8];
    let n1 = fs.read_dir_once(2, &mut buf, &mut out1).unwrap();
    let n2 = fs.read_dir_once(2, &mut buf, &mut out2).unwrap();
    assert_eq!(n1, 2);
    assert_eq!(n1, n2);
    assert_eq!(out1[..n1], out2[..n2]);
    assert_eq!(&out1[0].name, b"FILE    TXT");
    assert_eq!(&out1[1].name, b"SECOND  BIN");
}

#[test]
fn test_unused_marker_ends_listing() {
    let mut dev = file_image();
    // slot 1 stays all zero: unused, the end of the directory
    put_dir_record(&mut dev, 2, 2, b"AFTER   TXT", 0x20, 5, 3);
    let mut fs = Fat32::mount(dev).unwrap();
    let mut buf = vec![0u8; 512];
    let mut out = vec![blank_entry(); 8];
    let n = fs.read_root_dir(&mut buf, &mut out).unwrap();
    assert_eq!(n, 1);
    assert_eq!(&out[0].name, b"FILE    TXT");
}

#[test]
fn test_deleted_and_lfn_records_are_skipped_not_terminating() {
    let mut dev = base_image();
    set_fat_entry(&mut dev, 2, EOF);
    let mut deleted = *b"GONE    TXT";
    deleted[0] = 0xE5;
    put_dir_record(&mut dev, 2, 0, &deleted, 0x20, 4, 9);
    put_dir_record(&mut dev, 2, 1, b"LONGNAMEBIT", 0x0F, 0, 0);
    put_dir_record(&mut dev, 2, 2, b"KEPT    TXT", 0x20, 5, 4);
    let mut fs = Fat32::mount(dev).unwrap();
    let mut buf = vec![0u8; 512];
    let mut out = vec![blank_entry(); 8];
    let n = fs.read_root_dir(&mut buf, &mut out).unwrap();
    assert_eq!(n, 1);
    assert_eq!(&out[0].name, b"KEPT    TXT");
}

#[test]
fn test_short_name_strips_only_trailing_spaces() {
    let mut e = blank_entry();
    e.name = *b"FILE    TXT";
    let (name, ext) = e.short_name();
    assert_eq!(name, &b"FILE"[..]);
    assert_eq!(ext, &b"TXT"[..]);

    e.name = *b"A B     C  ";
    let (name, ext) = e.short_name();
    assert_eq!(name, &b"A B"[..]);
    assert_eq!(ext, &b"C"[..]);

    e.name = *b"NOEXT      ";
    let (name, ext) = e.short_name();
    assert_eq!(name, &b"NOEXT"[..]);
    assert_eq!(ext, &b""[..]);
}

#[test]
fn test_decode_dir_entry_fields() {
    let mut bytes = vec![0u8; 64];
    bytes[32..43].copy_from_slice(b"NAME    EXT");
    bytes[43] = 0x20;  // attr
    bytes[52] = 0x01;  // first cluster high = 1
    bytes[58] = 0x02;  // first cluster low = 2
    bytes[60..64].copy_from_slice(&0x0102_0304u32.to_le_bytes());
    let e = decode_dir_entry(&bytes, 32);
    assert_eq!(&e.name, b"NAME    EXT");
    assert_eq!(e.attr, 0x20);
    assert_eq!(e.fst_clus_hi, 1);
    assert_eq!(e.fst_clus_lo, 2);
    assert_eq!(e.first_cluster(), 0x0001_0002);
    assert_eq!(e.file_size, 0x0102_0304);
    assert!(!e.is_unused());
    assert!(!e.is_deleted());
    assert!(!e.is_lfn());
}

#[test]
fn test_boot_sector_fields_decode_little_endian() {
    let dev = base_image();
    let fs = Fat32::mount(dev).unwrap();
    assert_eq!(fs.bpb.common.bytes_per_sector, 512);
    assert_eq!(fs.bpb.common.sectors_per_cluster, 1);
    assert_eq!(fs.bpb.common.reserved_sector_count, 1);
    assert_eq!(fs.bpb.common.num_fats, 1);
    assert_eq!(fs.bpb.fat32.fat_size_32, 1);
    assert_eq!(fs.bpb.fat32.root_cluster, 2);
    let bs = &fs.bpb;
    assert_eq!(bs.sectors_per_fat32(), 1);
}

#[test]
fn test_read_root_dir_end_to_end() {
    let mut fs = Fat32::mount(file_image()).unwrap();
    let mut buf = vec![0u8; 512];
    let mut out = vec![blank_entry(); 16];
    let n = fs.read_root_dir(&mut buf, &mut out).unwrap();
    assert_eq!(n, 1);
    let (name, ext) = out[0].short_name();
    assert_eq!(name, &b"FILE"[..]);
    assert_eq!(ext, &b"TXT"[..]);
    assert_eq!(out[0].file_size, 11);
    assert_eq!(out[0].first_cluster(), 3);
}

#[test]
fn test_read_file_end_to_end() {
    let mut fs = Fat32::mount(file_image()).unwrap();
    let mut buf = vec![0u8; 512];
    let mut out = vec![blank_entry(); 16];
    let n = fs.read_root_dir(&mut buf, &mut out).unwrap();
    assert_eq!(n, 1);
    let mut file_buf = vec![0u8; 64];
    let read = fs.read_file(&out[0], &mut file_buf).unwrap();
    assert_eq!(read, 11);
    assert_eq!(&file_buf[..read], b"Hello FAT32");
}

#[test]
fn test_read_file_short_destination_copies_no_more() {
    let mut fs = Fat32::mount(file_image()).unwrap();
    let mut entry = blank_entry();
    entry.fst_clus_lo = 3;
    entry.file_size = 11;
    let mut small = vec![0x77u8; 5];
    let read = fs.read_file(&entry, &mut small).unwrap();
    assert_eq!(read, 5);
    assert_eq!(&small[..], b"Hello");
}

#[test]
fn test_read_file_spans_cluster_chain() {
    let mut dev = base_image();
    set_fat_entry(&mut dev, 2, 3);
    set_fat_entry(&mut dev, 3, EOF);
    dev.sectors[2] = vec![b'x'; 512];
    dev.sectors[3][..4].copy_from_slice(b"tail");
    let mut fs = Fat32::mount(dev).unwrap();
    let mut entry = blank_entry();
    entry.fst_clus_lo = 2;
    entry.file_size = 516;
    let mut buf = vec![0u8; 1024];
    let read = fs.read_file(&entry, &mut buf).unwrap();
    assert_eq!(read, 516);
    assert!(buf[..512].iter().all(|b| *b == b'x'));
    assert_eq!(&buf[512..516], b"tail");
}

#[test]
fn test_chain_walks_terminate_on_reserved_or_eof_links() {
    // a chain whose next link is 0 (reserved) ends the walk quietly
    let mut dev = base_image();
    set_fat_entry(&mut dev, 2, 0);
    put_dir_record(&mut dev, 2, 0, b"ONLY    TXT", 0x20, 3, 600);
    dev.sectors[3] = vec![b'y'; 512];
    set_fat_entry(&mut dev, 3, 1);
    let mut fs = Fat32::mount(dev).unwrap();
    let mut buf = vec![0u8; 512];
    let mut out = vec![blank_entry(); 8];
    let n = fs.read_root_dir(&mut buf, &mut out).unwrap();
    assert_eq!(n, 1);
    // the file's chain ends after one cluster although 600 bytes are declared
    let mut file_buf = vec![0u8; 1024];
    let read = fs.read_file(&out[0], &mut file_buf).unwrap();
    assert_eq!(read, 512);

    // a chain whose next link is an end-of-chain marker ends the walk too
    let mut dev = base_image();
    set_fat_entry(&mut dev, 2, EOF);
    put_dir_record(&mut dev, 2, 0, b"ONLY    TXT", 0x20, 3, 600);
    set_fat_entry(&mut dev, 3, 0x0FFF_FFFF);
    dev.sectors[3] = vec![b'z'; 512];
    let mut fs = Fat32::mount(dev).unwrap();
    let mut out = vec![blank_entry(); 8];
    let n = fs.read_root_dir(&mut buf, &mut out).unwrap();
    assert_eq!(n, 1);
    let read = fs.read_file(&out[0], &mut file_buf).unwrap();
    assert_eq!(read, 512);
}

#[test]
fn test_read_file_rejects_oversized_clusters() {
    let mut dev = MockBlockDevice::new(64);
    {
        let s = &mut dev.sectors[0];
        s[11..13].copy_from_slice(&512u16.to_le_bytes());
        s[13] = 16;  // 8192 bytes per cluster: beyond the scratch capacity
        s[14..16].copy_from_slice(&1u16.to_le_bytes());
        s[16] = 1;
        s[36..40].copy_from_slice(&1u32.to_le_bytes());
        s[44..48].copy_from_slice(&2u32.to_le_bytes());
        s[510] = 0x55;
        s[511] = 0xAA;
    }
    let mut fs = Fat32::mount(dev).unwrap();
    let mut entry = blank_entry();
    entry.fst_clus_lo = 2;
    entry.file_size = 100;
    let mut buf = vec![0u8; 128];
    assert_eq!(fs.read_file(&entry, &mut buf), Err(FsError::Parse));
}

#[test]
fn test_device_error_variants() {
    let mut dev = MockBlockDevice::new(1);
    let mut small = vec![0u8; 100];
    assert_eq!(dev.read_sector(0, &mut small), Err(DeviceError::ShortBuffer));
    let mut buf = vec![0u8; 512];
    assert_eq!(dev.read_sector(5, &mut buf), Err(DeviceError::Io));
    assert_eq!(dev.read_sector(0, &mut buf), Ok(()));
}

#[test]
fn test_free_next_cluster_reads_fat_region() {
    let mut dev = base_image();
    set_fat_entry(&mut dev, 7, 0xA000_1234);
    let mut tmp = vec![0u8; 512];
    // the FAT of this image begins at sector 1
    assert_eq!(next_cluster(&mut dev, 1, 7, &mut tmp), Ok(0x0000_1234));
}
