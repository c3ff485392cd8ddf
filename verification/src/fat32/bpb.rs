//! Boot-sector (BIOS Parameter Block) decoding and validation.

use vstd::prelude::*;

use crate::fat32::codec::{le16_at, le32_at, read_le16, read_le32};
use crate::fat32::FsError;

verus! {

/// The BIOS Parameter Block fields common to all FAT variants, decoded from
/// the first volume sector starting at byte offset 11.
#[derive(Clone, Copy, PartialEq, Eq, Structural)]
pub struct BpbCommon {
    pub bytes_per_sector: u16,
    pub sectors_per_cluster: u8,
    pub reserved_sector_count: u16,
    pub num_fats: u8,
    pub root_entry_count: u16,
    pub total_sectors_16: u16,
    pub media: u8,
    pub fat_size_16: u16,
    pub sectors_per_track: u16,
    pub num_heads: u16,
    pub hidden_sectors: u32,
    pub total_sectors_32: u32,
}

/// The FAT32 extension fields, decoded from the first volume sector starting
/// at byte offset 36.
#[derive(Clone)]
pub struct BpbFat32Ext {
    pub fat_size_32: u32,
    pub ext_flags: u16,
    pub fs_version: u16,
    pub root_cluster: u32,
    pub fs_info: u16,
    pub bk_boot_sector: u16,
    pub drive_number: u8,
    pub boot_signature: u8,
    pub volume_id: u32,
    pub volume_label: Vec<u8>,
    pub fs_type: Vec<u8>,
}

/// A decoded, validated boot sector.
pub struct BootSector {
    pub common: BpbCommon,
    pub fat32: BpbFat32Ext,
}

/// The common BPB fields as laid out at their fixed little-endian offsets.
pub open spec fn spec_parse_common(s: Seq<u8>) -> BpbCommon
    recommends
        s.len() >= 512,
{
    BpbCommon {
        bytes_per_sector: le16_at(s, 11),
        sectors_per_cluster: s[13],
        reserved_sector_count: le16_at(s, 14),
        num_fats: s[16],
        root_entry_count: le16_at(s, 17),
        total_sectors_16: le16_at(s, 19),
        media: s[21],
        fat_size_16: le16_at(s, 22),
        sectors_per_track: le16_at(s, 24),
        num_heads: le16_at(s, 26),
        hidden_sectors: le32_at(s, 28),
        total_sectors_32: le32_at(s, 32),
    }
}

/// The sector ends with the two-byte boot signature `0x55 0xAA`.
pub open spec fn spec_sig_ok(s: Seq<u8>) -> bool {
    s.len() >= 512 && s[510] == 0x55 && s[511] == 0xAA
}

/// `bs` holds exactly the fields laid out in `s`.
pub open spec fn spec_bpb_matches(s: Seq<u8>, bs: BootSector) -> bool {
    &&& bs.common == spec_parse_common(s)
    &&& bs.fat32.fat_size_32 == le32_at(s, 36)
    &&& bs.fat32.ext_flags == le16_at(s, 40)
    &&& bs.fat32.fs_version == le16_at(s, 42)
    &&& bs.fat32.root_cluster == le32_at(s, 44)
    &&& bs.fat32.fs_info == le16_at(s, 48)
    &&& bs.fat32.bk_boot_sector == le16_at(s, 50)
    &&& bs.fat32.drive_number == s[64]
    &&& bs.fat32.boot_signature == s[66]
    &&& bs.fat32.volume_id == le32_at(s, 67)
    &&& bs.fat32.volume_label@ == s.subrange(71, 82)
    &&& bs.fat32.fs_type@ == s.subrange(82, 90)
}

impl BootSector {
    /// Decode and validate a 512-byte boot sector.
    ///
    /// Fails with `Parse` on a buffer shorter than 512 bytes, with `BadSig`
    /// when the boot signature is absent, and with `Unsupported` when the
    /// volume does not use 512-byte sectors; otherwise returns the decoded
    /// fields.
    pub fn parse(sec: &[u8]) -> (r: Result<BootSector, FsError>)
        ensures
            sec@.len() < 512 ==> r == Err::<BootSector, FsError>(FsError::Parse),
            sec@.len() >= 512 && !spec_sig_ok(sec@) ==> r == Err::<BootSector, FsError>(
                FsError::BadSig,
            ),
            sec@.len() >= 512 && spec_sig_ok(sec@) && le16_at(sec@, 11) != 512 ==> r == Err::<
                BootSector,
                FsError,
            >(FsError::Unsupported),
            r is Ok <==> sec@.len() >= 512 && spec_sig_ok(sec@) && le16_at(sec@, 11) == 512,
            r is Ok ==> spec_bpb_matches(sec@, r->Ok_0),
    {
        if sec.len() < 512 {
            return Err(FsError::Parse);
        }
        if sec[510] != 0x55 || sec[511] != 0xAA {
            return Err(FsError::BadSig);
        }
        let bytes_per_sector = read_le16(sec, 11);
        if bytes_per_sector != 512 {
            return Err(FsError::Unsupported);
        }
        let common = BpbCommon {
            bytes_per_sector,
            sectors_per_cluster: sec[13],
            reserved_sector_count: read_le16(sec, 14),
            num_fats: sec[16],
            root_entry_count: read_le16(sec, 17),
            total_sectors_16: read_le16(sec, 19),
            media: sec[21],
            fat_size_16: read_le16(sec, 22),
            sectors_per_track: read_le16(sec, 24),
            num_heads: read_le16(sec, 26),
            hidden_sectors: read_le32(sec, 28),
            total_sectors_32: read_le32(sec, 32),
        };
        let fat32 = BpbFat32Ext {
            fat_size_32: read_le32(sec, 36),
            ext_flags: read_le16(sec, 40),
            fs_version: read_le16(sec, 42),
            root_cluster: read_le32(sec, 44),
            fs_info: read_le16(sec, 48),
            bk_boot_sector: read_le16(sec, 50),
            drive_number: sec[64],
            boot_signature: sec[66],
            volume_id: read_le32(sec, 67),
            volume_label: vstd::slice::slice_to_vec(&sec[71..82]),
            fs_type: vstd::slice::slice_to_vec(&sec[82..90]),
        };
        Ok(BootSector { common, fat32 })
    }

    /// The number of sectors occupied by one copy of the FAT.
    #[inline]
    pub fn sectors_per_fat32(&self) -> (r: u32)
        ensures
            r == self.fat32.fat_size_32,
    {
        self.fat32.fat_size_32
    }
}

} // verus!
