//! File Allocation Table lookup.

use vstd::prelude::*;

use crate::device::{disk_of, BlockDevice};
use crate::fat32::codec::{le32_at, read_le32};
use crate::fat32::FsError;

verus! {

/// End-of-chain threshold: FAT entry values at or above this end a chain.
pub const EOF: u32 = 0x0FFF_FFF8;

/// The FAT entry of `cluster`: the low 28 bits of the little-endian 32-bit
/// value stored at byte offset `cluster * 4` into the table that begins at
/// sector `fat_lba` (the top 4 bits are reserved and masked off).
pub open spec fn spec_fat_entry(disk: Map<u32, Seq<u8>>, fat_lba: int, cluster: u32) -> u32 {
    let off = cluster as int * 4;
    let sec = (fat_lba + off / 512) as u32;
    let idx = off % 512;
    le32_at(disk[sec], idx) & 0x0FFF_FFFF
}

/// Look up the FAT entry of `cluster`, reading the one table sector that
/// holds it into the scratch buffer `tmp`.  Returns the raw masked value
/// without classifying it; classification into end-of-chain, reserved or
/// valid next cluster is the caller's responsibility.
pub fn next_cluster<D: BlockDevice>(
    dev: &mut D,
    fat_lba: u32,
    cluster: u32,
    tmp: &mut [u8],
) -> (r: Result<u32, FsError>)
    requires
        cluster as int * 4 <= u32::MAX as int,
        fat_lba as int + cluster as int * 4 / 512 <= u32::MAX as int,
    ensures
        final(tmp)@.len() == old(tmp)@.len(),
        forall|a: u32| final(dev).sector_data(a) == old(dev).sector_data(a),
        r is Err ==> r == Err::<u32, FsError>(FsError::Io),
        r is Ok ==> final(tmp)@ == disk_of(old(dev))[((fat_lba as int + cluster as int * 4
            / 512) as u32)] + old(tmp)@.skip(512),
        r is Ok ==> r->Ok_0 == spec_fat_entry(disk_of(old(dev)), fat_lba as int, cluster),
        r is Ok ==> r->Ok_0 <= 0x0FFF_FFFF,
{
    let off = cluster * 4;
    let sec = fat_lba + off / 512;
    let idx = (off % 512) as usize;
    proof {
        vstd::arithmetic::div_mod::lemma_mod_multiples_basic(cluster as int, 4);
        assert(off % 512 <= 508) by (bit_vector)
            requires
                off % 4 == 0u32,
        ;
    }
    match dev.read_sector(sec, tmp) {
        Ok(()) => {}
        Err(_) => {
            return Err(FsError::Io);
        }
    }
    let raw = read_le32(tmp, idx);
    let val = raw & 0x0FFF_FFFF;
    proof {
        assert(raw & 0x0FFF_FFFF <= 0x0FFF_FFFFu32) by (bit_vector);
        let data = old(dev).sector_data(sec);
        assert(disk_of(old(dev))[sec] == data);
        assert(tmp@[idx as int] == data[idx as int]);
        assert(tmp@[idx + 1] == data[idx + 1]);
        assert(tmp@[idx + 2] == data[idx + 2]);
        assert(tmp@[idx + 3] == data[idx + 3]);
    }
    Ok(val)
}

} // verus!
