//! The block-storage capability the driver reads sectors through.

use vstd::prelude::*;

verus! {

/// Errors a block device may report on a sector read.
#[derive(Debug, Clone, Copy, PartialEq, Eq, Structural)]
pub enum DeviceError {
    /// The address is out of range or the underlying medium failed.
    Io,
    /// The caller's buffer is smaller than one sector.
    ShortBuffer,
}

/// A block-addressable storage device with fixed 512-byte sectors.
///
/// The driver owns exactly one such device and performs every read through
/// it.  A read either fully succeeds, filling the first 512 bytes of the
/// buffer, or fails without a partial result being promised.
pub trait BlockDevice {
    /// The bytes the device holds at a given logical block address.
    ///
    /// Reading never changes this; on a successful read it is exactly the
    /// 512 bytes placed into the buffer.
    spec fn sector_data(&self, lba: u32) -> Seq<u8>;

    /// Read the sector at `lba` into the first 512 bytes of `buf`.
    fn read_sector(&mut self, lba: u32, buf: &mut [u8]) -> (r: Result<(), DeviceError>)
        ensures
            final(buf)@.len() == old(buf)@.len(),
            forall|a: u32| final(self).sector_data(a) == old(self).sector_data(a),
            r is Ok ==> old(buf)@.len() >= 512 && old(self).sector_data(lba).len() == 512
                && final(buf)@ == old(self).sector_data(lba) + old(buf)@.skip(512),
    ;
}

/// The whole device contents, as a map from block address to sector bytes.
pub open spec fn disk_of<D: BlockDevice>(dev: &D) -> Map<u32, Seq<u8>> {
    Map::new(|lba: u32| true, |lba: u32| dev.sector_data(lba))
}

/// Devices with pointwise-equal sector contents have the same disk map.
pub proof fn lemma_same_disk<D: BlockDevice>(d1: &D, d2: &D)
    requires
        forall|a: u32| d1.sector_data(a) == d2.sector_data(a),
    ensures
        disk_of(d1) == disk_of(d2),
{
    assert(disk_of(d1) =~= disk_of(d2));
}

/// The bytes of `n` consecutive sectors of `disk`, starting at `first`.
pub open spec fn spec_read_sectors(disk: Map<u32, Seq<u8>>, first: int, n: int) -> Seq<u8>
    decreases n,
{
    if n <= 0 {
        Seq::empty()
    } else {
        spec_read_sectors(disk, first, n - 1) + disk[(first + n - 1) as u32]
    }
}

} // verus!
