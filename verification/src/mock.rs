//! An in-memory block device, useful as a test double.

use vstd::prelude::*;

use crate::device::{BlockDevice, DeviceError};

verus! {

/// A block device backed by an in-memory vector of 512-byte sectors.
pub struct MockBlockDevice {
    /// The device contents, one 512-byte vector per sector.
    pub sectors: Vec<Vec<u8>>,
}

impl MockBlockDevice {
    /// A device of `n` sectors, all zeroed.
    pub fn new(n: usize) -> (r: MockBlockDevice)
        ensures
            r.sectors@.len() == n,
            forall|i: int|
                0 <= i < n ==> (#[trigger] r.sectors@[i])@ == Seq::new(512, |j: int| 0u8),
    {
        let mut sectors: Vec<Vec<u8>> = Vec::new();
        let mut i: usize = 0;
        while i < n
            invariant
                i <= n,
                sectors@.len() == i,
                forall|k: int|
                    0 <= k < i ==> (#[trigger] sectors@[k])@ == Seq::new(512, |j: int| 0u8),
            decreases n - i,
        {
            let sec: Vec<u8> = vec![0u8; 512];
            sectors.push(sec);
            i = i + 1;
        }
        MockBlockDevice { sectors }
    }
}

impl BlockDevice for MockBlockDevice {
    open spec fn sector_data(&self, lba: u32) -> Seq<u8> {
        if lba < self.sectors@.len() {
            self.sectors@[lba as int]@
        } else {
            Seq::empty()
        }
    }

    fn read_sector(&mut self, lba: u32, buf: &mut [u8]) -> (r: Result<(), DeviceError>)
        ensures
            lba >= old(self).sectors@.len() ==> r == Err::<(), DeviceError>(DeviceError::Io),
            lba < old(self).sectors@.len() && old(buf)@.len() < 512 ==> r == Err::<
                (),
                DeviceError,
            >(DeviceError::ShortBuffer),
            lba < old(self).sectors@.len() && old(buf)@.len() >= 512 && old(self).sectors@[
                lba as int
            ]@.len() == 512 ==> r is Ok,
    {
        let lba_us = lba as usize;
        if lba_us >= self.sectors.len() {
            return Err(DeviceError::Io);
        }
        if buf.len() < 512 {
            return Err(DeviceError::ShortBuffer);
        }
        if self.sectors[lba_us].len() != 512 {
            return Err(DeviceError::Io);
        }
        let mut j: usize = 0;
        while j < 512
            invariant
                j <= 512,
                *self == *old(self),
                lba_us == lba as usize,
                lba_us < self.sectors@.len(),
                self.sectors@[lba_us as int]@.len() == 512,
                buf@.len() == old(buf)@.len(),
                old(buf)@.len() >= 512,
                buf@ == self.sectors@[lba_us as int]@.take(j as int) + old(buf)@.skip(j as int),
            decreases 512 - j,
        {
            let b = self.sectors[lba_us][j];
            buf[j] = b;
            proof {
                assert(buf@ =~= self.sectors@[lba_us as int]@.take(j + 1)
                    + old(buf)@.skip(j + 1));
            }
            j = j + 1;
        }
        proof {
            assert(buf@ =~= old(self).sector_data(lba) + old(buf)@.skip(512));
        }
        Ok(())
    }
}

} // verus!
