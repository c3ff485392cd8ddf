//! The FAT32 driver proper: boot-sector decoding, FAT traversal, directory
//! enumeration and file reading.

pub mod bpb;
pub mod codec;
pub mod dirent;
pub mod table;

use vstd::prelude::*;

use crate::device::{disk_of, lemma_same_disk, spec_read_sectors, BlockDevice};
use crate::fat32::bpb::{spec_bpb_matches, spec_parse_common, spec_sig_ok, BootSector};
use crate::fat32::codec::{le16_at, le32_at};
use crate::fat32::dirent::{scan_records, spec_scan_dir, DirEntryModel, ShortDirEntry};
use crate::fat32::table::{spec_fat_entry, EOF};

verus! {

/// Filesystem-level failures.
#[derive(Debug, Clone, Copy, PartialEq, Eq, Structural)]
pub enum FsError {
    /// The boot sector does not end in the `0x55 0xAA` signature.
    BadSig,
    /// The volume's geometry is not supported by this driver.
    Unsupported,
    /// An underlying device read failed or an address was out of range.
    Io,
    /// A caller-supplied buffer is malformed or too short.
    Parse,
}

/// Upper bound on how many clusters one chain walk follows: the size of the
/// FAT32 cluster space.  A chain without a cycle can never be longer, so the
/// bound changes nothing on well-formed media; on corrupt media whose chain
/// loops back on itself it ends the walk instead of iterating forever.
pub const MAX_CHAIN_LEN: u32 = 0x0FFF_FFF6;


/// The directory entries a chain walk starting at cluster `cl` returns:
/// each cluster's records are scanned into the remaining room, then the
/// cluster's FAT entry decides whether the walk continues.  `tail` is what
/// the caller's buffer holds beyond one cluster's bytes (the scan sees it
/// after the cluster data), `max` is the room left in the output, and `fuel`
/// bounds the walk.
pub open spec fn spec_dir_chain(
    disk: Map<u32, Seq<u8>>,
    fat_lba: int,
    first_data_lba: int,
    spc: int,
    tail: Seq<u8>,
    cl: u32,
    max: int,
    fuel: nat,
) -> Seq<DirEntryModel>
    decreases fuel,
{
    if fuel == 0 {
        Seq::empty()
    } else {
        let entries = spec_scan_dir(
            spec_read_sectors(disk, (cl - 2) * spc + first_data_lba, spc) + tail,
            0,
            max,
        );
        if entries.len() >= max {
            entries
        } else {
            let next = spec_fat_entry(disk, fat_lba, cl);
            if next < 2 || next >= EOF {
                entries
            } else {
                entries + spec_dir_chain(
                    disk,
                    fat_lba,
                    first_data_lba,
                    spc,
                    tail,
                    next,
                    max - entries.len(),
                    (fuel - 1) as nat,
                )
            }
        }
    }
}

/// The bytes a file read starting at cluster `cl` copies: each cluster
/// contributes up to one cluster of bytes, bounded by the remaining
/// `budget` (the lesser of the declared file size and the destination's
/// length), and the cluster's FAT entry decides whether the walk continues.
pub open spec fn spec_file_chain(
    disk: Map<u32, Seq<u8>>,
    fat_lba: int,
    first_data_lba: int,
    spc: int,
    cl: u32,
    budget: int,
    fuel: nat,
) -> Seq<u8>
    decreases fuel,
{
    if fuel == 0 || budget <= 0 || cl < 2 || cl >= EOF {
        Seq::empty()
    } else {
        let cdata = spec_read_sectors(disk, (cl - 2) * spc + first_data_lba, spc);
        if budget <= spc * 512 {
            cdata.take(budget)
        } else {
            let next = spec_fat_entry(disk, fat_lba, cl);
            if next < 2 || next >= EOF {
                cdata
            } else {
                cdata + spec_file_chain(
                    disk,
                    fat_lba,
                    first_data_lba,
                    spc,
                    next,
                    budget - spc * 512,
                    (fuel - 1) as nat,
                )
            }
        }
    }
}

/// Copy the first `n` bytes of `src` into `dst` starting at `at`; the rest
/// of `dst` keeps its bytes.
fn copy_into(dst: &mut [u8], at: usize, src: &[u8], n: usize)
    requires
        n <= src@.len(),
        at + n <= old(dst)@.len(),
    ensures
        final(dst)@.len() == old(dst)@.len(),
        final(dst)@.take(at as int) == old(dst)@.take(at as int),
        final(dst)@.subrange(at as int, (at + n) as int) == src@.take(n as int),
        forall|k: int| at + n <= k < old(dst)@.len() ==> final(dst)@[k] == old(dst)@[k],
{
    let dst_len = dst.len();
    let mut j: usize = 0;
    while j < n
        invariant
            j <= n,
            n <= src@.len(),
            at + n <= dst@.len(),
            dst_len == dst@.len(),
            dst@.len() == old(dst)@.len(),
            dst@.take(at as int) == old(dst)@.take(at as int),
            dst@.subrange(at as int, (at + j) as int) == src@.take(j as int),
            forall|k: int| at + j <= k < dst@.len() ==> dst@[k] == old(dst)@[k],
        decreases n - j,
    {
        dst[at + j] = src[j];
        proof {
            assert(dst@.take(at as int) =~= old(dst)@.take(at as int));
            assert(dst@.subrange(at as int, (at + j + 1) as int) =~= src@.take(j + 1));
        }
        j = j + 1;
    }
}

/// A mounted FAT32 volume: the owned device, the parsed boot sector, and the
/// two sector addresses derived once at mount.
pub struct Fat32<D: BlockDevice> {
    pub dev: D,
    pub bpb: BootSector,
    pub first_data_lba: u32,
    pub fat_lba: u32,
}

impl<D: BlockDevice> Fat32<D> {
    /// The contents of the device this filesystem reads.
    pub open spec fn disk(&self) -> Map<u32, Seq<u8>> {
        disk_of(&self.dev)
    }

    /// The first sector of the FAT region: `reserved_sector_count`.
    pub open spec fn spec_fat_lba(&self) -> u32 {
        self.fat_lba
    }

    /// The first sector of the data region: after all FAT copies.
    pub open spec fn spec_first_data_lba(&self) -> u32 {
        self.first_data_lba
    }

    /// The geometry invariants established at mount and never recomputed.
    pub open spec fn wf(&self) -> bool {
        &&& self.bpb.common.bytes_per_sector == 512
        &&& self.spec_fat_lba() == self.bpb.common.reserved_sector_count as u32
        &&& self.spec_first_data_lba() as int == self.spec_fat_lba() as int
            + self.bpb.common.num_fats as int * self.bpb.fat32.fat_size_32 as int
    }

    /// Bytes per cluster.
    pub open spec fn spec_bpc(&self) -> int {
        self.bpb.common.sectors_per_cluster as int * 512
    }

    /// The physical sector where data cluster `cl` begins.
    pub open spec fn spec_first_sector_of_cluster(&self, cl: u32) -> int
        recommends
            cl >= 2,
    {
        (cl - 2) * self.bpb.common.sectors_per_cluster as int + self.spec_first_data_lba() as int
    }

    /// The bytes of data cluster `cl`.
    pub open spec fn spec_cluster_data(&self, cl: u32) -> Seq<u8> {
        spec_read_sectors(
            self.disk(),
            self.spec_first_sector_of_cluster(cl),
            self.bpb.common.sectors_per_cluster as int,
        )
    }

    /// The FAT entry of `cl` on this volume.
    pub open spec fn spec_next_cluster(&self, cl: u32) -> u32 {
        spec_fat_entry(self.disk(), self.spec_fat_lba() as int, cl)
    }

    /// A call left the volume as it was: the same parsed boot sector, the
    /// same derived geometry, and the same device contents.
    pub open spec fn unchanged(&self, pre: &Self) -> bool {
        &&& self.bpb == pre.bpb
        &&& self.spec_fat_lba() == pre.spec_fat_lba()
        &&& self.spec_first_data_lba() == pre.spec_first_data_lba()
        &&& self.disk() == pre.disk()
    }

    /// Mount the volume: read sector 0, decode and validate it, and derive
    /// the FAT and data region addresses.
    pub fn mount(dev: D) -> (r: Result<Fat32<D>, FsError>)
        ensures
            r is Ok ==> ({
                let fs = r->Ok_0;
                &&& fs.wf()
                &&& fs.disk() == disk_of(&dev)
                &&& disk_of(&dev)[0].len() == 512
                &&& spec_sig_ok(disk_of(&dev)[0])
                &&& le16_at(disk_of(&dev)[0], 11) == 512
                &&& spec_bpb_matches(disk_of(&dev)[0], fs.bpb)
            }),
            r == Err::<Fat32<D>, FsError>(FsError::BadSig) ==> disk_of(&dev)[0].len() == 512
                && !spec_sig_ok(disk_of(&dev)[0]),
            r == Err::<Fat32<D>, FsError>(FsError::Unsupported) ==> disk_of(&dev)[0].len() == 512
                && spec_sig_ok(disk_of(&dev)[0]) && (le16_at(disk_of(&dev)[0], 11) != 512
                || spec_parse_common(disk_of(&dev)[0]).reserved_sector_count as int
                + spec_parse_common(disk_of(&dev)[0]).num_fats as int * le32_at(
                disk_of(&dev)[0],
                36,
            ) as int > u32::MAX as int),
            r is Err ==> r->Err_0 != FsError::Parse,
    {
        let mut dev = dev;
        let ghost dev0 = dev;
        let mut sec: Vec<u8> = vec![0u8; 512];
        match dev.read_sector(0, sec.as_mut_slice()) {
            Ok(()) => {}
            Err(_) => {
                return Err(FsError::Io);
            },
        }
        proof {
            lemma_same_disk(&dev, &dev0);
            assert(sec@ =~= disk_of(&dev0)[0]);
        }
        let bs = match BootSector::parse(sec.as_slice()) {
            Ok(b) => b,
            Err(e) => {
                return Err(e);
            },
        };
        let fat_lba = bs.common.reserved_sector_count as u32;
        proof {
            vstd::arithmetic::mul::lemma_mul_upper_bound(
                bs.common.num_fats as int,
                0xFF,
                bs.fat32.fat_size_32 as int,
                0xFFFF_FFFF,
            );
        }
        let span = fat_lba as u64 + bs.common.num_fats as u64 * bs.fat32.fat_size_32 as u64;
        if span > u32::MAX as u64 {
            return Err(FsError::Unsupported);
        }
        let fs = Fat32 { dev, bpb: bs, first_data_lba: span as u32, fat_lba };
        proof {
            lemma_same_disk(&fs.dev, &dev0);
        }
        Ok(fs)
    }

    /// The physical sector where data cluster `cl` begins:
    /// `(cl - 2) * sectors_per_cluster + first_data_lba`.  Meaningful only
    /// for valid data clusters, which start at 2.
    pub fn first_sector_of_cluster(&self, cl: u32) -> (r: u32)
        requires
            self.wf(),
            cl >= 2,
            self.spec_first_sector_of_cluster(cl) <= u32::MAX as int,
        ensures
            r as int == self.spec_first_sector_of_cluster(cl),
    {
        proof {
            vstd::arithmetic::mul::lemma_mul_upper_bound(
                (cl - 2) as int,
                0xFFFF_FFFF,
                self.bpb.common.sectors_per_cluster as int,
                0xFF,
            );
        }
        let base = (cl - 2) as u64 * self.bpb.common.sectors_per_cluster as u64
            + self.first_data_lba as u64;
        base as u32
    }

    /// Look up the FAT entry of `cl`, reusing the caller's scratch buffer
    /// for the one table sector read.  Returns the masked 28-bit value
    /// without classifying it.
    pub fn next_cluster(&mut self, cl: u32, tmp: &mut [u8]) -> (r: Result<u32, FsError>)
        requires
            old(self).wf(),
            cl as int * 4 <= u32::MAX as int,
        ensures
            final(self).wf(),
            final(self).unchanged(old(self)),
            final(tmp)@.len() == old(tmp)@.len(),
            r is Err ==> r == Err::<u32, FsError>(FsError::Io),
            r is Ok ==> r->Ok_0 == old(self).spec_next_cluster(cl),
            r is Ok ==> r->Ok_0 <= 0x0FFF_FFFF,
            r is Ok ==> final(tmp)@ == old(self).disk()[((old(self).spec_fat_lba() as int
                + cl as int * 4 / 512) as u32)] + old(tmp)@.skip(512),
    {
        proof {
            vstd::arithmetic::div_mod::lemma_div_is_ordered(
                cl as int * 4,
                u32::MAX as int,
                512,
            );
        }
        let r = crate::fat32::table::next_cluster(&mut self.dev, self.fat_lba, cl, tmp);
        proof {
            lemma_same_disk(&self.dev, &old(self).dev);
        }
        r
    }

    /// Read the `sectors_per_cluster` consecutive sectors of data cluster
    /// `cl` into the front of `buf`.
    ///
    /// Fails with `Parse` exactly when `buf` is shorter than a cluster, and
    /// with `Io` when a sector read fails or the cluster's sectors lie
    /// outside the addressable range; a failure partway through leaves `buf`
    /// partially written.
    pub fn read_cluster(&mut self, cl: u32, buf: &mut [u8]) -> (r: Result<(), FsError>)
        requires
            old(self).wf(),
        ensures
            final(self).wf(),
            final(self).unchanged(old(self)),
            final(buf)@.len() == old(buf)@.len(),
            r == Err::<(), FsError>(FsError::Parse) <==> old(buf)@.len() < old(self).spec_bpc(),
            r is Err ==> r->Err_0 == FsError::Parse || r->Err_0 == FsError::Io,
            old(self).bpb.common.sectors_per_cluster == 0 ==> r is Ok,
            r == Err::<(), FsError>(FsError::Parse) ==> final(buf)@ == old(buf)@,
            r == Err::<(), FsError>(FsError::Io) ==> exists|k: int|
                0 <= k <= old(self).bpb.common.sectors_per_cluster && final(buf)@
                    == spec_read_sectors(
                    old(self).disk(),
                    old(self).spec_first_sector_of_cluster(cl),
                    k,
                ) + old(buf)@.skip(512 * k),
            old(buf)@.len() >= old(self).spec_bpc() && old(self).bpb.common.sectors_per_cluster
                > 0 && (cl < 2 || old(self).spec_first_sector_of_cluster(cl)
                + old(self).bpb.common.sectors_per_cluster as int - 1 > u32::MAX as int) ==> r
                == Err::<(), FsError>(FsError::Io),
            r is Ok ==> old(self).spec_cluster_data(cl).len() == old(self).spec_bpc(),
            r is Ok ==> final(buf)@ == old(self).spec_cluster_data(cl) + old(buf)@.skip(
                old(self).spec_bpc(),
            ),
    {
        let spc = self.bpb.common.sectors_per_cluster;
        let need = (spc as usize) * 512;
        let buf_len = buf.len();
        if buf_len < need {
            return Err(FsError::Parse);
        }
        if spc == 0 {
            proof {
                assert(buf@ =~= old(self).spec_cluster_data(cl) + old(buf)@.skip(0));
            }
            return Ok(());
        }
        if cl < 2 {
            proof {
                assert(buf@ =~= spec_read_sectors(
                    old(self).disk(),
                    old(self).spec_first_sector_of_cluster(cl),
                    0,
                ) + old(buf)@.skip(0));
            }
            return Err(FsError::Io);
        }
        proof {
            vstd::arithmetic::mul::lemma_mul_upper_bound(
                (cl - 2) as int,
                0xFFFF_FFFF,
                spc as int,
                0xFF,
            );
        }
        let first64 = (cl - 2) as u64 * (spc as u64) + (self.first_data_lba as u64);
        if first64 + (spc as u64) - 1 > 0xFFFF_FFFFu64 {
            proof {
                assert(buf@ =~= spec_read_sectors(
                    old(self).disk(),
                    old(self).spec_first_sector_of_cluster(cl),
                    0,
                ) + old(buf)@.skip(0));
            }
            return Err(FsError::Io);
        }
        let first = first64 as u32;
        let mut sector: Vec<u8> = vec![0u8; 512];
        let mut i: u32 = 0;
        while i < spc as u32
            invariant
                self.wf(),
                self.unchanged(old(self)),
                spc == self.bpb.common.sectors_per_cluster,
                spc > 0,
                cl >= 2,
                i <= spc as u32,
                need == spc as int * 512,
                buf_len == buf@.len(),
                buf@.len() == old(buf)@.len(),
                old(buf)@.len() >= need,
                first as int == self.spec_first_sector_of_cluster(cl),
                first as int + spc as int - 1 <= u32::MAX as int,
                sector@.len() == 512,
                buf@.subrange(0, 512 * i as int) == spec_read_sectors(
                    self.disk(),
                    first as int,
                    i as int,
                ),
                forall|k: int| 512 * i as int <= k < buf@.len() ==> buf@[k] == old(buf)@[k],
            decreases spc as u32 - i,
        {
            let ghost pre_iter = *self;
            let lba = first + i;
            match self.dev.read_sector(lba, sector.as_mut_slice()) {
                Ok(()) => {}
                Err(_) => {
                    proof {
                        lemma_same_disk(&self.dev, &pre_iter.dev);
                        assert(buf@.skip(512 * i as int) =~= old(buf)@.skip(512 * i as int));
                        assert(buf@ =~= spec_read_sectors(
                            old(self).disk(),
                            old(self).spec_first_sector_of_cluster(cl),
                            i as int,
                        ) + old(buf)@.skip(512 * i as int));
                    }
                    return Err(FsError::Io);
                },
            }
            proof {
                lemma_same_disk(&self.dev, &pre_iter.dev);
                assert(sector@ =~= self.disk()[lba]);
            }
            let off = (i as usize) * 512;
            let mut j: usize = 0;
            while j < 512
                invariant
                    j <= 512,
                    self.wf(),
                    self.unchanged(old(self)),
                    spc == self.bpb.common.sectors_per_cluster,
                    spc > 0,
                    cl >= 2,
                    i < spc as u32,
                    need == spc as int * 512,
                    off == i as usize * 512,
                    off + 512 <= need,
                    buf_len == buf@.len(),
                    buf@.len() == old(buf)@.len(),
                    old(buf)@.len() >= need,
                    first as int == self.spec_first_sector_of_cluster(cl),
                    first as int + spc as int - 1 <= u32::MAX as int,
                    lba == first + i,
                    sector@.len() == 512,
                    sector@ == self.disk()[lba],
                    buf@.subrange(0, off as int) == spec_read_sectors(
                        self.disk(),
                        first as int,
                        i as int,
                    ),
                    buf@.subrange(off as int, off + j) == sector@.take(j as int),
                    forall|k: int| off + j <= k < buf@.len() ==> buf@[k] == old(buf)@[k],
                decreases 512 - j,
            {
                buf[off + j] = sector[j];
                proof {
                    assert(buf@.subrange(0, off as int) =~= spec_read_sectors(
                        self.disk(),
                        first as int,
                        i as int,
                    ));
                    assert(buf@.subrange(off as int, off + j + 1) =~= sector@.take(j + 1));
                }
                j = j + 1;
            }
            proof {
                assert(buf@.subrange(0, (off + 512) as int) =~= buf@.subrange(0, off as int)
                    + buf@.subrange(off as int, off + 512));
                assert(sector@.take(512) =~= sector@);
                assert(spec_read_sectors(self.disk(), first as int, i + 1) == spec_read_sectors(
                    self.disk(),
                    first as int,
                    i as int,
                ) + self.disk()[(first + i) as u32]);
            }
            i = i + 1;
        }
        proof {
            assert(old(self).spec_cluster_data(cl) == buf@.subrange(0, need as int));
            assert(buf@.skip(need as int) =~= old(buf)@.skip(need as int));
            assert(buf@ =~= buf@.subrange(0, need as int) + buf@.skip(need as int));
        }
        Ok(())
    }

    /// The entries a full chain walk of this volume returns, starting at
    /// `cl` with room for `max` entries; `tail` is what the scratch buffer
    /// holds beyond one cluster's bytes.
    pub open spec fn spec_dir_chain_of(&self, tail: Seq<u8>, cl: u32, max: int) -> Seq<
        DirEntryModel,
    > {
        spec_dir_chain(
            self.disk(),
            self.spec_fat_lba() as int,
            self.spec_first_data_lba() as int,
            self.bpb.common.sectors_per_cluster as int,
            tail,
            cl,
            max,
            MAX_CHAIN_LEN as nat,
        )
    }

    /// The bytes a file read of this volume copies, starting at `cl` with
    /// the given byte budget.
    pub open spec fn spec_file_chain_of(&self, cl: u32, budget: int) -> Seq<u8> {
        spec_file_chain(
            self.disk(),
            self.spec_fat_lba() as int,
            self.spec_first_data_lba() as int,
            self.bpb.common.sectors_per_cluster as int,
            cl,
            budget,
            MAX_CHAIN_LEN as nat,
        )
    }

    /// Read one cluster of directory data into `buf`, scan its 32-byte
    /// records from the front, and append the kept short entries to the
    /// front of `out`; returns how many entries were written.
    pub fn read_dir_once(
        &mut self,
        cl: u32,
        buf: &mut [u8],
        out: &mut [ShortDirEntry],
    ) -> (r: Result<usize, FsError>)
        requires
            old(self).wf(),
        ensures
            final(self).wf(),
            final(self).unchanged(old(self)),
            final(buf)@.len() == old(buf)@.len(),
            final(out)@.len() == old(out)@.len(),
            r == Err::<usize, FsError>(FsError::Parse) <==> old(buf)@.len() < old(
                self,
            ).spec_bpc(),
            r is Err ==> r->Err_0 == FsError::Parse || r->Err_0 == FsError::Io,
            r is Err ==> final(out)@ == old(out)@,
            old(self).bpb.common.sectors_per_cluster == 0 ==> r is Ok,
            r == Err::<usize, FsError>(FsError::Parse) ==> final(buf)@ == old(buf)@,
            r == Err::<usize, FsError>(FsError::Io) ==> exists|k: int|
                0 <= k <= old(self).bpb.common.sectors_per_cluster && final(buf)@
                    == spec_read_sectors(
                    old(self).disk(),
                    old(self).spec_first_sector_of_cluster(cl),
                    k,
                ) + old(buf)@.skip(512 * k),
            r is Ok ==> ({
                let entries = spec_scan_dir(
                    old(self).spec_cluster_data(cl) + old(buf)@.skip(old(self).spec_bpc()),
                    0,
                    old(out)@.len() as int,
                );
                &&& r->Ok_0 == entries.len()
                &&& final(out).deep_view().take(r->Ok_0 as int) == entries
                &&& (forall|k: int|
                    r->Ok_0 <= k < old(out)@.len() ==> final(out)@[k] == old(out)@[k])
                &&& final(buf)@ == old(self).spec_cluster_data(cl) + old(buf)@.skip(
                    old(self).spec_bpc(),
                )
            }),
    {
        match self.read_cluster(cl, buf) {
            Ok(()) => {}
            Err(e) => {
                return Err(e);
            },
        }
        let n = scan_records(buf, out, 0);
        proof {
            assert(out.deep_view().take(n as int) =~= out.deep_view().subrange(0, n as int));
        }
        Ok(n)
    }

    /// Enumerate a directory by walking its whole cluster chain from
    /// `start_cl`, filling `out` from the front; returns how many entries
    /// were written.  The walk ends when `out` is full, when the chain's
    /// next-cluster value is `< 2` or `>= EOF`, or when it has followed more
    /// clusters than the cluster space holds (a corrupt, cyclic chain).
    #[verifier::rlimit(50)]
    pub fn read_dir_chain(
        &mut self,
        start_cl: u32,
        buf: &mut [u8],
        out: &mut [ShortDirEntry],
    ) -> (r: Result<usize, FsError>)
        requires
            old(self).wf(),
        ensures
            final(self).wf(),
            final(self).unchanged(old(self)),
            final(buf)@.len() == old(buf)@.len(),
            final(out)@.len() == old(out)@.len(),
            r == Err::<usize, FsError>(FsError::Parse) <==> old(buf)@.len() < old(
                self,
            ).spec_bpc(),
            r is Err ==> r->Err_0 == FsError::Parse || r->Err_0 == FsError::Io,
            old(self).bpb.common.sectors_per_cluster == 0 && old(out)@.len() == 0 ==> r is Ok,
            r is Err ==> ({
                let entries = old(self).spec_dir_chain_of(
                    old(buf)@.skip(old(self).spec_bpc()),
                    start_cl,
                    old(out)@.len() as int,
                );
                exists|k: int|
                    0 <= k <= old(out)@.len() && k <= entries.len()
                        && final(out).deep_view().subrange(0, k) == entries.subrange(0, k) && (
                    forall|j: int| k <= j < old(out)@.len() ==> final(out)@[j] == old(out)@[j])
            }),
            r is Ok ==> ({
                let entries = old(self).spec_dir_chain_of(
                    old(buf)@.skip(old(self).spec_bpc()),
                    start_cl,
                    old(out)@.len() as int,
                );
                &&& r->Ok_0 == entries.len()
                &&& final(out).deep_view().take(r->Ok_0 as int) == entries
                &&& (forall|k: int|
                    r->Ok_0 <= k < old(out)@.len() ==> final(out)@[k] == old(out)@[k])
            }),
    {
        let out_len = out.len();
        let mut total: usize = 0;
        let mut cl = start_cl;
        let mut fuel: u32 = MAX_CHAIN_LEN;
        let mut fat_buf: Vec<u8> = vec![0u8; 512];
        let ghost tail0 = old(buf)@.skip(old(self).spec_bpc());
        let ghost full = old(self).spec_dir_chain_of(tail0, start_cl, out_len as int);
        loop
            invariant
                self.wf(),
                self.unchanged(old(self)),
                buf@.len() == old(buf)@.len(),
                out@.len() == old(out)@.len(),
                out_len == out@.len(),
                total <= out_len,
                1 <= fuel <= MAX_CHAIN_LEN,
                buf@.skip(self.spec_bpc()) == tail0,
                tail0 == old(buf)@.skip(old(self).spec_bpc()),
                full == old(self).spec_dir_chain_of(tail0, start_cl, out_len as int),
                full == out.deep_view().subrange(0, total as int) + spec_dir_chain(
                    self.disk(),
                    self.spec_fat_lba() as int,
                    self.spec_first_data_lba() as int,
                    self.bpb.common.sectors_per_cluster as int,
                    tail0,
                    cl,
                    out_len - total,
                    fuel as nat,
                ),
                forall|k: int| total <= k < out@.len() ==> out@[k] == old(out)@[k],
            decreases fuel,
        {
            let ghost pre = *self;
            let ghost rem = out_len - total;
            let ghost chain_here = spec_dir_chain(
                self.disk(),
                self.spec_fat_lba() as int,
                self.spec_first_data_lba() as int,
                self.bpb.common.sectors_per_cluster as int,
                tail0,
                cl,
                rem as int,
                fuel as nat,
            );
            match self.read_cluster(cl, buf) {
                Ok(()) => {}
                Err(e) => {
                    proof {
                        assert(total as int <= full.len());
                        assert(full.subrange(0, total as int) =~= out.deep_view().subrange(
                            0,
                            total as int,
                        ));
                    }
                    return Err(e);
                },
            }
            proof {
                assert(buf@.skip(self.spec_bpc()) =~= tail0);
                assert(buf@ == pre.spec_cluster_data(cl) + tail0);
                assert(pre.spec_cluster_data(cl) == spec_read_sectors(
                    self.disk(),
                    (cl - 2) * self.bpb.common.sectors_per_cluster as int
                        + self.spec_first_data_lba() as int,
                    self.bpb.common.sectors_per_cluster as int,
                ));
            }
            let ghost entries_here = spec_scan_dir(buf@, 0, rem as int);
            let ghost pre_out = out.deep_view();
            let got = scan_records(buf, out, total);
            proof {
                assert(out.deep_view().subrange(0, total as int) =~= pre_out.subrange(
                    0,
                    total as int,
                ));
            }
            total = total + got;
            if total >= out_len {
                proof {
                    assert(chain_here == entries_here);
                    assert(out.deep_view().subrange(0, total as int) =~= out.deep_view().subrange(
                        0,
                        (total - got) as int,
                    ) + out.deep_view().subrange((total - got) as int, total as int));
                    assert(full =~= out.deep_view().subrange(0, total as int));
                    assert(out.deep_view().take(total as int) =~= out.deep_view().subrange(
                        0,
                        total as int,
                    ));
                }
                return Ok(total);
            }
            if cl > 0x3FFF_FFFF {
            proof {
                let nxt = spec_fat_entry(self.disk(), self.spec_fat_lba() as int, cl);
                let rest = spec_dir_chain(
                    self.disk(),
                    self.spec_fat_lba() as int,
                    self.spec_first_data_lba() as int,
                    self.bpb.common.sectors_per_cluster as int,
                    tail0,
                    nxt,
                    out_len - total,
                    (fuel - 1) as nat,
                );
                assert(out.deep_view().subrange(0, total as int) =~= out.deep_view().subrange(
                    0,
                    (total - got) as int,
                ) + entries_here);
                if nxt < 2 || nxt >= EOF {
                    assert(chain_here == entries_here);
                    assert(full =~= out.deep_view().subrange(0, total as int));
                } else {
                    assert(chain_here == entries_here + rest);
                    assert(full =~= out.deep_view().subrange(0, total as int) + rest);
                }
                assert(total as int <= full.len());
                assert(full.subrange(0, total as int) =~= out.deep_view().subrange(
                    0,
                    total as int,
                ));
            }
                return Err(FsError::Io);
            }
            let next = match self.next_cluster(cl, fat_buf.as_mut_slice()) {
                Ok(v) => v,
                Err(e) => {
            proof {
                let nxt = spec_fat_entry(self.disk(), self.spec_fat_lba() as int, cl);
                let rest = spec_dir_chain(
                    self.disk(),
                    self.spec_fat_lba() as int,
                    self.spec_first_data_lba() as int,
                    self.bpb.common.sectors_per_cluster as int,
                    tail0,
                    nxt,
                    out_len - total,
                    (fuel - 1) as nat,
                );
                assert(out.deep_view().subrange(0, total as int) =~= out.deep_view().subrange(
                    0,
                    (total - got) as int,
                ) + entries_here);
                if nxt < 2 || nxt >= EOF {
                    assert(chain_here == entries_here);
                    assert(full =~= out.deep_view().subrange(0, total as int));
                } else {
                    assert(chain_here == entries_here + rest);
                    assert(full =~= out.deep_view().subrange(0, total as int) + rest);
                }
                assert(total as int <= full.len());
                assert(full.subrange(0, total as int) =~= out.deep_view().subrange(
                    0,
                    total as int,
                ));
            }
                    return Err(e);
                },
            };
            proof {
                assert(next == spec_fat_entry(self.disk(), self.spec_fat_lba() as int, cl));
                assert(out.deep_view().subrange(0, total as int) =~= out.deep_view().subrange(
                    0,
                    (total - got) as int,
                ) + out.deep_view().subrange((total - got) as int, total as int));
            }
            if next < 2 || next >= EOF {
                proof {
                    assert(chain_here == entries_here);
                    assert(full =~= out.deep_view().subrange(0, total as int));
                    assert(out.deep_view().take(total as int) =~= out.deep_view().subrange(
                        0,
                        total as int,
                    ));
                }
                return Ok(total);
            }
            proof {
                assert(chain_here == entries_here + spec_dir_chain(
                    self.disk(),
                    self.spec_fat_lba() as int,
                    self.spec_first_data_lba() as int,
                    self.bpb.common.sectors_per_cluster as int,
                    tail0,
                    next,
                    out_len - total,
                    (fuel - 1) as nat,
                ));
                assert(full =~= out.deep_view().subrange(0, total as int) + spec_dir_chain(
                    self.disk(),
                    self.spec_fat_lba() as int,
                    self.spec_first_data_lba() as int,
                    self.bpb.common.sectors_per_cluster as int,
                    tail0,
                    next,
                    out_len - total,
                    (fuel - 1) as nat,
                ));
            }
            cl = next;
            fuel = fuel - 1;
            if fuel == 0 {
                proof {
                    assert(spec_dir_chain(
                        self.disk(),
                        self.spec_fat_lba() as int,
                        self.spec_first_data_lba() as int,
                        self.bpb.common.sectors_per_cluster as int,
                        tail0,
                        cl,
                        out_len - total,
                        0nat,
                    ) == Seq::<DirEntryModel>::empty());
                    assert(full =~= out.deep_view().subrange(0, total as int));
                    assert(out.deep_view().take(total as int) =~= out.deep_view().subrange(
                        0,
                        total as int,
                    ));
                }
                return Ok(total);
            }
        }
    }

    /// Enumerate the root directory: a chain walk from the boot sector's
    /// `root_cluster`.
    pub fn read_root_dir(
        &mut self,
        buf: &mut [u8],
        out: &mut [ShortDirEntry],
    ) -> (r: Result<usize, FsError>)
        requires
            old(self).wf(),
        ensures
            final(self).wf(),
            final(self).unchanged(old(self)),
            final(buf)@.len() == old(buf)@.len(),
            final(out)@.len() == old(out)@.len(),
            r == Err::<usize, FsError>(FsError::Parse) <==> old(buf)@.len() < old(
                self,
            ).spec_bpc(),
            r is Err ==> r->Err_0 == FsError::Parse || r->Err_0 == FsError::Io,
            old(self).bpb.common.sectors_per_cluster == 0 && old(out)@.len() == 0 ==> r is Ok,
            r is Err ==> ({
                let entries = old(self).spec_dir_chain_of(
                    old(buf)@.skip(old(self).spec_bpc()),
                    old(self).bpb.fat32.root_cluster,
                    old(out)@.len() as int,
                );
                exists|k: int|
                    0 <= k <= old(out)@.len() && k <= entries.len()
                        && final(out).deep_view().subrange(0, k) == entries.subrange(0, k) && (
                    forall|j: int| k <= j < old(out)@.len() ==> final(out)@[j] == old(out)@[j])
            }),
            r is Ok ==> ({
                let entries = old(self).spec_dir_chain_of(
                    old(buf)@.skip(old(self).spec_bpc()),
                    old(self).bpb.fat32.root_cluster,
                    old(out)@.len() as int,
                );
                &&& r->Ok_0 == entries.len()
                &&& final(out).deep_view().take(r->Ok_0 as int) == entries
                &&& (forall|k: int|
                    r->Ok_0 <= k < old(out)@.len() ==> final(out)@[k] == old(out)@[k])
            }),
    {
        let root = self.bpb.fat32.root_cluster;
        self.read_dir_chain(root, buf, out)
    }

    /// Read the contents of `entry`'s file into the front of `buf`,
    /// following its cluster chain, and return how many bytes were written:
    /// the lesser of the declared file size, the destination's length, and
    /// what the chain provides.  Cluster sizes beyond the internal scratch
    /// capacity of 4096 bytes are not supported and fail with `Parse`.
    pub fn read_file(&mut self, entry: &ShortDirEntry, buf: &mut [u8]) -> (r: Result<
        usize,
        FsError,
    >)
        requires
            old(self).wf(),
        ensures
            final(self).wf(),
            final(self).unchanged(old(self)),
            final(buf)@.len() == old(buf)@.len(),
            r is Err ==> r->Err_0 == FsError::Parse || r->Err_0 == FsError::Io,
            r == Err::<usize, FsError>(FsError::Parse) <==> (old(self).spec_bpc() > 4096
                && vstd::math::min(entry@.file_size as int, old(buf)@.len() as int) > 0 && 2
                <= entry@.first_cluster() && entry@.first_cluster() < EOF),
            vstd::math::min(entry@.file_size as int, old(buf)@.len() as int) == 0
                || entry@.first_cluster() < 2 || entry@.first_cluster() >= EOF ==> r == Ok::<
                usize,
                FsError,
            >(0) && final(buf)@ == old(buf)@,
            r is Ok ==> ({
                let budget = vstd::math::min(entry@.file_size as int, old(buf)@.len() as int);
                let content = old(self).spec_file_chain_of(entry@.first_cluster(), budget);
                &&& r->Ok_0 == content.len()
                &&& r->Ok_0 <= budget
                &&& final(buf)@.take(r->Ok_0 as int) == content
                &&& (forall|k: int|
                    r->Ok_0 <= k < old(buf)@.len() ==> final(buf)@[k] == old(buf)@[k])
            }),
    {
        let size = entry.file_size as usize;
        let buf_len = buf.len();
        let budget = if size < buf_len {
            size
        } else {
            buf_len
        };
        let mut cl = entry.first_cluster();
        if budget == 0 || cl < 2 || cl >= EOF {
            proof {
                assert(old(self).spec_file_chain_of(
                    entry@.first_cluster(),
                    vstd::math::min(entry@.file_size as int, old(buf)@.len() as int),
                ) == Seq::<u8>::empty());
                assert(buf@.take(0) =~= Seq::<u8>::empty());
            }
            return Ok(0);
        }
        let spc = self.bpb.common.sectors_per_cluster;
        let need = (spc as usize) * 512;
        let cap = if need > 4096 {
            4096
        } else {
            need
        };
        let mut tmp: Vec<u8> = vec![0u8; cap];
        let mut fat_buf: Vec<u8> = vec![0u8; 512];
        let mut off: usize = 0;
        let mut fuel: u32 = MAX_CHAIN_LEN;
        let ghost full = old(self).spec_file_chain_of(entry@.first_cluster(), budget as int);
        loop
            invariant
                self.wf(),
                self.unchanged(old(self)),
                spc == self.bpb.common.sectors_per_cluster,
                need == spc as int * 512,
                cap as int == vstd::math::min(need as int, 4096),
                tmp@.len() == cap,
                buf@.len() == old(buf)@.len(),
                buf_len == buf@.len(),
                budget == vstd::math::min(entry@.file_size as int, old(buf)@.len() as int),
                budget <= buf_len,
                off < budget,
                2 <= cl && cl < EOF,
                2 <= entry@.first_cluster() && entry@.first_cluster() < EOF,
                1 <= fuel <= MAX_CHAIN_LEN,
                full == old(self).spec_file_chain_of(entry@.first_cluster(), budget as int),
                full == buf@.take(off as int) + spec_file_chain(
                    self.disk(),
                    self.spec_fat_lba() as int,
                    self.spec_first_data_lba() as int,
                    spc as int,
                    cl,
                    budget - off,
                    fuel as nat,
                ),
                forall|k: int| off <= k < buf@.len() ==> buf@[k] == old(buf)@[k],
            decreases fuel,
        {
            let ghost pre = *self;
            let ghost pre_buf = buf@;
            let ghost chain_here = spec_file_chain(
                self.disk(),
                self.spec_fat_lba() as int,
                self.spec_first_data_lba() as int,
                spc as int,
                cl,
                budget - off,
                fuel as nat,
            );
            match self.read_cluster(cl, tmp.as_mut_slice()) {
                Ok(()) => {}
                Err(e) => {
                    return Err(e);
                },
            }
            proof {
                assert(cap == need);
                assert(tmp@ =~= pre.spec_cluster_data(cl));
                assert(pre.spec_cluster_data(cl) == spec_read_sectors(
                    self.disk(),
                    (cl - 2) * spc as int + self.spec_first_data_lba() as int,
                    spc as int,
                ));
            }
            let remain = budget - off;
            let to_copy = if remain < need {
                remain
            } else {
                need
            };
            copy_into(buf, off, tmp.as_slice(), to_copy);
            proof {
                assert(buf@.take(off as int) =~= pre_buf.take(off as int));
                assert(buf@.take((off + to_copy) as int) =~= buf@.take(off as int)
                    + buf@.subrange(off as int, (off + to_copy) as int));
                assert(buf@.take((off + to_copy) as int) == buf@.take(off as int) + tmp@.take(
                    to_copy as int,
                ));
            }
            off = off + to_copy;
            if off >= budget {
                proof {
                    assert(chain_here == tmp@.take((budget - (off - to_copy)) as int));
                    assert(full =~= buf@.take(off as int));
                }
                return Ok(off);
            }
            let next = match self.next_cluster(cl, fat_buf.as_mut_slice()) {
                Ok(v) => v,
                Err(e) => {
                    return Err(e);
                },
            };
            proof {
                assert(next == spec_fat_entry(self.disk(), self.spec_fat_lba() as int, cl));
                assert(to_copy == need);
                assert(tmp@.take(need as int) =~= tmp@);
            }
            if next < 2 || next >= EOF {
                proof {
                    assert(chain_here == tmp@);
                    assert(full =~= buf@.take(off as int));
                }
                return Ok(off);
            }
            proof {
                assert(chain_here == tmp@ + spec_file_chain(
                    self.disk(),
                    self.spec_fat_lba() as int,
                    self.spec_first_data_lba() as int,
                    spc as int,
                    next,
                    budget - off,
                    (fuel - 1) as nat,
                ));
                assert(full =~= buf@.take(off as int) + spec_file_chain(
                    self.disk(),
                    self.spec_fat_lba() as int,
                    self.spec_first_data_lba() as int,
                    spc as int,
                    next,
                    budget - off,
                    (fuel - 1) as nat,
                ));
            }
            cl = next;
            fuel = fuel - 1;
            if fuel == 0 {
                proof {
                    assert(spec_file_chain(
                        self.disk(),
                        self.spec_fat_lba() as int,
                        self.spec_first_data_lba() as int,
                        spc as int,
                        cl,
                        budget - off,
                        0nat,
                    ) == Seq::<u8>::empty());
                    assert(full =~= buf@.take(off as int));
                }
                return Ok(off);
            }
        }
    }
}

} // verus!
