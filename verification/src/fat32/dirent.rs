//! Short (8.3) directory-entry decoding, classification and scanning.

use vstd::prelude::*;

use crate::fat32::codec::{le16_at, le32_at, read_le16, read_le32};

verus! {

/// The attribute value marking a long-file-name continuation record.
pub const ATTR_LFN: u8 = 0x0F;

/// A short directory entry: a decoded 32-byte on-disk record.
#[derive(Debug, Clone, Copy, PartialEq, Eq)]
pub struct ShortDirEntry {
    /// 11 bytes: space-padded 8-byte name followed by 3-byte extension.
    pub name: [u8; 11],
    pub attr: u8,
    pub nt_res: u8,
    pub crt_time_tenth: u8,
    pub crt_time: u16,
    pub crt_date: u16,
    pub lst_acc_date: u16,
    pub fst_clus_hi: u16,
    pub wrt_time: u16,
    pub wrt_date: u16,
    pub fst_clus_lo: u16,
    pub file_size: u32,
}

/// The mathematical view of a directory entry.
#[verifier::ext_equal]
pub ghost struct DirEntryModel {
    pub name: Seq<u8>,
    pub attr: u8,
    pub nt_res: u8,
    pub crt_time_tenth: u8,
    pub crt_time: u16,
    pub crt_date: u16,
    pub lst_acc_date: u16,
    pub fst_clus_hi: u16,
    pub wrt_time: u16,
    pub wrt_date: u16,
    pub fst_clus_lo: u16,
    pub file_size: u32,
}

impl DirEntryModel {
    /// The record is unused and ends the directory listing.
    pub open spec fn is_unused(&self) -> bool {
        self.name[0] == 0
    }

    /// The record is a deleted entry and is skipped.
    pub open spec fn is_deleted(&self) -> bool {
        self.name[0] == 0xE5
    }

    /// The record is a long-file-name continuation and is skipped.
    pub open spec fn is_lfn(&self) -> bool {
        self.attr == ATTR_LFN
    }

    /// The record is kept by a directory scan.
    pub open spec fn is_kept(&self) -> bool {
        !self.is_unused() && !self.is_deleted() && !self.is_lfn()
    }

    /// The entry's first data cluster, combined from its two 16-bit halves.
    pub open spec fn first_cluster(&self) -> u32 {
        (self.fst_clus_hi as int * 0x10000 + self.fst_clus_lo as int) as u32
    }
}

impl View for ShortDirEntry {
    type V = DirEntryModel;

    open spec fn view(&self) -> DirEntryModel {
        DirEntryModel {
            name: self.name@,
            attr: self.attr,
            nt_res: self.nt_res,
            crt_time_tenth: self.crt_time_tenth,
            crt_time: self.crt_time,
            crt_date: self.crt_date,
            lst_acc_date: self.lst_acc_date,
            fst_clus_hi: self.fst_clus_hi,
            wrt_time: self.wrt_time,
            wrt_date: self.wrt_date,
            fst_clus_lo: self.fst_clus_lo,
            file_size: self.file_size,
        }
    }
}

impl DeepView for ShortDirEntry {
    type V = DirEntryModel;

    open spec fn deep_view(&self) -> DirEntryModel {
        self@
    }
}

/// The directory record stored at byte offset `off` of `s`.
pub open spec fn spec_decode_entry(s: Seq<u8>, off: int) -> DirEntryModel
    recommends
        0 <= off,
        off + 32 <= s.len(),
{
    DirEntryModel {
        name: s.subrange(off, off + 11),
        attr: s[off + 11],
        nt_res: s[off + 12],
        crt_time_tenth: s[off + 13],
        crt_time: le16_at(s, off + 14),
        crt_date: le16_at(s, off + 16),
        lst_acc_date: le16_at(s, off + 18),
        fst_clus_hi: le16_at(s, off + 20),
        wrt_time: le16_at(s, off + 22),
        wrt_date: le16_at(s, off + 24),
        fst_clus_lo: le16_at(s, off + 26),
        file_size: le32_at(s, off + 28),
    }
}

/// `s` with its trailing spaces removed; nothing else changes.
pub open spec fn spec_trim_spaces(s: Seq<u8>) -> Seq<u8>
    decreases s.len(),
{
    if s.len() > 0 && s[s.len() - 1] == 32 {
        spec_trim_spaces(s.drop_last())
    } else {
        s
    }
}

impl ShortDirEntry {
    /// The record is unused: the logical end of the directory.
    #[inline]
    pub fn is_unused(&self) -> (r: bool)
        ensures
            r == self@.is_unused(),
    {
        self.name[0] == 0x00
    }

    /// The record is a deleted entry.
    #[inline]
    pub fn is_deleted(&self) -> (r: bool)
        ensures
            r == self@.is_deleted(),
    {
        self.name[0] == 0xE5
    }

    /// The record is a long-file-name continuation record.
    #[inline]
    pub fn is_lfn(&self) -> (r: bool)
        ensures
            r == self@.is_lfn(),
    {
        self.attr == ATTR_LFN
    }

    /// The first data cluster of the entry: `(hi << 16) | lo`.
    #[inline]
    pub fn first_cluster(&self) -> (r: u32)
        ensures
            r == self@.first_cluster(),
    {
        self.fst_clus_hi as u32 * 0x10000 + self.fst_clus_lo as u32
    }

    /// The 8-byte name part and the 3-byte extension part, each with its
    /// trailing space padding stripped from the right only.
    pub fn short_name(&self) -> (r: (&[u8], &[u8]))
        ensures
            r.0@ == spec_trim_spaces(self.name@.subrange(0, 8)),
            r.1@ == spec_trim_spaces(self.name@.subrange(8, 11)),
    {
        let name = trim_space(&self.name[0..8]);
        let ext = trim_space(&self.name[8..11]);
        (name, ext)
    }
}

/// The longest prefix of `slice` that drops only trailing spaces.
fn trim_space(slice: &[u8]) -> (r: &[u8])
    ensures
        r@ == spec_trim_spaces(slice@),
{
    let mut end: usize = slice.len();
    proof {
        assert(slice@.take(end as int) =~= slice@);
    }
    while end > 0 && slice[end - 1] == 32
        invariant
            end <= slice@.len(),
            spec_trim_spaces(slice@) == spec_trim_spaces(slice@.take(end as int)),
        decreases end,
    {
        proof {
            assert(slice@.take(end as int).drop_last() =~= slice@.take(end - 1));
        }
        end = end - 1;
    }
    &slice[0..end]
}

/// The entries a scan of the records of `s` returns, starting at byte offset
/// `off` and keeping at most `max` of them: classification stops at an
/// unused record, skips deleted and long-name records, and keeps the rest,
/// in the order scanned.
pub open spec fn spec_scan_dir(s: Seq<u8>, off: int, max: int) -> Seq<DirEntryModel>
    decreases s.len() - off,
{
    if max <= 0 || off < 0 || off + 32 > s.len() {
        Seq::empty()
    } else {
        let e = spec_decode_entry(s, off);
        if e.is_unused() {
            Seq::empty()
        } else if e.is_deleted() || e.is_lfn() {
            spec_scan_dir(s, off + 32, max)
        } else {
            seq![e] + spec_scan_dir(s, off + 32, max - 1)
        }
    }
}

/// Decode the 32-byte directory record at byte offset `off` of `buf`.
pub fn decode_dir_entry(buf: &[u8], off: usize) -> (e: ShortDirEntry)
    requires
        off + 32 <= buf@.len(),
    ensures
        e@ == spec_decode_entry(buf@, off as int),
{
    let n = buf.len();
    let mut name = [0u8; 11];
    let mut i: usize = 0;
    while i < 11
        invariant
            i <= 11,
            n == buf@.len(),
            off + 32 <= n,
            forall|k: int| 0 <= k < i ==> name@[k] == buf@[off + k],
        decreases 11 - i,
    {
        name[i] = buf[off + i];
        i = i + 1;
    }
    let e = ShortDirEntry {
        name,
        attr: buf[off + 11],
        nt_res: buf[off + 12],
        crt_time_tenth: buf[off + 13],
        crt_time: read_le16(buf, off + 14),
        crt_date: read_le16(buf, off + 16),
        lst_acc_date: read_le16(buf, off + 18),
        fst_clus_hi: read_le16(buf, off + 20),
        wrt_time: read_le16(buf, off + 22),
        wrt_date: read_le16(buf, off + 24),
        fst_clus_lo: read_le16(buf, off + 26),
        file_size: read_le32(buf, off + 28),
    };
    proof {
        assert(e@.name =~= spec_decode_entry(buf@, off as int).name);
        assert(e@ =~= spec_decode_entry(buf@, off as int));
    }
    e
}

/// Scan the 32-byte records of `buf` from offset 0, writing the kept
/// entries into `out[start..]`, and return how many were written.  The scan
/// ends at an unused record, when `out` is full, or when the records are
/// exhausted.
pub fn scan_records(buf: &[u8], out: &mut [ShortDirEntry], start: usize) -> (count: usize)
    requires
        start <= old(out)@.len(),
    ensures
        final(out)@.len() == old(out)@.len(),
        start + count <= old(out)@.len(),
        count == spec_scan_dir(buf@, 0, old(out)@.len() - start).len(),
        final(out).deep_view().subrange(start as int, (start + count) as int) == spec_scan_dir(
            buf@,
            0,
            old(out)@.len() - start,
        ),
        forall|k: int| 0 <= k < start ==> final(out)@[k] == old(out)@[k],
        forall|k: int| start + count <= k < old(out)@.len() ==> final(out)@[k] == old(out)@[k],
{
    let out_len = out.len();
    let max = out_len - start;
    let ghost max0 = max as int;
    let mut count: usize = 0;
    let mut off: usize = 0;
    loop
        invariant
            out_len == out@.len(),
            start + max == out_len,
            out@.len() == old(out)@.len(),
            count <= max,
            max0 == max as int,
            off <= buf@.len(),
            spec_scan_dir(buf@, 0, max0) == out.deep_view().subrange(
                start as int,
                (start + count) as int,
            ) + spec_scan_dir(buf@, off as int, max0 - count),
            forall|k: int| 0 <= k < start ==> out@[k] == old(out)@[k],
            forall|k: int| start + count <= k < out@.len() ==> out@[k] == old(out)@[k],
        ensures
            out_len == out@.len(),
            start + max == out_len,
            out@.len() == old(out)@.len(),
            count <= max,
            max0 == max as int,
            forall|k: int| 0 <= k < start ==> out@[k] == old(out)@[k],
            forall|k: int| start + count <= k < out@.len() ==> out@[k] == old(out)@[k],
            spec_scan_dir(buf@, 0, max0) == out.deep_view().subrange(
                start as int,
                (start + count) as int,
            ) + spec_scan_dir(buf@, off as int, max0 - count),
            spec_scan_dir(buf@, off as int, max0 - count) == Seq::<DirEntryModel>::empty(),
        decreases buf@.len() - off,
    {
        if count >= max {
            proof {
                assert(spec_scan_dir(buf@, off as int, max0 - count) =~= Seq::<
                    DirEntryModel,
                >::empty());
            }
            break ;
        }
        if buf.len() < 32 || off > buf.len() - 32 {
            proof {
                assert(spec_scan_dir(buf@, off as int, max0 - count) =~= Seq::<
                    DirEntryModel,
                >::empty());
            }
            break ;
        }
        let e = decode_dir_entry(buf, off);
        if e.is_unused() {
            proof {
                assert(spec_scan_dir(buf@, off as int, max0 - count) =~= Seq::<
                    DirEntryModel,
                >::empty());
            }
            break ;
        }
        if !e.is_deleted() && !e.is_lfn() {
            let ghost pre = out.deep_view();
            out[start + count] = e;
            proof {
                assert(out.deep_view() =~= pre.update((start + count) as int, e@));
                assert(out.deep_view().subrange(start as int, (start + count + 1) as int)
                    =~= pre.subrange(start as int, (start + count) as int) + seq![e@]);
                assert(spec_scan_dir(buf@, off as int, max0 - count) == seq![e@]
                    + spec_scan_dir(buf@, off + 32, max0 - count - 1));
                assert((pre.subrange(start as int, (start + count) as int) + seq![e@])
                    + spec_scan_dir(buf@, off + 32, max0 - count - 1) =~= pre.subrange(
                    start as int,
                    (start + count) as int,
                ) + (seq![e@] + spec_scan_dir(buf@, off + 32, max0 - count - 1)));
            }
            count = count + 1;
        } else {
            proof {
                assert(spec_scan_dir(buf@, off as int, max0 - count) == spec_scan_dir(
                    buf@,
                    off + 32,
                    max0 - count,
                ));
            }
        }
        off = off + 32;
    }
    proof {
        assert(spec_scan_dir(buf@, 0, max0) =~= out.deep_view().subrange(
            start as int,
            (start + count) as int,
        ));
    }
    count
}

/// Law: directory scanning is deterministic, idempotent and
/// order-preserving — scanning the same record bytes twice, with the same
/// room, yields the same entries in the same order.
pub proof fn lemma_scan_deterministic(s1: Seq<u8>, s2: Seq<u8>, max: int)
    requires
        s1 == s2,
    ensures
        spec_scan_dir(s1, 0, max) == spec_scan_dir(s2, 0, max),
{
}

/// Law: a scan returns only kept short entries — never an unused, deleted
/// or long-name record.
pub proof fn lemma_scan_excludes_markers(s: Seq<u8>, off: int, max: int)
    ensures
        forall|k: int|
            0 <= k < spec_scan_dir(s, off, max).len() ==> (#[trigger] spec_scan_dir(
                s,
                off,
                max,
            )[k]).is_kept(),
    decreases s.len() - off,
{
    if max <= 0 || off < 0 || off + 32 > s.len() {
    } else {
        let e = spec_decode_entry(s, off);
        if e.is_unused() {
        } else if e.is_deleted() || e.is_lfn() {
            lemma_scan_excludes_markers(s, off + 32, max);
            assert(spec_scan_dir(s, off, max) == spec_scan_dir(s, off + 32, max));
            assert forall|k: int| 0 <= k < spec_scan_dir(s, off, max).len() implies (
            #[trigger] spec_scan_dir(s, off, max)[k]).is_kept() by {
                assert(spec_scan_dir(s, off + 32, max)[k].is_kept());
            }
        } else {
            lemma_scan_excludes_markers(s, off + 32, max - 1);
            let rest = spec_scan_dir(s, off + 32, max - 1);
            assert(spec_scan_dir(s, off, max) == seq![e] + rest);
            assert forall|k: int| 0 <= k < spec_scan_dir(s, off, max).len() implies (
            #[trigger] spec_scan_dir(s, off, max)[k]).is_kept() by {
                if k == 0 {
                    assert((seq![e] + rest)[0] == e);
                } else {
                    assert((seq![e] + rest)[k] == rest[k - 1]);
                    assert(rest[k - 1].is_kept());
                }
            }
        }
    }
}

/// The records of `t` agree with those of `s` on their first `n` bytes.
proof fn lemma_decode_prefix_agrees(s: Seq<u8>, n: int, off: int)
    requires
        0 <= off,
        off + 32 <= n <= s.len(),
    ensures
        spec_decode_entry(s.take(n), off) == spec_decode_entry(s, off),
{
    assert(spec_decode_entry(s.take(n), off).name =~= spec_decode_entry(s, off).name);
    assert(spec_decode_entry(s.take(n), off) =~= spec_decode_entry(s, off));
}

/// Law: an unused record strictly terminates enumeration.  If the record at
/// index `j` is unused, the bytes at and after it contribute nothing: the
/// scan equals the scan of the bytes before that record alone, whatever
/// follows.
pub proof fn lemma_unused_ends_scan(s: Seq<u8>, off: int, max: int, j: int)
    requires
        0 <= off,
        0 <= j,
        off + 32 * j + 32 <= s.len(),
        spec_decode_entry(s, off + 32 * j).is_unused(),
    ensures
        spec_scan_dir(s, off, max) == spec_scan_dir(s.take(off + 32 * j), off, max),
    decreases j,
{
    let t = s.take(off + 32 * j);
    if max <= 0 {
    } else if j == 0 {
        assert(spec_scan_dir(s, off, max) =~= Seq::<DirEntryModel>::empty());
        assert(spec_scan_dir(t, off, max) =~= Seq::<DirEntryModel>::empty());
    } else {
        lemma_decode_prefix_agrees(s, off + 32 * j, off);
        let e = spec_decode_entry(s, off);
        assert(off + 32 + 32 * (j - 1) == off + 32 * j);
        if e.is_unused() {
        } else if e.is_deleted() || e.is_lfn() {
            lemma_unused_ends_scan(s, off + 32, max, j - 1);
        } else {
            lemma_unused_ends_scan(s, off + 32, max - 1, j - 1);
        }
    }
}

/// Law: a deleted or long-name record is excluded from the output but does
/// not terminate enumeration — the scan continues with the next record.
pub proof fn lemma_skipped_record_continues(s: Seq<u8>, off: int, max: int)
    requires
        0 <= off,
        off + 32 <= s.len(),
        max > 0,
        !spec_decode_entry(s, off).is_unused(),
        spec_decode_entry(s, off).is_deleted() || spec_decode_entry(s, off).is_lfn(),
    ensures
        spec_scan_dir(s, off, max) == spec_scan_dir(s, off + 32, max),
{
}

/// Law: trimming strips exactly the trailing spaces: the result is the
/// prefix of `s` that remains after the final run of spaces, it never ends
/// in a space itself, and every byte it drops is a space.
pub proof fn lemma_trim_spaces(s: Seq<u8>)
    ensures
        spec_trim_spaces(s).len() <= s.len(),
        spec_trim_spaces(s) == s.take(spec_trim_spaces(s).len() as int),
        spec_trim_spaces(s).len() > 0 ==> spec_trim_spaces(s)[spec_trim_spaces(s).len() - 1]
            != 32,
        forall|k: int| spec_trim_spaces(s).len() <= k < s.len() ==> s[k] == 32,
    decreases s.len(),
{
    if s.len() > 0 && s[s.len() - 1] == 32 {
        lemma_trim_spaces(s.drop_last());
        assert(s.drop_last().take(spec_trim_spaces(s).len() as int) =~= s.take(
            spec_trim_spaces(s).len() as int,
        ));
        assert forall|k: int| spec_trim_spaces(s).len() <= k < s.len() implies s[k] == 32 by {
            if k < s.len() - 1 {
                assert(s.drop_last()[k] == s[k]);
            }
        }
    } else {
        assert(s.take(s.len() as int) =~= s);
    }
}

} // verus!