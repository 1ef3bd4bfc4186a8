//! The classic Master Boot Record partition table.
//!
//! A single 512-byte sector: a 32-bit disk signature at offset 440, up to four
//! 16-byte partition entries at offset 446, and the boot signature `0x55 0xAA`.
//! Each entry holds both a CHS address, under a fixed geometry of 16 heads and
//! 63 sectors per track, and a 32-bit LBA address.
use vstd::prelude::*;

use crate::bytes::{le_bytes, push_le, push_zeros, zeros};
use crate::layout::{
    build_layout, layout_outcome, outcome_of, ranges_of, LayoutError, PartitionLayout,
    PartitionLayoutHint,
};
use crate::round::div_round_up;

verus! {

/// Size of a logical block in bytes.
pub const LBA_SIZE: usize = 512;

/// Heads per cylinder of the fixed CHS geometry.
pub const MBR_HEADS_PER_CYLINDER: usize = 16;

/// Sectors per track of the fixed CHS geometry.
pub const MBR_SECTORS_PER_TRACK: usize = 63;

/// Number of partition entries an MBR holds.
pub const MBR_MAX_PARTITIONS: usize = 4;

/// Offset in the sector of the disk signature.
pub const MBR_DISK_ID_OFFSET_BYTES: usize = 440;

/// Offset in the sector of the first partition entry.
pub const MBR_PART_ENTRY_OFFSET_BYTES: usize = 446;

/// Size of one partition entry in bytes.
pub const MBR_PART_ENTRY_SIZE_BYTES: usize = 16;

/// Builder of one MBR partition entry.
#[derive(Clone, Copy, Debug)]
pub struct MasterBootRecordPartitionBuilder {
    /// The one-byte partition type code.
    pub part_type: u8,
    /// Fixed first LBA, if any.
    pub offset_lba: Option<usize>,
    /// Fixed size in LBAs, if any.
    pub size_lba: Option<usize>,
    /// Whether the boot flag is set.
    pub bootable: bool,
}

/// One MBR partition entry, ready to be placed in a table.
#[derive(Clone, Copy, Debug)]
pub struct MasterBootRecordPartition {
    /// The one-byte partition type code.
    pub part_type: u8,
    /// Fixed first LBA, if any.
    pub offset_lba: Option<usize>,
    /// Fixed size in LBAs, if any.
    pub size_lba: Option<usize>,
    /// Whether the boot flag is set.
    pub bootable: bool,
}

impl MasterBootRecordPartitionBuilder {
    /// A partition of type `part_type`, with no fixed offset or size, not bootable.
    pub fn new(part_type: u8) -> (r: Self)
        ensures
            r.part_type == part_type,
            r.offset_lba is None,
            r.size_lba is None,
            !r.bootable,
    {
        MasterBootRecordPartitionBuilder {
            part_type,
            offset_lba: None,
            size_lba: None,
            bootable: false,
        }
    }

    /// Fixes the first LBA of the partition; it is used exactly as given.
    pub fn offset(self, offset: usize) -> (r: Self)
        ensures
            r.offset_lba == Some(offset),
            r.part_type == self.part_type,
            r.size_lba == self.size_lba,
            r.bootable == self.bootable,
    {
        let mut s = self;
        s.offset_lba = Some(offset);
        s
    }

    /// Fixes the size of the partition in bytes, rounded up to whole LBAs.
    pub fn size(self, size: usize) -> (r: Self)
        ensures
            r.size_lba == Some(((size + LBA_SIZE - 1) / LBA_SIZE as int) as usize),
            r.part_type == self.part_type,
            r.offset_lba == self.offset_lba,
            r.bootable == self.bootable,
    {
        let mut s = self;
        s.size_lba = Some(div_round_up(size, LBA_SIZE));
        s
    }

    /// Sets or clears the boot flag.
    pub fn bootable(self, val: bool) -> (r: Self)
        ensures
            r.bootable == val,
            r.part_type == self.part_type,
            r.offset_lba == self.offset_lba,
            r.size_lba == self.size_lba,
    {
        let mut s = self;
        s.bootable = val;
        s
    }

    /// The partition this builder describes.
    pub fn build(self) -> (r: MasterBootRecordPartition)
        ensures
            r.part_type == self.part_type,
            r.offset_lba == self.offset_lba,
            r.size_lba == self.size_lba,
            r.bootable == self.bootable,
    {
        MasterBootRecordPartition {
            part_type: self.part_type,
            offset_lba: self.offset_lba,
            size_lba: self.size_lba,
            bootable: self.bootable,
        }
    }
}

/// Builder of an MBR partition table.
#[derive(Debug)]
pub struct MasterBootRecordPartitionTableBuilder {
    /// The partitions, in on-disk order.
    pub partitions: Vec<MasterBootRecordPartition>,
}

/// An MBR partition table: the ordered partitions it will hold.
#[derive(Debug)]
pub struct MasterBootRecordPartitionTable {
    /// The partitions, in on-disk order.
    pub partitions: Vec<MasterBootRecordPartition>,
}

impl MasterBootRecordPartitionTableBuilder {
    /// A table without partitions.
    pub fn new() -> (r: Self)
        ensures
            r.partitions@ == Seq::<MasterBootRecordPartition>::empty(),
    {
        MasterBootRecordPartitionTableBuilder { partitions: Vec::new() }
    }

    /// Appends a partition to the table.
    pub fn add_partition(self, part: MasterBootRecordPartition) -> (r: Self)
        ensures
            r.partitions@ == self.partitions@.push(part),
    {
        let mut s = self;
        s.partitions.push(part);
        s
    }

    /// The table this builder describes.
    pub fn build(self) -> (r: MasterBootRecordPartitionTable)
        ensures
            r.partitions@ == self.partitions@,
    {
        MasterBootRecordPartitionTable { partitions: self.partitions }
    }
}

impl Default for MasterBootRecordPartitionTableBuilder {
    fn default() -> (r: Self)
        ensures
            r.partitions@ == Seq::<MasterBootRecordPartition>::empty(),
    {
        Self::new()
    }
}

/// The layout hints of MBR partitions.
pub open spec fn mbr_hints(parts: Seq<MasterBootRecordPartition>) -> Seq<PartitionLayoutHint> {
    Seq::new(
        parts.len(),
        |i: int| PartitionLayoutHint { offset_lba: parts[i].offset_lba, size_lba: parts[i].size_lba },
    )
}

/// The three CHS bytes of an LBA: head, then sector with the two high cylinder
/// bits on top, then the low cylinder byte; `FF FF FF` once the cylinder no
/// longer fits in ten bits.
pub open spec fn chs_bytes(lba: int) -> Seq<u8> {
    let c = lba / (MBR_HEADS_PER_CYLINDER * MBR_SECTORS_PER_TRACK) as int;
    let h = (lba / MBR_SECTORS_PER_TRACK as int) % MBR_HEADS_PER_CYLINDER as int;
    let s = lba % MBR_SECTORS_PER_TRACK as int + 1;
    if c > 1023 {
        seq![0xffu8, 0xffu8, 0xffu8]
    } else {
        seq![h as u8, ((c / 256) * 64 + s) as u8, (c % 256) as u8]
    }
}

/// `v`, or `u32::MAX` when `v` does not fit in 32 bits.
pub open spec fn clamp_u32(v: int) -> nat {
    if v > u32::MAX {
        u32::MAX as nat
    } else {
        v as nat
    }
}

/// The 16 bytes of the entry of partition `p` over the inclusive range `range`.
pub open spec fn mbr_entry(p: MasterBootRecordPartition, range: (int, int)) -> Seq<u8> {
    seq![if p.bootable { 0x80u8 } else { 0u8 }] + chs_bytes(range.0) + seq![p.part_type] + chs_bytes(
        range.1,
    ) + le_bytes(clamp_u32(range.0), 4) + le_bytes(clamp_u32(range.1 - range.0 + 1), 4)
}

/// The entries of the first `k` partitions, back to back.
pub open spec fn mbr_entries(
    parts: Seq<MasterBootRecordPartition>,
    ranges: Seq<(int, int)>,
    k: int,
) -> Seq<u8>
    decreases k,
{
    if k <= 0 {
        Seq::empty()
    } else {
        mbr_entries(parts, ranges, k - 1) + mbr_entry(parts[k - 1], ranges[k - 1])
    }
}

/// The whole 512-byte sector of a table with signature `disk_id`.
pub open spec fn mbr_sector(
    disk_id: u32,
    parts: Seq<MasterBootRecordPartition>,
    ranges: Seq<(int, int)>,
) -> Seq<u8> {
    zeros(MBR_DISK_ID_OFFSET_BYTES as nat) + le_bytes(disk_id as nat, 4) + zeros(2)
        + mbr_entries(parts, ranges, parts.len() as int) + zeros(
        (MBR_PART_ENTRY_SIZE_BYTES * (MBR_MAX_PARTITIONS - parts.len())) as nat,
    ) + seq![0x55u8, 0xaau8]
}

/// Relies on rand::random: a 32-bit value from the thread-local generator. Nothing
/// is known of the value.
#[verifier::external_body]
pub(crate) fn random_u32() -> u32 {
    rand::random::<u32>()
}

/// Cylinder, head and sector of an LBA under the fixed geometry.
pub fn lba_to_chs(lba: usize) -> (r: (usize, u8, u8))
    ensures
        r.0 == lba as int / (MBR_HEADS_PER_CYLINDER * MBR_SECTORS_PER_TRACK) as int,
        r.1 == (lba as int / MBR_SECTORS_PER_TRACK as int) % MBR_HEADS_PER_CYLINDER as int,
        r.2 == lba as int % MBR_SECTORS_PER_TRACK as int + 1,
{
    let c = lba / (MBR_HEADS_PER_CYLINDER * MBR_SECTORS_PER_TRACK);
    let h = ((lba / MBR_SECTORS_PER_TRACK) % MBR_HEADS_PER_CYLINDER) as u8;
    let s = ((lba % MBR_SECTORS_PER_TRACK) + 1) as u8;
    (c, h, s)
}

/// Appends the three CHS bytes of `lba`.
fn push_chs(out: &mut Vec<u8>, lba: usize)
    ensures
        final(out)@ == old(out)@ + chs_bytes(lba as int),
{
    let (c, h, s) = lba_to_chs(lba);
    if c > 1023 {
        out.push(0xff);
        out.push(0xff);
        out.push(0xff);
    } else {
        out.push(h);
        out.push(((c / 256) * 64) as u8 + s);
        out.push((c % 256) as u8);
    }
    proof {
        assert(final(out)@ =~= old(out)@ + chs_bytes(lba as int));
    }
}

/// `v`, or `u32::MAX` when `v` does not fit in 32 bits.
fn clamp_to_u32(v: usize) -> (r: u32)
    ensures
        r == clamp_u32(v as int),
{
    if v > u32::MAX as usize {
        u32::MAX
    } else {
        v as u32
    }
}

/// Appends the entry of partition `p` over the range of `l`.
fn push_entry(out: &mut Vec<u8>, p: &MasterBootRecordPartition, l: &PartitionLayout)
    requires
        l.start_lba <= l.end_lba,
    ensures
        final(out)@ == old(out)@ + mbr_entry(*p, (l.start_lba as int, l.end_lba as int)),
        final(out)@.len() == old(out)@.len() + MBR_PART_ENTRY_SIZE_BYTES,
{
    let ghost start = old(out)@;
    out.push(if p.bootable { 0x80u8 } else { 0u8 });
    push_chs(out, l.start_lba);
    out.push(p.part_type);
    push_chs(out, l.end_lba);
    push_le(out, clamp_to_u32(l.start_lba) as u64, 4);
    let size = l.end_lba - l.start_lba;
    let count = if size >= u32::MAX as usize {
        u32::MAX
    } else {
        (size + 1) as u32
    };
    proof {
        assert(count == clamp_u32(l.end_lba - l.start_lba + 1));
    }
    push_le(out, count as u64, 4);
    proof {
        assert(out@ =~= start + mbr_entry(*p, (l.start_lba as int, l.end_lba as int)));
    }
}

impl MasterBootRecordPartitionTable {
    /// Resolves the partitions within `1..=blocks - 1`, the device after the boot sector.
    pub fn build_table_layout(&self, blocks: usize) -> (r: Result<Vec<PartitionLayout>, LayoutError>)
        ensures
            outcome_of(r) == layout_outcome(1, blocks - 1, mbr_hints(self.partitions@)),
            r matches Ok(v) ==> {
                &&& v.len() == self.partitions.len()
                &&& forall|i: int|
                    0 <= i < v.len() ==> 1 <= (#[trigger] v[i]).start_lba <= v[i].end_lba
                        < blocks
            },
    {
        if blocks < 2 {
            return Err(LayoutError::DeviceTooSmall);
        }
        let mut hints: Vec<PartitionLayoutHint> = Vec::new();
        let mut i: usize = 0;
        while i < self.partitions.len()
            invariant
                i <= self.partitions.len(),
                hints@ == mbr_hints(self.partitions@).take(i as int),
            decreases self.partitions.len() - i,
        {
            let p = self.partitions[i];
            hints.push(PartitionLayoutHint { offset_lba: p.offset_lba, size_lba: p.size_lba });
            i = i + 1;
            proof {
                assert(hints@ =~= mbr_hints(self.partitions@).take(i as int));
            }
        }
        proof {
            assert(hints@ =~= mbr_hints(self.partitions@));
        }
        build_layout(1, blocks - 1, hints.as_slice())
    }

    /// The 512-byte sector of this table on a device of `blocks` LBAs, with disk
    /// signature `disk_id`; or why the partitions have no layout there.
    pub fn sector_with_disk_id(&self, blocks: usize, disk_id: u32) -> (r: Result<
        Vec<u8>,
        LayoutError,
    >)
        requires
            self.partitions.len() <= MBR_MAX_PARTITIONS,
        ensures
            match r {
                Ok(b) => layout_outcome(1, blocks - 1, mbr_hints(self.partitions@)) matches Ok(s)
                    && b@ == mbr_sector(disk_id, self.partitions@, s),
                Err(e) => layout_outcome(1, blocks - 1, mbr_hints(self.partitions@)) == Err::<
                    Seq<(int, int)>,
                    LayoutError,
                >(e),
            },
            r matches Ok(b) ==> b@.len() == LBA_SIZE,
    {
        let layout = match self.build_table_layout(blocks) {
            Ok(v) => v,
            Err(e) => return Err(e),
        };
        let ghost s = ranges_of(layout@);
        let ghost parts = self.partitions@;
        let mut out: Vec<u8> = Vec::new();
        push_zeros(&mut out, MBR_DISK_ID_OFFSET_BYTES);
        push_le(&mut out, disk_id as u64, 4);
        push_zeros(&mut out, 2);
        let ghost head = out@;
        let n = self.partitions.len();
        let mut i: usize = 0;
        while i < n
            invariant
                i <= n,
                n == parts.len(),
                parts == self.partitions@,
                layout.len() == n,
                s == ranges_of(layout@),
                forall|j: int|
                    0 <= j < layout.len() ==> (#[trigger] layout[j]).start_lba <= layout[j].end_lba,
                out@ == head + mbr_entries(parts, s, i as int),
                out@.len() == 446 + 16 * i,
            decreases n - i,
        {
            push_entry(&mut out, &self.partitions[i], &layout[i]);
            proof {
                assert(s[i as int] == (layout[i as int].start_lba as int, layout[i as int].end_lba as int));
                assert(out@ =~= head + mbr_entries(parts, s, i + 1));
            }
            i = i + 1;
        }
        push_zeros(&mut out, MBR_PART_ENTRY_SIZE_BYTES * (MBR_MAX_PARTITIONS - n));
        out.push(0x55);
        out.push(0xaa);
        proof {
            assert(out@ =~= mbr_sector(disk_id, parts, s));
        }
        Ok(out)
    }

    /// The 512-byte sector of this table on a device of `blocks` LBAs, with a
    /// random disk signature; or why the partitions have no layout there.
    pub fn sector(&self, blocks: usize) -> (r: Result<Vec<u8>, LayoutError>)
        requires
            self.partitions.len() <= MBR_MAX_PARTITIONS,
        ensures
            match r {
                Ok(b) => layout_outcome(1, blocks - 1, mbr_hints(self.partitions@)) matches Ok(s)
                    && exists|id: u32| b@ == #[trigger] mbr_sector(id, self.partitions@, s),
                Err(e) => layout_outcome(1, blocks - 1, mbr_hints(self.partitions@)) == Err::<
                    Seq<(int, int)>,
                    LayoutError,
                >(e),
            },
    {
        let disk_id = random_u32();
        let r = self.sector_with_disk_id(blocks, disk_id);
        proof {
            if let Ok(b) = &r {
                if let Ok(s) = layout_outcome(1, blocks - 1, mbr_hints(self.partitions@)) {
                    assert(b@ == mbr_sector(disk_id, self.partitions@, s));
                }
            }
        }
        r
    }
}

} // verus!
