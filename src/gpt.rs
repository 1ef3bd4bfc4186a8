//! The GUID Partition Table.
//!
//! LBA 0 holds a protective MBR, LBA 1 the primary header and LBAs 2 to 33 the
//! primary entry array of 128 entries of 128 bytes. The backup entry array fills
//! the 32 LBAs before the last one, which holds the backup header. Both headers
//! carry a CRC-32 of themselves and of the entry array.
use vstd::prelude::*;

use crate::bytes::{
    le_bytes, le_value, lemma_le_bytes_len, lemma_le_round_trip, lemma_pow256_8, push_le,
    push_zeros, zeros,
};
use crate::guid::{guid_mixed, push_guid, Guid};
use crate::layout::{
    build_layout, lemma_layout_in_bounds, first_unsized, first_unsized_from, layout_outcome, layout_valid, outcome_of,
    ranges_of, resolved_end, resolved_start, unsized_count, LayoutError, PartitionLayout,
    PartitionLayoutHint,
};
use crate::mbr::{
    mbr_hints, mbr_sector, random_u32, MasterBootRecordPartition, MasterBootRecordPartitionTable,
    LBA_SIZE,
};
use crate::round::div_round_up;

verus! {

/// `"EFI PART"` read as a little-endian 64-bit integer.
pub const GPT_SIGNATURE_HEADER: u64 = 0x5452_4150_2049_4645;

/// Header revision 1.0.
pub const GPT_VERSION_HEADER: u32 = 0x0001_0000;

/// Size of the header in bytes.
pub const GPT_HEADER_SIZE_BYTES: usize = 92;

/// Number of entries in each entry array.
pub const GPT_PARTITION_NUM: usize = 128;

/// Size of one entry in bytes.
pub const GPT_PARTITION_ENTRY_SIZE: usize = 128;

/// Number of UTF-16 code units in an entry's name field.
pub const GPT_NAME_UNITS: usize = 36;

/// Number of LBAs of each entry array.
pub const GPT_PARTITION_ARRAY_SIZE_LBA: usize = 32;

/// LBA of the primary header.
pub const GPT_PRIMARY_HEADER_LBA: usize = 1;

/// LBA of the primary entry array.
pub const GPT_PRIMARY_ARRAY_LBA: usize = 2;

/// First LBA that partitions may use.
pub const GPT_FIRST_USABLE_LBA: usize = 34;

/// LBAs reserved for the protective MBR, both headers and both entry arrays.
pub const GPT_OVERHEAD_LBA: usize = 67;

/// Attribute flags of a GPT partition.
#[derive(Clone, Copy, Debug)]
pub struct GptAttributes {
    /// The platform requires the partition to function (bit 0).
    pub platform_required: bool,
    /// EFI firmware ignores the partition (bit 1).
    pub efi_ignore: bool,
    /// Legacy BIOS may boot from the partition (bit 2).
    pub bootable: bool,
}

/// The 64-bit attribute field of `a`.
pub open spec fn attribute_bits(a: GptAttributes) -> nat {
    (if a.platform_required { 1nat } else { 0nat }) + (if a.efi_ignore { 2nat } else { 0nat }) + (
    if a.bootable { 4nat } else { 0nat })
}

/// Builder of one GPT partition entry.
#[derive(Clone, Debug)]
pub struct GuidPartitionBuilder {
    /// The partition type GUID.
    pub part_type: Guid,
    /// The unique partition GUID.
    pub guid: Guid,
    /// The name as UTF-16 code units; only the first 36 are written.
    pub name: Vec<u16>,
    /// Fixed first LBA, if any.
    pub offset_lba: Option<usize>,
    /// Fixed size in LBAs, if any.
    pub size_lba: Option<usize>,
    /// The attribute flags.
    pub attributes: GptAttributes,
}

/// One GPT partition entry, ready to be placed in a table.
#[derive(Clone, Debug)]
pub struct GuidPartition {
    /// The partition type GUID.
    pub part_type: Guid,
    /// The unique partition GUID.
    pub guid: Guid,
    /// The name as UTF-16 code units; only the first 36 are written.
    pub name: Vec<u16>,
    /// Fixed first LBA, if any.
    pub offset_lba: Option<usize>,
    /// Fixed size in LBAs, if any.
    pub size_lba: Option<usize>,
    /// The attribute flags.
    pub attributes: GptAttributes,
}

/// UTF-16 code units of one character.
pub open spec fn utf16_of_char(c: char) -> Seq<u16> {
    let v = c as u32 as int;
    if v < 0x10000 {
        seq![v as u16]
    } else {
        let w = v - 0x10000;
        seq![(0xd800 + w / 0x400) as u16, (0xdc00 + w % 0x400) as u16]
    }
}

/// UTF-16 code units of a string.
pub open spec fn utf16_of(s: Seq<char>) -> Seq<u16>
    decreases s.len(),
{
    if s.len() == 0 {
        Seq::empty()
    } else {
        utf16_of(s.drop_last()) + utf16_of_char(s.last())
    }
}

/// Relies on str::encode_utf16: the string's characters as UTF-16 code units.
#[verifier::external_body]
fn encode_utf16(s: &str) -> (r: Vec<u16>)
    ensures
        r@ == utf16_of(s@),
{
    s.encode_utf16().collect()
}

impl GuidPartitionBuilder {
    /// A partition of type `part_type` with the unique GUID `part_guid`: no name,
    /// no fixed offset or size, no attribute set.
    pub fn new_with_uuid(part_type: Guid, part_guid: Guid) -> (r: Self)
        ensures
            r.part_type == part_type,
            r.guid == part_guid,
            r.name@ == Seq::<u16>::empty(),
            r.offset_lba is None,
            r.size_lba is None,
            !r.attributes.platform_required && !r.attributes.efi_ignore && !r.attributes.bootable,
    {
        GuidPartitionBuilder {
            part_type,
            guid: part_guid,
            name: Vec::new(),
            offset_lba: None,
            size_lba: None,
            attributes: GptAttributes { platform_required: false, efi_ignore: false, bootable: false },
        }
    }

    /// A partition of type `part_type` with a random version 4 unique GUID.
    pub fn new(part_type: Guid) -> (r: Self)
        ensures
            r.part_type == part_type,
            r.guid.bytes[6] / 16 == 4,
            r.guid.bytes[8] / 64 == 2,
            r.name@ == Seq::<u16>::empty(),
            r.offset_lba is None,
            r.size_lba is None,
            !r.attributes.platform_required && !r.attributes.efi_ignore && !r.attributes.bootable,
    {
        Self::new_with_uuid(part_type, Guid::new_v4())
    }

    /// Fixes the first LBA of the partition; it is used exactly as given.
    pub fn offset(self, offset: usize) -> (r: Self)
        ensures
            r.offset_lba == Some(offset),
            r.part_type == self.part_type,
            r.guid == self.guid,
            r.name@ == self.name@,
            r.size_lba == self.size_lba,
            r.attributes == self.attributes,
    {
        let mut s = self;
        s.offset_lba = Some(offset);
        s
    }

    /// Fixes the size of the partition in bytes, rounded up to whole LBAs.
    pub fn size(self, size: usize) -> (r: Self)
        ensures
            r.size_lba == Some(((size + LBA_SIZE - 1) / LBA_SIZE as int) as usize),
            r.part_type == self.part_type,
            r.guid == self.guid,
            r.name@ == self.name@,
            r.offset_lba == self.offset_lba,
            r.attributes == self.attributes,
    {
        let mut s = self;
        s.size_lba = Some(div_round_up(size, LBA_SIZE));
        s
    }

    /// Names the partition.
    pub fn name(self, name: &str) -> (r: Self)
        ensures
            r.name@ == utf16_of(name@),
            r.part_type == self.part_type,
            r.guid == self.guid,
            r.offset_lba == self.offset_lba,
            r.size_lba == self.size_lba,
            r.attributes == self.attributes,
    {
        let mut s = self;
        s.name = encode_utf16(name);
        s
    }

    /// Sets or clears the platform-required attribute.
    pub fn platform_required(self, val: bool) -> (r: Self)
        ensures
            r.attributes.platform_required == val,
            r.attributes.efi_ignore == self.attributes.efi_ignore,
            r.attributes.bootable == self.attributes.bootable,
            r.part_type == self.part_type,
            r.guid == self.guid,
            r.name@ == self.name@,
            r.offset_lba == self.offset_lba,
            r.size_lba == self.size_lba,
    {
        let mut s = self;
        s.attributes.platform_required = val;
        s
    }

    /// Sets or clears the EFI-ignore attribute.
    pub fn efi_ignore(self, val: bool) -> (r: Self)
        ensures
            r.attributes.efi_ignore == val,
            r.attributes.platform_required == self.attributes.platform_required,
            r.attributes.bootable == self.attributes.bootable,
            r.part_type == self.part_type,
            r.guid == self.guid,
            r.name@ == self.name@,
            r.offset_lba == self.offset_lba,
            r.size_lba == self.size_lba,
    {
        let mut s = self;
        s.attributes.efi_ignore = val;
        s
    }

    /// Sets or clears the legacy-BIOS-bootable attribute.
    pub fn bootable(self, val: bool) -> (r: Self)
        ensures
            r.attributes.bootable == val,
            r.attributes.platform_required == self.attributes.platform_required,
            r.attributes.efi_ignore == self.attributes.efi_ignore,
            r.part_type == self.part_type,
            r.guid == self.guid,
            r.name@ == self.name@,
            r.offset_lba == self.offset_lba,
            r.size_lba == self.size_lba,
    {
        let mut s = self;
        s.attributes.bootable = val;
        s
    }

    /// The partition this builder describes.
    pub fn build(self) -> (r: GuidPartition)
        ensures
            r.part_type == self.part_type,
            r.guid == self.guid,
            r.name@ == self.name@,
            r.offset_lba == self.offset_lba,
            r.size_lba == self.size_lba,
            r.attributes == self.attributes,
    {
        GuidPartition {
            part_type: self.part_type,
            guid: self.guid,
            name: self.name,
            offset_lba: self.offset_lba,
            size_lba: self.size_lba,
            attributes: self.attributes,
        }
    }
}

/// Builder of a GUID partition table.
#[derive(Debug)]
pub struct GuidPartitionTableBuilder {
    /// The disk GUID.
    pub guid: Guid,
    /// The partitions, in on-disk order.
    pub partitions: Vec<GuidPartition>,
}

/// A GUID partition table: the disk GUID and the ordered partitions.
#[derive(Debug)]
pub struct GuidPartitionTable {
    /// The disk GUID.
    pub guid: Guid,
    /// The partitions, in on-disk order.
    pub partitions: Vec<GuidPartition>,
}

impl GuidPartitionTableBuilder {
    /// A table without partitions, with disk GUID `guid`.
    pub fn new_with_uuid(guid: Guid) -> (r: Self)
        ensures
            r.guid == guid,
            r.partitions@ == Seq::<GuidPartition>::empty(),
    {
        GuidPartitionTableBuilder { guid, partitions: Vec::new() }
    }

    /// A table without partitions, with a random version 4 disk GUID.
    pub fn new() -> (r: Self)
        ensures
            r.guid.bytes[6] / 16 == 4,
            r.guid.bytes[8] / 64 == 2,
            r.partitions@ == Seq::<GuidPartition>::empty(),
    {
        Self::new_with_uuid(Guid::new_v4())
    }

    /// Appends a partition to the table.
    pub fn add_partition(self, part: GuidPartition) -> (r: Self)
        ensures
            r.guid == self.guid,
            r.partitions@ == self.partitions@.push(part),
    {
        let mut s = self;
        s.partitions.push(part);
        s
    }

    /// The table this builder describes.
    pub fn build(self) -> (r: GuidPartitionTable)
        ensures
            r.guid == self.guid,
            r.partitions@ == self.partitions@,
    {
        GuidPartitionTable { guid: self.guid, partitions: self.partitions }
    }
}

impl Default for GuidPartitionTableBuilder {
    fn default() -> (r: Self)
        ensures
            r.partitions@ == Seq::<GuidPartition>::empty(),
    {
        Self::new()
    }
}

/// The layout hints of GPT partitions.
pub open spec fn gpt_hints(parts: Seq<GuidPartition>) -> Seq<PartitionLayoutHint> {
    Seq::new(
        parts.len(),
        |i: int| PartitionLayoutHint { offset_lba: parts[i].offset_lba, size_lba: parts[i].size_lba },
    )
}

/// The 72-byte name field: the first 36 code units little-endian, zero-padded.
pub open spec fn name_field(units: Seq<u16>) -> Seq<u8> {
    Seq::new(
        (2 * GPT_NAME_UNITS) as nat,
        |k: int|
            if k / 2 < units.len() {
                if k % 2 == 0 {
                    (units[k / 2] % 256) as u8
                } else {
                    (units[k / 2] / 256) as u8
                }
            } else {
                0u8
            },
    )
}

/// The 128 bytes of the entry of partition `p` over the inclusive range `range`.
pub open spec fn gpt_entry(p: GuidPartition, range: (int, int)) -> Seq<u8> {
    guid_mixed(p.part_type.bytes@) + guid_mixed(p.guid.bytes@) + le_bytes(range.0 as nat, 8)
        + le_bytes(range.1 as nat, 8) + le_bytes(attribute_bits(p.attributes), 8) + name_field(
        p.name@,
    )
}

/// The entries of the first `k` partitions, back to back.
pub open spec fn gpt_entries(parts: Seq<GuidPartition>, ranges: Seq<(int, int)>, k: int) -> Seq<u8>
    decreases k,
{
    if k <= 0 {
        Seq::empty()
    } else {
        gpt_entries(parts, ranges, k - 1) + gpt_entry(parts[k - 1], ranges[k - 1])
    }
}

/// The full entry array: one entry per partition, then all-zero entries up to 128.
pub open spec fn gpt_entry_array(parts: Seq<GuidPartition>, ranges: Seq<(int, int)>) -> Seq<u8> {
    gpt_entries(parts, ranges, parts.len() as int) + zeros(
        (GPT_PARTITION_ENTRY_SIZE * (GPT_PARTITION_NUM - parts.len())) as nat,
    )
}

/// The 92 bytes of a header stored at `this_lba`, whose other copy is at
/// `alt_lba` and whose entry array starts at `array_lba`.
pub open spec fn gpt_header(
    this_lba: int,
    alt_lba: int,
    first: int,
    last: int,
    disk: Seq<u8>,
    array_lba: int,
    array_crc: u32,
    header_crc: u32,
) -> Seq<u8> {
    le_bytes(GPT_SIGNATURE_HEADER as nat, 8) + le_bytes(GPT_VERSION_HEADER as nat, 4) + le_bytes(
        GPT_HEADER_SIZE_BYTES as nat,
        4,
    ) + le_bytes(header_crc as nat, 4) + zeros(4) + le_bytes(this_lba as nat, 8) + le_bytes(
        alt_lba as nat,
        8,
    ) + le_bytes(first as nat, 8) + le_bytes(last as nat, 8) + guid_mixed(disk) + le_bytes(
        array_lba as nat,
        8,
    ) + le_bytes(GPT_PARTITION_NUM as nat, 4) + le_bytes(GPT_PARTITION_ENTRY_SIZE as nat, 4)
        + le_bytes(array_crc as nat, 4)
}

/// The primary header of a table on a device of `blocks` LBAs.
pub open spec fn primary_header(blocks: int, disk: Seq<u8>, array_crc: u32, header_crc: u32) -> Seq<u8> {
    gpt_header(
        GPT_PRIMARY_HEADER_LBA as int,
        blocks - 1,
        GPT_FIRST_USABLE_LBA as int,
        blocks - GPT_FIRST_USABLE_LBA,
        disk,
        GPT_PRIMARY_ARRAY_LBA as int,
        array_crc,
        header_crc,
    )
}

/// The backup header of a table on a device of `blocks` LBAs.
pub open spec fn backup_header(blocks: int, disk: Seq<u8>, array_crc: u32, header_crc: u32) -> Seq<u8> {
    gpt_header(
        blocks - 1,
        GPT_PRIMARY_HEADER_LBA as int,
        GPT_FIRST_USABLE_LBA as int,
        blocks - GPT_FIRST_USABLE_LBA,
        disk,
        blocks - 1 - GPT_PARTITION_ARRAY_SIZE_LBA,
        array_crc,
        header_crc,
    )
}

/// The single partition of the protective MBR: type `0xEE`, from the primary
/// header through the backup header.
pub open spec fn protective_partition(blocks: int) -> MasterBootRecordPartition {
    MasterBootRecordPartition {
        part_type: 0xee,
        offset_lba: None,
        size_lba: Some((blocks - 1) as usize),
        bootable: false,
    }
}

/// Names the CRC-32/ISO-HDLC checksum of a byte sequence.
pub uninterp spec fn crc32_of(b: Seq<u8>) -> u32;

/// Relies on crc::Crc::<u32>::checksum with crc::CRC_32_ISO_HDLC: the checksum
/// depends on the bytes alone.
#[verifier::external_body]
fn crc32(b: &Vec<u8>) -> (r: u32)
    ensures
        r == crc32_of(b@),
{
    crc::Crc::<u32>::new(&crc::CRC_32_ISO_HDLC).checksum(b.as_slice())
}

/// Appends the name field of `units`.
fn push_name(out: &mut Vec<u8>, units: &Vec<u16>)
    ensures
        final(out)@ == old(out)@ + name_field(units@),
        final(out)@.len() == old(out)@.len() + 2 * GPT_NAME_UNITS,
{
    let ghost start = old(out)@;
    let mut i: usize = 0;
    while i < GPT_NAME_UNITS
        invariant
            i <= GPT_NAME_UNITS,
            out@ == start + name_field(units@).subrange(0, 2 * i as int),
        decreases GPT_NAME_UNITS - i,
    {
        if i < units.len() {
            out.push((units[i] % 256) as u8);
            out.push((units[i] / 256) as u8);
        } else {
            out.push(0u8);
            out.push(0u8);
        }
        i = i + 1;
        proof {
            assert(out@ =~= start + name_field(units@).subrange(0, 2 * i as int));
        }
    }
    proof {
        assert(name_field(units@).subrange(0, 2 * GPT_NAME_UNITS as int) =~= name_field(units@));
    }
}

/// Appends the entry of partition `p` over the range of `l`.
fn push_gpt_entry(out: &mut Vec<u8>, p: &GuidPartition, l: &PartitionLayout)
    ensures
        final(out)@ == old(out)@ + gpt_entry(*p, (l.start_lba as int, l.end_lba as int)),
        final(out)@.len() == old(out)@.len() + GPT_PARTITION_ENTRY_SIZE,
{
    let ghost start = old(out)@;
    push_guid(out, &p.part_type);
    push_guid(out, &p.guid);
    push_le(out, l.start_lba as u64, 8);
    push_le(out, l.end_lba as u64, 8);
    let bits: u64 = (if p.attributes.platform_required { 1u64 } else { 0u64 }) + (
    if p.attributes.efi_ignore { 2u64 } else { 0u64 }) + (if p.attributes.bootable { 4u64 } else { 0u64 });
    push_le(out, bits, 8);
    push_name(out, &p.name);
    proof {
        assert(out@ =~= start + gpt_entry(*p, (l.start_lba as int, l.end_lba as int)));
    }
}

/// The full entry array of `parts` placed over `layout`.
fn entry_array(parts: &Vec<GuidPartition>, layout: &Vec<PartitionLayout>) -> (r: Vec<u8>)
    requires
        parts.len() == layout.len(),
        parts.len() <= GPT_PARTITION_NUM,
    ensures
        r@ == gpt_entry_array(parts@, ranges_of(layout@)),
        r@.len() == GPT_PARTITION_NUM * GPT_PARTITION_ENTRY_SIZE,
{
    let ghost s = ranges_of(layout@);
    let mut out: Vec<u8> = Vec::new();
    let mut i: usize = 0;
    while i < parts.len()
        invariant
            i <= parts.len(),
            parts.len() == layout.len(),
            parts.len() <= GPT_PARTITION_NUM,
            s == ranges_of(layout@),
            out@ == gpt_entries(parts@, s, i as int),
            out@.len() == GPT_PARTITION_ENTRY_SIZE * i,
        decreases parts.len() - i,
    {
        push_gpt_entry(&mut out, &parts[i], &layout[i]);
        proof {
            assert(s[i as int] == (layout[i as int].start_lba as int, layout[i as int].end_lba as int));
            assert(out@ =~= gpt_entries(parts@, s, i + 1));
        }
        i = i + 1;
    }
    push_zeros(&mut out, GPT_PARTITION_ENTRY_SIZE * (GPT_PARTITION_NUM - parts.len()));
    out
}

/// The 92 bytes of a header stored at `this_lba`, whose other copy is at
/// `alt_lba`, whose entry array starts at `array_lba` and has checksum
/// `array_crc`, with `header_crc` in the header checksum field.
pub fn gpt_header_bytes(
    this_lba: usize,
    alt_lba: usize,
    first: usize,
    last: usize,
    disk: &Guid,
    array_lba: usize,
    array_crc: u32,
    header_crc: u32,
) -> (r: Vec<u8>)
    ensures
        r@ == gpt_header(
            this_lba as int,
            alt_lba as int,
            first as int,
            last as int,
            disk.bytes@,
            array_lba as int,
            array_crc,
            header_crc,
        ),
        r@.len() == GPT_HEADER_SIZE_BYTES,
{
    let mut out: Vec<u8> = Vec::new();
    push_le(&mut out, GPT_SIGNATURE_HEADER, 8);
    push_le(&mut out, GPT_VERSION_HEADER as u64, 4);
    push_le(&mut out, GPT_HEADER_SIZE_BYTES as u64, 4);
    push_le(&mut out, header_crc as u64, 4);
    push_zeros(&mut out, 4);
    push_le(&mut out, this_lba as u64, 8);
    push_le(&mut out, alt_lba as u64, 8);
    push_le(&mut out, first as u64, 8);
    push_le(&mut out, last as u64, 8);
    push_guid(&mut out, disk);
    push_le(&mut out, array_lba as u64, 8);
    push_le(&mut out, GPT_PARTITION_NUM as u64, 4);
    push_le(&mut out, GPT_PARTITION_ENTRY_SIZE as u64, 4);
    push_le(&mut out, array_crc as u64, 4);
    proof {
        assert(out@ =~= gpt_header(
            this_lba as int,
            alt_lba as int,
            first as int,
            last as int,
            disk.bytes@,
            array_lba as int,
            array_crc,
            header_crc,
        ));
    }
    out
}

/// Everything a GPT puts on a device, with where it goes.
#[derive(Debug)]
pub struct GptImage {
    /// The protective MBR, for LBA 0.
    pub protective_mbr: Vec<u8>,
    /// The primary header, zero-filled to one LBA, for LBA 1.
    pub primary_header: Vec<u8>,
    /// The entry array, for LBA 2 and for `backup_entries_lba`.
    pub entries: Vec<u8>,
    /// First LBA of the backup entry array.
    pub backup_entries_lba: usize,
    /// The backup header, zero-filled to one LBA, for `backup_header_lba`.
    pub backup_header: Vec<u8>,
    /// LBA of the backup header: the last LBA of the device.
    pub backup_header_lba: usize,
}

impl GuidPartitionTable {
    /// Resolves the partitions within the usable range of a device of `blocks` LBAs:
    /// from LBA 34 to the LBA before the backup entry array.
    pub fn build_gpt_layout(&self, blocks: usize) -> (r: Result<Vec<PartitionLayout>, LayoutError>)
        ensures
            outcome_of(r) == layout_outcome(
                GPT_FIRST_USABLE_LBA as int,
                blocks - GPT_FIRST_USABLE_LBA,
                gpt_hints(self.partitions@),
            ),
            r matches Ok(v) ==> {
                &&& v.len() == self.partitions.len()
                &&& forall|i: int|
                    0 <= i < v.len() ==> GPT_FIRST_USABLE_LBA <= (#[trigger] v[i]).start_lba
                        <= v[i].end_lba <= blocks - GPT_FIRST_USABLE_LBA
            },
    {
        if blocks <= GPT_OVERHEAD_LBA {
            return Err(LayoutError::DeviceTooSmall);
        }
        let mut hints: Vec<PartitionLayoutHint> = Vec::new();
        let mut i: usize = 0;
        while i < self.partitions.len()
            invariant
                i <= self.partitions.len(),
                hints@ == gpt_hints(self.partitions@).take(i as int),
            decreases self.partitions.len() - i,
        {
            hints.push(
                PartitionLayoutHint {
                    offset_lba: self.partitions[i].offset_lba,
                    size_lba: self.partitions[i].size_lba,
                },
            );
            i = i + 1;
            proof {
                assert(hints@ =~= gpt_hints(self.partitions@).take(i as int));
            }
        }
        proof {
            assert(hints@ =~= gpt_hints(self.partitions@));
        }
        build_layout(GPT_FIRST_USABLE_LBA, blocks - GPT_FIRST_USABLE_LBA, hints.as_slice())
    }
}

/// The protective partition always fits: it is resolved to `1..=blocks - 1`.
proof fn lemma_protective_layout(blocks: int)
    requires
        GPT_OVERHEAD_LBA < blocks <= usize::MAX,
    ensures
        layout_outcome(1, blocks - 1, mbr_hints(seq![protective_partition(blocks)])) == Ok::<
            Seq<(int, int)>,
            LayoutError,
        >(seq![(1int, blocks - 1)]),
{
    let h = mbr_hints(seq![protective_partition(blocks)]);
    assert(h.drop_last() =~= Seq::<PartitionLayoutHint>::empty());
    assert(h.len() == 1);
    assert(h.last().size_lba is Some);
    assert(unsized_count(h.drop_last()) == 0);
    assert(unsized_count(h) == 0);
    assert(first_unsized_from(h, 1) == 1);
    assert(first_unsized(h) == 1);
    assert(resolved_start(1, blocks - 1, h, 0) == 1);
    assert(resolved_end(1, blocks - 1, h, 0) == blocks - 1);
    assert(layout_valid(1, blocks - 1, h));
    if let Ok(s) = layout_outcome(1, blocks - 1, h) {
        assert(s =~= seq![(1int, blocks - 1)]);
    }
}

impl GuidPartitionTable {
    /// Everything this table puts on a device of `blocks` LBAs, with `mbr_disk_id`
    /// as the protective MBR's signature; or why the partitions have no layout there.
    pub fn image_with_disk_id(&self, blocks: usize, mbr_disk_id: u32) -> (r: Result<
        GptImage,
        LayoutError,
    >)
        requires
            self.partitions.len() <= GPT_PARTITION_NUM,
        ensures
            match r {
                Ok(img) => layout_outcome(
                    GPT_FIRST_USABLE_LBA as int,
                    blocks - GPT_FIRST_USABLE_LBA,
                    gpt_hints(self.partitions@),
                ) matches Ok(s) && {
                    let array = gpt_entry_array(self.partitions@, s);
                    let array_crc = crc32_of(array);
                    let primary = primary_header(blocks as int, self.guid.bytes@, array_crc, 0);
                    let backup = backup_header(blocks as int, self.guid.bytes@, array_crc, 0);
                    &&& img.entries@ == array
                    &&& img.primary_header@ == primary_header(
                        blocks as int,
                        self.guid.bytes@,
                        array_crc,
                        crc32_of(primary),
                    ) + zeros((LBA_SIZE - GPT_HEADER_SIZE_BYTES) as nat)
                    &&& img.backup_header@ == backup_header(
                        blocks as int,
                        self.guid.bytes@,
                        array_crc,
                        crc32_of(backup),
                    ) + zeros((LBA_SIZE - GPT_HEADER_SIZE_BYTES) as nat)
                    &&& img.backup_entries_lba == blocks - 1 - GPT_PARTITION_ARRAY_SIZE_LBA
                    &&& img.backup_header_lba == blocks - 1
                    &&& img.protective_mbr@ == mbr_sector(
                        mbr_disk_id,
                        seq![protective_partition(blocks as int)],
                        seq![(1int, blocks - 1)],
                    )
                },
                Err(e) => layout_outcome(
                    GPT_FIRST_USABLE_LBA as int,
                    blocks - GPT_FIRST_USABLE_LBA,
                    gpt_hints(self.partitions@),
                ) == Err::<Seq<(int, int)>, LayoutError>(e),
            },
    {
        let layout = match self.build_gpt_layout(blocks) {
            Ok(v) => v,
            Err(e) => return Err(e),
        };
        let ghost s = ranges_of(layout@);
        let backup_header_lba = blocks - 1;
        let backup_entries_lba = backup_header_lba - GPT_PARTITION_ARRAY_SIZE_LBA;
        let last = blocks - GPT_FIRST_USABLE_LBA;

        let entries = entry_array(&self.partitions, &layout);
        let array_crc = crc32(&entries);

        let unsealed = gpt_header_bytes(
            GPT_PRIMARY_HEADER_LBA,
            backup_header_lba,
            GPT_FIRST_USABLE_LBA,
            last,
            &self.guid,
            GPT_PRIMARY_ARRAY_LBA,
            array_crc,
            0,
        );
        let primary_crc = crc32(&unsealed);
        let mut primary = gpt_header_bytes(
            GPT_PRIMARY_HEADER_LBA,
            backup_header_lba,
            GPT_FIRST_USABLE_LBA,
            last,
            &self.guid,
            GPT_PRIMARY_ARRAY_LBA,
            array_crc,
            primary_crc,
        );
        push_zeros(&mut primary, LBA_SIZE - GPT_HEADER_SIZE_BYTES);

        let unsealed = gpt_header_bytes(
            backup_header_lba,
            GPT_PRIMARY_HEADER_LBA,
            GPT_FIRST_USABLE_LBA,
            last,
            &self.guid,
            backup_entries_lba,
            array_crc,
            0,
        );
        let backup_crc = crc32(&unsealed);
        let mut backup = gpt_header_bytes(
            backup_header_lba,
            GPT_PRIMARY_HEADER_LBA,
            GPT_FIRST_USABLE_LBA,
            last,
            &self.guid,
            backup_entries_lba,
            array_crc,
            backup_crc,
        );
        push_zeros(&mut backup, LBA_SIZE - GPT_HEADER_SIZE_BYTES);

        let mut protective: Vec<MasterBootRecordPartition> = Vec::new();
        protective.push(
            MasterBootRecordPartition {
                part_type: 0xee,
                offset_lba: None,
                size_lba: Some(blocks - 1),
                bootable: false,
            },
        );
        let table = MasterBootRecordPartitionTable { partitions: protective };
        proof {
            assert(table.partitions@ =~= seq![protective_partition(blocks as int)]);
            lemma_protective_layout(blocks as int);
        }
        let protective_mbr = match table.sector_with_disk_id(blocks, mbr_disk_id) {
            Ok(b) => b,
            Err(e) => return Err(e),
        };
        Ok(
            GptImage {
                protective_mbr,
                primary_header: primary,
                entries,
                backup_entries_lba,
                backup_header: backup,
                backup_header_lba,
            },
        )
    }

    /// Everything this table puts on a device of `blocks` LBAs, with a random
    /// protective MBR signature; or why the partitions have no layout there.
    pub fn image(&self, blocks: usize) -> (r: Result<GptImage, LayoutError>)
        requires
            self.partitions.len() <= GPT_PARTITION_NUM,
        ensures
            match r {
                Ok(img) => layout_outcome(
                    GPT_FIRST_USABLE_LBA as int,
                    blocks - GPT_FIRST_USABLE_LBA,
                    gpt_hints(self.partitions@),
                ) matches Ok(s) && {
                    let array = gpt_entry_array(self.partitions@, s);
                    let array_crc = crc32_of(array);
                    let primary = primary_header(blocks as int, self.guid.bytes@, array_crc, 0);
                    let backup = backup_header(blocks as int, self.guid.bytes@, array_crc, 0);
                    &&& img.entries@ == array
                    &&& img.primary_header@ == primary_header(
                        blocks as int,
                        self.guid.bytes@,
                        array_crc,
                        crc32_of(primary),
                    ) + zeros((LBA_SIZE - GPT_HEADER_SIZE_BYTES) as nat)
                    &&& img.backup_header@ == backup_header(
                        blocks as int,
                        self.guid.bytes@,
                        array_crc,
                        crc32_of(backup),
                    ) + zeros((LBA_SIZE - GPT_HEADER_SIZE_BYTES) as nat)
                    &&& img.backup_entries_lba == blocks - 1 - GPT_PARTITION_ARRAY_SIZE_LBA
                    &&& img.backup_header_lba == blocks - 1
                    &&& exists|id: u32|
                        img.protective_mbr@ == #[trigger] mbr_sector(
                            id,
                            seq![protective_partition(blocks as int)],
                            seq![(1int, blocks - 1)],
                        )
                },
                Err(e) => layout_outcome(
                    GPT_FIRST_USABLE_LBA as int,
                    blocks - GPT_FIRST_USABLE_LBA,
                    gpt_hints(self.partitions@),
                ) == Err::<Seq<(int, int)>, LayoutError>(e),
            },
    {
        let disk_id = random_u32();
        let r = self.image_with_disk_id(blocks, disk_id);
        proof {
            if let Ok(img) = &r {
                assert(img.protective_mbr@ == mbr_sector(
                    disk_id,
                    seq![protective_partition(blocks as int)],
                    seq![(1int, blocks - 1)],
                ));
            }
        }
        r
    }
}

/// Entry `i` of an entry array.
pub open spec fn entry_at(array: Seq<u8>, i: int) -> Seq<u8> {
    array.subrange(GPT_PARTITION_ENTRY_SIZE * i, GPT_PARTITION_ENTRY_SIZE * i + GPT_PARTITION_ENTRY_SIZE)
}

/// The first LBA that entry `i` of an entry array records.
pub open spec fn entry_first_lba(array: Seq<u8>, i: int) -> nat {
    le_value(entry_at(array, i).subrange(32, 40))
}

/// The last LBA that entry `i` of an entry array records.
pub open spec fn entry_last_lba(array: Seq<u8>, i: int) -> nat {
    le_value(entry_at(array, i).subrange(40, 48))
}

proof fn lemma_gpt_entry_len(p: GuidPartition, range: (int, int))
    ensures
        gpt_entry(p, range).len() == GPT_PARTITION_ENTRY_SIZE,
{
    lemma_le_bytes_len(range.0 as nat, 8);
    lemma_le_bytes_len(range.1 as nat, 8);
    lemma_le_bytes_len(attribute_bits(p.attributes), 8);
    assert(p.part_type.bytes@.len() == 16);
    assert(p.guid.bytes@.len() == 16);
}

proof fn lemma_gpt_entries(parts: Seq<GuidPartition>, ranges: Seq<(int, int)>, k: int)
    requires
        0 <= k <= parts.len(),
        k <= ranges.len(),
    ensures
        gpt_entries(parts, ranges, k).len() == GPT_PARTITION_ENTRY_SIZE * k,
        forall|i: int|
            0 <= i < k ==> #[trigger] entry_at(gpt_entries(parts, ranges, k), i) == gpt_entry(
                parts[i],
                ranges[i],
            ),
    decreases k,
{
    if k > 0 {
        lemma_gpt_entries(parts, ranges, k - 1);
        lemma_gpt_entry_len(parts[k - 1], ranges[k - 1]);
        let prev = gpt_entries(parts, ranges, k - 1);
        let all = gpt_entries(parts, ranges, k);
        assert forall|i: int| 0 <= i < k implies #[trigger] entry_at(all, i) == gpt_entry(
            parts[i],
            ranges[i],
        ) by {
            if i < k - 1 {
                assert(entry_at(all, i) =~= entry_at(prev, i));
            } else {
                assert(entry_at(all, i) =~= gpt_entry(parts[i], ranges[i]));
            }
        }
    }
}

/// Reading back a table on a device of `blocks` LBAs, as an independent GPT
/// reader would: both headers record 34 as the first usable LBA and
/// `blocks - 34` as the last; the entry array holds, in order, one entry per
/// partition recording its resolved first and last LBA (never zero, so never
/// taken for an unused entry), then all-zero entries.
pub proof fn lemma_gpt_read_back(
    blocks: int,
    disk: Seq<u8>,
    parts: Seq<GuidPartition>,
    array_crc: u32,
    header_crc: u32,
)
    requires
        GPT_OVERHEAD_LBA < blocks <= usize::MAX,
        disk.len() == 16,
        parts.len() <= GPT_PARTITION_NUM,
    ensures
        le_value(primary_header(blocks, disk, array_crc, header_crc).subrange(40, 48))
            == GPT_FIRST_USABLE_LBA,
        le_value(primary_header(blocks, disk, array_crc, header_crc).subrange(48, 56)) == blocks
            - GPT_FIRST_USABLE_LBA,
        le_value(backup_header(blocks, disk, array_crc, header_crc).subrange(40, 48))
            == GPT_FIRST_USABLE_LBA,
        le_value(backup_header(blocks, disk, array_crc, header_crc).subrange(48, 56)) == blocks
            - GPT_FIRST_USABLE_LBA,
        layout_outcome(
            GPT_FIRST_USABLE_LBA as int,
            blocks - GPT_FIRST_USABLE_LBA,
            gpt_hints(parts),
        ) matches Ok(s) ==> {
            let a = gpt_entry_array(parts, s);
            &&& a.len() == GPT_PARTITION_NUM * GPT_PARTITION_ENTRY_SIZE
            &&& forall|i: int|
                0 <= i < parts.len() ==> #[trigger] entry_first_lba(a, i) == s[i].0
                    && entry_last_lba(a, i) == s[i].1 && s[i].0 >= GPT_FIRST_USABLE_LBA
            &&& forall|i: int|
                parts.len() <= i < GPT_PARTITION_NUM ==> #[trigger] entry_at(a, i) == zeros(
                    GPT_PARTITION_ENTRY_SIZE as nat,
                )
        },
{
    lemma_pow256_8();
    let last = blocks - GPT_FIRST_USABLE_LBA;
    lemma_le_round_trip(GPT_FIRST_USABLE_LBA as nat, 8);
    lemma_le_round_trip(last as nat, 8);
    lemma_le_bytes_len(GPT_SIGNATURE_HEADER as nat, 8);
    lemma_le_bytes_len(GPT_VERSION_HEADER as nat, 4);
    lemma_le_bytes_len(GPT_HEADER_SIZE_BYTES as nat, 4);
    lemma_le_bytes_len(header_crc as nat, 4);
    lemma_le_bytes_len(1, 8);
    lemma_le_bytes_len((blocks - 1) as nat, 8);
    lemma_le_bytes_len(GPT_FIRST_USABLE_LBA as nat, 8);
    lemma_le_bytes_len(last as nat, 8);
    let p = primary_header(blocks, disk, array_crc, header_crc);
    assert(p.subrange(40, 48) =~= le_bytes(GPT_FIRST_USABLE_LBA as nat, 8));
    assert(p.subrange(48, 56) =~= le_bytes(last as nat, 8));
    let b = backup_header(blocks, disk, array_crc, header_crc);
    assert(b.subrange(40, 48) =~= le_bytes(GPT_FIRST_USABLE_LBA as nat, 8));
    assert(b.subrange(48, 56) =~= le_bytes(last as nat, 8));

    lemma_layout_in_bounds(GPT_FIRST_USABLE_LBA as int, last, gpt_hints(parts));
    if let Ok(s) = layout_outcome(GPT_FIRST_USABLE_LBA as int, last, gpt_hints(parts)) {
        let n = parts.len() as int;
        lemma_gpt_entries(parts, s, n);
        let head = gpt_entries(parts, s, n);
        let a = gpt_entry_array(parts, s);
        assert forall|i: int| 0 <= i < n implies #[trigger] entry_first_lba(a, i) == s[i].0
            && entry_last_lba(a, i) == s[i].1 && s[i].0 >= GPT_FIRST_USABLE_LBA by {
            assert(entry_at(a, i) =~= entry_at(head, i));
            let e = gpt_entry(parts[i], s[i]);
            assert(GPT_FIRST_USABLE_LBA <= s[i].0 <= s[i].1 <= last);
            lemma_le_bytes_len(s[i].0 as nat, 8);
            lemma_le_bytes_len(s[i].1 as nat, 8);
            assert(parts[i].part_type.bytes@.len() == 16);
            assert(parts[i].guid.bytes@.len() == 16);
            assert(e.subrange(32, 40) =~= le_bytes(s[i].0 as nat, 8));
            assert(e.subrange(40, 48) =~= le_bytes(s[i].1 as nat, 8));
            lemma_le_round_trip(s[i].0 as nat, 8);
            lemma_le_round_trip(s[i].1 as nat, 8);
        }
        assert forall|i: int| n <= i < GPT_PARTITION_NUM implies #[trigger] entry_at(a, i) == zeros(
            GPT_PARTITION_ENTRY_SIZE as nat,
        ) by {
            assert(entry_at(a, i) =~= zeros(GPT_PARTITION_ENTRY_SIZE as nat));
        }
    }
}

} // verus!
