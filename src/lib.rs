//! Partition layout solving and on-disk partition table serialization.
//!
//! The layout solver turns partition hints (an optional fixed offset and an
//! optional fixed size, with at most one partition that fills the remaining
//! space) into concrete, non-overlapping LBA ranges. The GPT and MBR table
//! builders turn a resolved layout into the exact bytes that standard
//! partitioning tools read back.
use vstd::prelude::*;

pub mod bytes;
pub mod gpt;
pub mod guid;
pub mod layout;
pub mod mbr;
pub mod round;

pub use gpt::{
    GptAttributes, GptImage, GuidPartition, GuidPartitionBuilder, GuidPartitionTable,
    GuidPartitionTableBuilder,
};
pub use guid::{guid_bytes, Guid};
pub use layout::{build_layout, LayoutError, PartitionLayout, PartitionLayoutHint};
pub use mbr::{
    MasterBootRecordPartition, MasterBootRecordPartitionBuilder, MasterBootRecordPartitionTable,
    MasterBootRecordPartitionTableBuilder,
};
pub use round::{
    div_round_up, round_down, round_up, size_end_to_start, start_end_to_size, start_size_to_end,
};
