use parttable::{
    LayoutError, MasterBootRecordPartitionBuilder, MasterBootRecordPartitionTableBuilder,
};

const BLOCKS_2GIB: usize = (2 << 30) / 512;

fn le32(b: &[u8]) -> u32 {
    u32::from_le_bytes([b[0], b[1], b[2], b[3]])
}

fn entry(sector: &[u8], idx: usize) -> &[u8] {
    &sector[446 + 16 * idx..446 + 16 * (idx + 1)]
}

#[test]
fn mbr_table_no_partition() {
    let sector = MasterBootRecordPartitionTableBuilder::new()
        .build()
        .sector_with_disk_id(BLOCKS_2GIB, 0x1234_5678)
        .unwrap();
    assert_eq!(sector.len(), 512);
    assert_eq!(le32(&sector[440..444]), 0x1234_5678);
    assert!(sector[..440].iter().all(|b| *b == 0));
    assert!(sector[444..510].iter().all(|b| *b == 0));
    assert_eq!(sector[510], 0x55);
    assert_eq!(sector[511], 0xaa);
}

#[test]
fn mbr_file_too_small() {
    let table = MasterBootRecordPartitionTableBuilder::new().build();
    assert_eq!(table.sector_with_disk_id(1, 0), Err(LayoutError::DeviceTooSmall));
    assert_eq!(table.sector_with_disk_id(0, 0), Err(LayoutError::DeviceTooSmall));
    assert!(table.sector_with_disk_id(2, 0).is_ok());
}

#[test]
fn mbr_one_partition_no_size() {
    let sector = MasterBootRecordPartitionTableBuilder::new()
        .add_partition(MasterBootRecordPartitionBuilder::new(42).build())
        .build()
        .sector_with_disk_id(BLOCKS_2GIB, 7)
        .unwrap();
    let e = entry(&sector, 0);
    assert_eq!(e[0], 0x00);
    assert_eq!(&e[1..4], &[0x00, 0x02, 0x00]);
    assert_eq!(e[4], 42);
    assert_eq!(&e[5..8], &[0xff, 0xff, 0xff]);
    assert_eq!(le32(&e[8..12]), 1);
    assert_eq!(le32(&e[12..16]), (BLOCKS_2GIB - 1) as u32);
    assert!(sector[462..510].iter().all(|b| *b == 0));
}

#[test]
fn mbr_one_partition_exact_size_offset_bootable() {
    let sector = MasterBootRecordPartitionTableBuilder::new()
        .add_partition(
            MasterBootRecordPartitionBuilder::new(0x83)
                .offset(2048)
                .size(1000 * 512)
                .bootable(true)
                .build(),
        )
        .build()
        .sector_with_disk_id(BLOCKS_2GIB, 7)
        .unwrap();
    let e = entry(&sector, 0);
    assert_eq!(e[0], 0x80);
    assert_eq!(e[4], 0x83);
    assert_eq!(le32(&e[8..12]), 2048);
    assert_eq!(le32(&e[12..16]), 1000);
    // LBA 2048: cylinder 2, head 0, sector 33.
    assert_eq!(&e[1..4], &[0, 33, 2]);
    // LBA 3047: cylinder 3, head 0, sector 24.
    assert_eq!(&e[5..8], &[0, 24, 3]);
}

#[test]
fn mbr_size_rounds_up_to_lba() {
    let part = MasterBootRecordPartitionBuilder::new(1).size(513).build();
    assert_eq!(part.size_lba, Some(2));
    let part = MasterBootRecordPartitionBuilder::new(1).size(512).build();
    assert_eq!(part.size_lba, Some(1));
}

#[test]
fn mbr_chs_encoding() {
    assert_eq!(parttable::mbr::lba_to_chs(0), (0, 0, 1));
    assert_eq!(parttable::mbr::lba_to_chs(1007), (0, 15, 63));
    assert_eq!(parttable::mbr::lba_to_chs(302_531), (300, 2, 6));
    let sector = MasterBootRecordPartitionTableBuilder::new()
        .add_partition(MasterBootRecordPartitionBuilder::new(1).offset(302_531).size(512).build())
        .build()
        .sector_with_disk_id(BLOCKS_2GIB, 0)
        .unwrap();
    let e = entry(&sector, 0);
    assert_eq!(&e[1..4], &[2, 64 + 6, 44]);
    assert_eq!(&e[5..8], &[2, 64 + 6, 44]);
}

#[test]
fn mbr_chs_sentinel_past_cylinder_1023() {
    // Cylinder 1023 is the last one that fits; 1024 gets the sentinel.
    let last_ok = 1023 * 1008;
    let sector = MasterBootRecordPartitionTableBuilder::new()
        .add_partition(MasterBootRecordPartitionBuilder::new(1).offset(last_ok).size(1008 * 512).build())
        .build()
        .sector_with_disk_id(BLOCKS_2GIB, 0)
        .unwrap();
    let e = entry(&sector, 0);
    assert_eq!(&e[1..4], &[0, 0xc0 | 1, 0xff]);
    assert_eq!(&e[5..8], &[15, 0xc0 | 63, 0xff]);
    let sector = MasterBootRecordPartitionTableBuilder::new()
        .add_partition(MasterBootRecordPartitionBuilder::new(1).offset(last_ok + 1008).build())
        .build()
        .sector_with_disk_id(BLOCKS_2GIB, 0)
        .unwrap();
    assert_eq!(&entry(&sector, 0)[1..4], &[0xff, 0xff, 0xff]);
}

#[test]
fn mbr_lba_fields_clamp_to_u32() {
    let blocks: usize = 1 << 33;
    let sector = MasterBootRecordPartitionTableBuilder::new()
        .add_partition(MasterBootRecordPartitionBuilder::new(1).size(512).build())
        .add_partition(MasterBootRecordPartitionBuilder::new(2).offset(1 << 32).build())
        .build()
        .sector_with_disk_id(blocks, 0)
        .unwrap();
    assert_eq!(le32(&entry(&sector, 0)[8..12]), 1);
    assert_eq!(le32(&entry(&sector, 0)[12..16]), 1);
    assert_eq!(le32(&entry(&sector, 1)[8..12]), u32::MAX);
    assert_eq!(le32(&entry(&sector, 1)[12..16]), u32::MAX);
}

#[test]
fn mbr_three_partitions_one_size_middle_missing() {
    let sector = MasterBootRecordPartitionTableBuilder::new()
        .add_partition(MasterBootRecordPartitionBuilder::new(1).size(100 * 512).build())
        .add_partition(MasterBootRecordPartitionBuilder::new(2).build())
        .add_partition(MasterBootRecordPartitionBuilder::new(3).size(200 * 512).build())
        .build()
        .sector_with_disk_id(1000, 0)
        .unwrap();
    assert_eq!(le32(&entry(&sector, 0)[8..12]), 1);
    assert_eq!(le32(&entry(&sector, 0)[12..16]), 100);
    assert_eq!(le32(&entry(&sector, 1)[8..12]), 101);
    assert_eq!(le32(&entry(&sector, 1)[12..16]), 1000 - 200 - 101);
    assert_eq!(le32(&entry(&sector, 2)[8..12]), 800);
    assert_eq!(le32(&entry(&sector, 2)[12..16]), 200);
    assert!(sector[494..510].iter().all(|b| *b == 0));
}

#[test]
fn mbr_multiple_partitions_no_size() {
    let r = MasterBootRecordPartitionTableBuilder::new()
        .add_partition(MasterBootRecordPartitionBuilder::new(1).build())
        .add_partition(MasterBootRecordPartitionBuilder::new(2).build())
        .build()
        .sector_with_disk_id(BLOCKS_2GIB, 0);
    assert_eq!(r, Err(LayoutError::MultipleUnsizedPartitions));
}

#[test]
fn mbr_two_partitions_offset_too_small() {
    let r = MasterBootRecordPartitionTableBuilder::new()
        .add_partition(MasterBootRecordPartitionBuilder::new(1).size(1000 * 512).build())
        .add_partition(MasterBootRecordPartitionBuilder::new(2).offset(1000 - 10).build())
        .build()
        .sector_with_disk_id(BLOCKS_2GIB, 0);
    assert_eq!(r, Err(LayoutError::OverlapOrOutOfRange));
}

#[test]
fn mbr_random_disk_id_only_changes_signature() {
    let table = MasterBootRecordPartitionTableBuilder::new()
        .add_partition(MasterBootRecordPartitionBuilder::new(1).build())
        .build();
    let a = table.sector(BLOCKS_2GIB).unwrap();
    let b = table.sector_with_disk_id(BLOCKS_2GIB, 0).unwrap();
    assert_eq!(a.len(), 512);
    assert_eq!(&a[..440], &b[..440]);
    assert_eq!(&a[444..], &b[444..]);
}
