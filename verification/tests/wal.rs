use crackeddb::disk::{Disk, FileId};
use crackeddb::error::Error;
use crackeddb::wal::{
    delete_segments_before, truncate_segment, RecordType, WalConfig, WalReader, WalRecord,
    WalWriter,
};

#[test]
fn write_and_read_single_record() {
    let mut disk = Disk::new();

    let mut writer = WalWriter::new(&mut disk, WalConfig::default());
    let record = WalRecord::new(b"hello world".to_vec());
    writer.append(&mut disk, &record).unwrap();
    writer.sync(&mut disk);

    let mut reader = WalReader::new_from_start(&disk);
    let read_record = reader.read_record().unwrap().unwrap();
    assert_eq!(read_record.data, b"hello world");

    assert!(reader.read_record().unwrap().is_none());
}

#[test]
fn write_and_read_multiple_records() {
    let mut disk = Disk::new();

    let mut writer = WalWriter::new(&mut disk, WalConfig::default());
    for i in 0..100 {
        let record = WalRecord::new(format!("record {}", i).into_bytes());
        writer.append(&mut disk, &record).unwrap();
    }
    writer.sync(&mut disk);

    let mut reader = WalReader::new_from_start(&disk);
    for i in 0..100 {
        let record = reader.read_record().unwrap().unwrap();
        assert_eq!(record.data, format!("record {}", i).into_bytes());
    }
    assert!(reader.read_record().unwrap().is_none());
}

#[test]
fn segment_rotation() {
    let mut disk = Disk::new();

    let config = WalConfig { segment_size: 256, sync_on_write: false };

    let mut writer = WalWriter::new(&mut disk, config);

    for i in 0..50 {
        let data = format!("record {:05}", i);
        let record = WalRecord::new(data.into_bytes());
        writer.append(&mut disk, &record).unwrap();
    }
    writer.sync(&mut disk);

    assert!(writer.current_segment() > 0);

    let mut reader = WalReader::new_from_start(&disk);
    for i in 0..50 {
        let record = reader.read_record().unwrap().unwrap();
        assert_eq!(record.data, format!("record {:05}", i).into_bytes());
    }
    assert!(reader.read_record().unwrap().is_none());
}

#[test]
fn crash_recovery_truncates_partial_write() {
    let mut disk = Disk::new();

    let mut writer = WalWriter::new(&mut disk, WalConfig::default());
    for i in 0..5 {
        let record = WalRecord::new(format!("committed {}", i).into_bytes());
        writer.append(&mut disk, &record).unwrap();
    }
    writer.sync(&mut disk);
    let _synced_offset = writer.current_offset();

    for i in 0..3 {
        let record = WalRecord::new(format!("uncommitted {}", i).into_bytes());
        writer.append(&mut disk, &record).unwrap();
    }

    disk.simulate_crash();

    let mut reader = WalReader::new_from_start(&disk);
    for i in 0..5 {
        let record = reader.read_record().unwrap().unwrap();
        assert_eq!(record.data, format!("committed {}", i).into_bytes());
    }

    assert!(reader.read_record().unwrap().is_none());
}

#[test]
fn detects_corrupted_crc() {
    let mut disk = Disk::new();

    let mut writer = WalWriter::new(&mut disk, WalConfig::default());
    let record = WalRecord::new(b"hello".to_vec());
    writer.append(&mut disk, &record).unwrap();
    writer.sync(&mut disk);

    disk.write_at(FileId::Wal(0), 0, &[0xFF, 0xFF, 0xFF, 0xFF]);
    disk.sync(FileId::Wal(0));

    let mut reader = WalReader::new_from_start(&disk);
    let result = reader.read_record();
    assert!(matches!(result, Err(Error::Corruption(_))));
}

#[test]
fn empty_record() {
    let mut disk = Disk::new();

    let mut writer = WalWriter::new(&mut disk, WalConfig::default());
    let record = WalRecord::new(vec![]);
    writer.append(&mut disk, &record).unwrap();
    writer.sync(&mut disk);

    let mut reader = WalReader::new_from_start(&disk);
    let read_record = reader.read_record().unwrap().unwrap();
    assert!(read_record.data.is_empty());
}

#[test]
fn large_record_spans_segments() {
    let mut disk = Disk::new();

    let config = WalConfig { segment_size: 64, sync_on_write: false };

    let mut writer = WalWriter::new(&mut disk, config);

    let large_data: Vec<u8> = (0..200).map(|i| (i % 256) as u8).collect();
    let record = WalRecord::new(large_data.clone());
    writer.append(&mut disk, &record).unwrap();
    writer.sync(&mut disk);

    assert!(writer.current_segment() > 0);

    let mut reader = WalReader::new_from_start(&disk);
    let read_record = reader.read_record().unwrap().unwrap();
    assert_eq!(read_record.data, large_data);
}

#[test]
fn the_bytes_of_a_record() {
    // The checksum of the type and the data comes first, then the length and the type.
    let mut disk = Disk::new();
    let mut writer = WalWriter::new(&mut disk, WalConfig::default());
    let at = writer.append(&mut disk, &WalRecord::new(b"12345678".to_vec())).unwrap();
    assert_eq!(at, (0, 0));
    let bytes = disk.read(FileId::Wal(0)).unwrap();
    let mut body = vec![1u8];
    body.extend_from_slice(b"12345678");
    let crc = crc32c::crc32c(&body);
    assert_eq!(&bytes[0..4], &crc.to_le_bytes());
    assert_eq!(&bytes[4..8], &8u32.to_le_bytes());
    assert_eq!(bytes[8], 1);
    assert_eq!(&bytes[9..], b"12345678");
    assert_eq!(writer.current_offset(), 17);
}

#[test]
fn a_segment_without_room_is_refused() {
    let mut disk = Disk::new();
    let mut writer =
        WalWriter::new(&mut disk, WalConfig { segment_size: 9, sync_on_write: false });
    let r = writer.append(&mut disk, &WalRecord::new(b"x".to_vec()));
    assert!(matches!(r, Err(Error::InvalidArgument(_))));
}

#[test]
fn a_cut_off_record_ends_the_log() {
    let mut disk = Disk::new();
    let mut writer = WalWriter::new(&mut disk, WalConfig::default());
    writer.append(&mut disk, &WalRecord::new(b"first".to_vec())).unwrap();
    let end = writer.current_offset() as usize;
    writer.append(&mut disk, &WalRecord::new(b"second".to_vec())).unwrap();
    truncate_segment(&mut disk, 0, end + 4);

    let mut reader = WalReader::new_from_start(&disk);
    assert_eq!(reader.read_record().unwrap().unwrap().data, b"first");
    assert_eq!(reader.position(), (0, end as u64));
    assert!(reader.read_record().unwrap().is_none());
}

#[test]
fn segments_before_one_are_deleted() {
    let mut disk = Disk::new();
    let config = WalConfig { segment_size: 64, sync_on_write: true };
    let mut writer = WalWriter::new(&mut disk, config);
    for _ in 0..10 {
        writer.append(&mut disk, &WalRecord::new(vec![7u8; 40])).unwrap();
    }
    let last = writer.current_segment();
    assert!(last > 1);
    delete_segments_before(&mut disk, last);
    assert_eq!(disk.wal_numbers(), vec![last]);
    assert!(!disk.contains(FileId::Wal(0)));
}

#[test]
fn synced_writes_outlive_a_crash_without_a_sync() {
    let mut disk = Disk::new();
    let mut writer =
        WalWriter::new(&mut disk, WalConfig { segment_size: 1024, sync_on_write: true });
    writer.append(&mut disk, &WalRecord::new(b"kept".to_vec())).unwrap();
    disk.simulate_crash();
    let mut reader = WalReader::new_from_start(&disk);
    assert_eq!(reader.read_record().unwrap().unwrap().data, b"kept");
}

#[test]
fn record_types_have_numbers() {
    for (n, t) in [
        (1u8, RecordType::Full),
        (2, RecordType::First),
        (3, RecordType::Middle),
        (4, RecordType::Last),
    ] {
        assert_eq!(t.to_u8(), n);
        assert_eq!(RecordType::from_u8(n), Some(t));
    }
    assert_eq!(RecordType::from_u8(0), None);
    assert_eq!(RecordType::from_u8(5), None);
}

#[test]
fn a_record_is_placed_where_it_was_written() {
    let mut disk = Disk::new();
    let config = WalConfig { segment_size: 64, sync_on_write: false };
    let mut writer = WalWriter::new(&mut disk, config);
    // 58 of 64 bytes are taken, and six are too few for a header.
    assert_eq!(writer.append(&mut disk, &WalRecord::new(vec![1u8; 49])).unwrap(), (0, 0));
    assert_eq!(writer.append(&mut disk, &WalRecord::new(vec![2u8; 5])).unwrap(), (1, 0));
    assert_eq!(writer.append(&mut disk, &WalRecord::new(vec![3u8; 5])).unwrap(), (1, 14));
    let bytes = disk.read(FileId::Wal(1)).unwrap();
    assert_eq!(&bytes[9..14], &[2u8; 5]);
    assert_eq!(&bytes[23..28], &[3u8; 5]);
}
