use crackeddb::compaction::CompactionConfig;
use crackeddb::disk::{
    parse_segment_name, segment_file_name, table_file_name, Disk, DiskOp, FileId,
};
use crackeddb::engine::{EngineConfig, LsmEngine};
use crackeddb::error::Error;
use crackeddb::manifest::{decode_manifest, encode_manifest};
use crackeddb::compaction::Version;

/// Files kept beside a disk by carrying out its changes.
struct Mirror {
    files: Vec<(FileId, Vec<u8>, Vec<u8>)>,
}

impl Mirror {
    fn place(&self, id: FileId) -> usize {
        self.files.iter().position(|f| f.0 == id).unwrap()
    }

    fn perform(&mut self, op: DiskOp) {
        match op {
            DiskOp::Create(id) => {
                assert!(self.files.iter().all(|f| f.0 != id));
                self.files.push((id, Vec::new(), Vec::new()));
            }
            DiskOp::WriteAt(id, offset, bytes) => {
                let i = self.place(id);
                let data = &mut self.files[i].1;
                if data.len() < offset + bytes.len() {
                    data.resize(offset + bytes.len(), 0);
                }
                data[offset..offset + bytes.len()].copy_from_slice(&bytes);
            }
            DiskOp::Sync(id) => {
                let i = self.place(id);
                self.files[i].2 = self.files[i].1.clone();
            }
            DiskOp::Truncate(id, len) => {
                let i = self.place(id);
                self.files[i].1.truncate(len);
            }
            DiskOp::Remove(id) => {
                let i = self.place(id);
                self.files.remove(i);
            }
            DiskOp::Rename(from, to) => {
                self.files.retain(|f| f.0 != to);
                let i = self.place(from);
                self.files[i].0 = to;
                self.files[i].2 = self.files[i].1.clone();
            }
        }
    }

    fn check(&self, mut disk: Disk) {
        for (id, data, _) in &self.files {
            assert_eq!(disk.read(*id), Some(data), "{:?}", id);
        }
        disk.simulate_crash();
        for (id, _, durable) in &self.files {
            assert_eq!(disk.read(*id), Some(durable), "{:?}", id);
        }
    }
}

#[test]
fn carried_out_changes_keep_a_mirror_of_the_files() {
    let config = EngineConfig {
        memtable_size: 400,
        wal_segment_size: 300,
        compaction: CompactionConfig { l0_compaction_trigger: 2, ..Default::default() },
    };
    let mut mirror = Mirror { files: Vec::new() };
    let mut engine = LsmEngine::open(Disk::new(), config).unwrap();
    for i in 0..60u64 {
        engine.put(format!("key{:03}", i % 17).as_bytes(), format!("v{}", i).as_bytes()).unwrap();
        if i % 20 == 19 {
            engine.flush().unwrap();
            engine.maybe_compact().unwrap();
        }
        engine.put_versioned(b"late", b"unsynced", 1000 + i).unwrap();
        for op in engine.take_ops() {
            mirror.perform(op);
        }
        assert!(engine.take_ops().is_empty());
    }
    assert!(mirror.files.iter().any(|f| matches!(f.0, FileId::Sst(_))));
    assert!(mirror.files.iter().any(|f| f.0 == FileId::Manifest));
    mirror.check(engine.into_disk());
}

#[test]
fn files_are_written_cut_and_renamed() {
    let mut disk = Disk::new();
    let id = FileId::Sst(4);
    disk.write_at(id, 3, b"abc");
    assert_eq!(disk.read(id).unwrap(), &vec![0, 0, 0, b'a', b'b', b'c']);
    disk.write_at(id, 4, b"X");
    assert_eq!(disk.read(id).unwrap(), &vec![0, 0, 0, b'a', b'X', b'c']);
    disk.truncate(id, 5);
    assert_eq!(disk.read(id).unwrap().len(), 5);
    disk.append(id, b"!");
    disk.simulate_crash();
    assert_eq!(disk.read(id).unwrap(), &vec![0, 0, 0, b'a', b'X']);
    disk.create(FileId::ManifestTmp);
    disk.append(FileId::ManifestTmp, b"new");
    disk.rename(FileId::ManifestTmp, FileId::Manifest);
    disk.simulate_crash();
    assert_eq!(disk.read(FileId::Manifest).unwrap(), &b"new".to_vec());
    assert!(!disk.contains(FileId::ManifestTmp));
    disk.remove(FileId::Manifest);
    assert!(!disk.contains(FileId::Manifest));
    assert_eq!(disk.wal_numbers(), Vec::<u64>::new());
}

#[test]
fn names_of_files_carry_their_numbers() {
    assert_eq!(segment_file_name(0), "0000000000.wal");
    assert_eq!(segment_file_name(12), "0000000012.wal");
    assert_eq!(table_file_name(7), "000007.sst");
    for n in [0u64, 9, 10, 12345678901, u64::MAX] {
        assert_eq!(parse_segment_name(&segment_file_name(n)), Some(n));
    }
    assert_eq!(parse_segment_name("x.wal"), None);
    assert_eq!(parse_segment_name("1.sst"), None);
}

#[test]
fn a_manifest_comes_back_and_damage_is_seen() {
    let version = Version::new(3);
    let bytes = encode_manifest(&version, 9, 77);
    let (back, file_num, seq) = decode_manifest(&bytes).unwrap();
    assert_eq!((back.levels.len(), file_num, seq), (3, 9, 77));
    assert!(matches!(decode_manifest(&bytes[..bytes.len() - 1]), Err(Error::Corruption(_))));
    assert!(matches!(decode_manifest(&[]), Err(Error::Corruption(_))));
}
