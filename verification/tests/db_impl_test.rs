use lsm_core::db_impl::{
    batch_header, contains_num, insert_ascending, install_compaction_results, lookup_memtables,
    table_meta, CompactionStart, CompactionState, CompactionStats, LogReplay, ReplayEnd, DB,
};
use lsm_core::compaction::Compaction;
use lsm_core::drop_rules::Verdict;
use lsm_core::filenames::{
    current_file_name, lock_file_name, log_file_name, manifest_file_name, parse_file_name,
    table_file_name, FileType,
};
use lsm_core::write_batch::WriteBatch;
use std::collections::BTreeMap;
use lsm_core::key_types::{make_internal_key, LookupKey};
use lsm_core::snapshot::SnapshotList;
use lsm_core::types::{Options, StatusCode, ValueType};
use lsm_core::version::{FileMetaData, Lookup, Version};
use lsm_core::version_edit::VersionEdit;
use lsm_core::version_set::{ManifestAction, SCORE_ONE};

const CMP_NAME: &[u8] = b"leveldb.BytewiseComparator";

fn for_test() -> Options {
    Options {
        create_if_missing: true,
        error_if_exists: false,
        write_buffer_size: 4 << 20,
        max_file_size: 2 << 20,
        reuse_logs: false,
        reuse_manifest: true,
        max_open_files: 1024,
    }
}

fn db_file(num: u64, size: u64, lo: (&[u8], u64), hi: (&[u8], u64)) -> FileMetaData {
    FileMetaData {
        allowed_seeks: 0,
        num,
        size,
        smallest: make_internal_key(lo.0, lo.1, ValueType::TypeValue),
        largest: make_internal_key(hi.0, hi.1, ValueType::TypeValue),
    }
}

fn db_nums(files: &[FileMetaData]) -> Vec<u64> {
    files.iter().map(|f| f.num).collect()
}

/// A version with two overlapping files at level 0, three files at level 1, and two files each
/// at levels 2 and 3.
fn make_version() -> Version {
    let mut v = Version::new();
    v.files[0] = vec![
        db_file(1, 163, (b"aaa", 21), (b"aba", 18)),
        db_file(2, 163, (b"aac", 26), (b"bba", 22)),
    ];
    v.files[1] = vec![
        db_file(3, 150, (b"aaa", 17), (b"cba", 15)),
        db_file(4, 150, (b"daa", 14), (b"dba", 12)),
        db_file(5, 150, (b"eaa", 11), (b"fab", 9)),
    ];
    v.files[2] = vec![
        db_file(6, 218, (b"cab", 8), (b"fba", 6)),
        db_file(7, 150, (b"gaa", 5), (b"gba", 3)),
    ];
    v.files[3] = vec![
        db_file(8, 140, (b"haa", 2), (b"hba", 1)),
        db_file(9, 140, (b"iaa", 0), (b"iba", 0)),
    ];
    v
}

/// The records of a manifest that holds the tables of make_version().
fn build_manifest() -> Vec<Vec<u8>> {
    let v = make_version();
    let mut ve = VersionEdit::new();
    ve.set_comparator_name(CMP_NAME);
    ve.set_log_num(0);
    // 9 files + 1 manifest.
    ve.set_next_file(11);
    // 28 entries in these tables.
    ve.set_last_seq(28);
    for l in 0..7 {
        for f in &v.files[l] {
            ve.add_file(l, f.clone());
        }
    }
    vec![ve.encode()]
}

/// A database over the tables of make_version(), opened: manifest 11 replayed and kept, log
/// allocated.
fn build_db() -> DB {
    let mut db = DB::new("db", for_test(), CMP_NAME);
    assert!(db.acquire_lock(None, "").is_ok());
    assert_eq!(db.check_existing(true).unwrap(), false);
    let save_manifest = db.vset.recover(&build_manifest(), 11).unwrap();
    assert!(!save_manifest);
    let mut found = vec![(11, FileType::Descriptor), (0, FileType::Current)];
    for n in 1..=9 {
        found.push((n, FileType::Table));
    }
    assert_eq!(db.recover(&found).unwrap(), Vec::<u64>::new());
    db.finish_recover(0);
    let lognum = db.vset.new_file_number();
    db.log_num = Some(lognum);
    db
}

/// What a directory holds: for each file its records. A table holds the keys of its entries.
struct Disk {
    files: BTreeMap<String, Vec<Vec<u8>>>,
    manifest: Option<String>,
}

/// An opened database with what it keeps outside the engine: its write buffer and its log.
struct Opened {
    db: DB,
    mem: Vec<(Vec<u8>, Vec<u8>)>,
    log: String,
}

impl Disk {
    fn new() -> Disk {
        Disk { files: BTreeMap::new(), manifest: None }
    }

    fn has(&self, path: &str) -> bool {
        self.files.contains_key(path)
    }

    fn run(&mut self, name: &str, steps: &[ManifestAction]) {
        for a in steps {
            match a {
                ManifestAction::Create(n) => {
                    let path = manifest_file_name(name, *n);
                    self.files.insert(path.clone(), vec![]);
                    self.manifest = Some(path);
                }
                ManifestAction::Append(bytes) => {
                    let path = self.manifest.clone().expect("the manifest is open");
                    self.files.get_mut(&path).unwrap().push(bytes.clone());
                }
                ManifestAction::Sync => assert!(self.manifest.is_some()),
                ManifestAction::SetCurrent(n) => {
                    let base = manifest_file_name("", *n)[1..].to_string();
                    self.files.insert(current_file_name(name), vec![base.into_bytes()]);
                }
            }
        }
    }

    fn found(&self, name: &str) -> Vec<(String, (u64, FileType))> {
        let prefix = format!("{}/", name);
        self.files
            .keys()
            .filter(|k| k.starts_with(&prefix))
            .filter_map(|k| parse_file_name(&k[prefix.len()..]).map(|p| (k.clone(), p)))
            .collect()
    }

    /// Opens the database `name`: the steps that opening takes, each decided by the engine.
    fn open(&mut self, name: &str, opt: Options) -> Opened {
        let mut db = DB::new(name, opt, CMP_NAME);
        self.files.insert(lock_file_name(name), vec![]);
        db.acquire_lock(None, "").unwrap();
        if db.check_existing(self.has(&current_file_name(name))).unwrap() {
            let steps = db.initial_manifest();
            self.run(name, &steps);
        }
        self.manifest = None;
        let current = String::from_utf8(self.files[&current_file_name(name)][0].clone()).unwrap();
        let manifest_num = match parse_file_name(&current) {
            Some((n, FileType::Descriptor)) => n,
            other => panic!("CURRENT names {:?}", other),
        };
        let records = self.files[&manifest_file_name(name, manifest_num)].clone();
        let mut save_manifest = db.vset.recover(&records, manifest_num).unwrap();
        if db.vset.manifest_open {
            self.manifest = Some(manifest_file_name(name, db.vset.manifest_num));
        }

        let found: Vec<(u64, FileType)> = self.found(name).into_iter().map(|f| f.1).collect();
        let logs = db.recover(&found).unwrap();
        let mut ve = VersionEdit::new();
        let mut mem = Vec::new();
        let mut log = None;
        let mut max_seq = 0;
        for (i, lognum) in logs.iter().enumerate() {
            let path = log_file_name(name, *lognum);
            let mut replay = LogReplay::new();
            let mut buffer = Vec::new();
            for record in self.files[&path].clone() {
                if replay.on_record(&record).is_none() {
                    continue;
                }
                let (seq, batch) = WriteBatch::decode(&record).unwrap();
                for (k, e) in batch.entries.iter().enumerate() {
                    buffer.push((make_internal_key(&e.key, seq + k as u64, e.kind), e.value.clone()));
                }
                let usage = buffer.iter().map(|e| (e.0.len() + e.1.len()) as u64).sum();
                assert!(!replay.after_insert(usage, db.opt.write_buffer_size));
            }
            let opt = db.opt;
            match replay.finish(&opt, i == logs.len() - 1, buffer.len()) {
                ReplayEnd::Reuse => {
                    db.log_num = Some(*lognum);
                    log = Some(path);
                    mem = buffer;
                }
                ReplayEnd::Flush => {
                    let num = db.vset.new_file_number();
                    buffer.sort();
                    let keys: Vec<Vec<u8>> = buffer.iter().map(|e| e.0.clone()).collect();
                    self.files.insert(table_file_name(name, num), keys.clone());
                    let fmd = table_meta(&keys, num, 100);
                    db.write_l0_table(num, fmd, 0, &mut ve, false);
                }
                ReplayEnd::Nothing => {}
            }
            save_manifest = save_manifest || replay.save_manifest;
            max_seq = max_seq.max(replay.max_seq);
            db.vset.mark_file_number_used(*lognum);
        }
        db.finish_recover(max_seq);

        let log = match log {
            Some(path) => path,
            None => {
                let lognum = db.vset.new_file_number();
                ve.set_log_num(lognum);
                db.log_num = Some(lognum);
                self.files.insert(log_file_name(name, lognum), vec![]);
                log_file_name(name, lognum)
            }
        };
        if save_manifest {
            ve.set_log_num(db.log_num.unwrap_or(0));
            let w = db.vset.log_and_apply(ve).unwrap();
            self.run(name, &w.actions);
            db.vset.install(w);
        }

        let found = self.found(name);
        let parsed: Vec<(u64, FileType)> = found.iter().map(|f| f.1).collect();
        for i in db.delete_obsolete_files(&parsed, &vec![]) {
            self.files.remove(&found[i].0);
        }
        Opened { db, mem, log }
    }

    fn put(&mut self, o: &mut Opened, k: &[u8], v: &[u8]) {
        let mut wb = WriteBatch::new();
        wb.put(k, v);
        let seq = o.db.next_sequence();
        self.files.get_mut(&o.log).unwrap().push(wb.encode(seq));
        o.mem.push((make_internal_key(k, seq, ValueType::TypeValue), v.to_vec()));
        o.db.write(1);
    }
}

fn build_memtable_keys() -> Vec<Vec<u8>> {
    let mut keys = Vec::new();
    let mut i = 1;
    for k in ["abc", "def", "ghi", "jkl", "mno", "aabc", "test123"].iter() {
        keys.push(make_internal_key(k.as_bytes(), i, ValueType::TypeValue));
        i += 1;
    }
    keys.sort_by(|a, b| {
        if lsm_core::key_types::internal_key_lt(a, b) {
            std::cmp::Ordering::Less
        } else if lsm_core::key_types::internal_key_lt(b, a) {
            std::cmp::Ordering::Greater
        } else {
            std::cmp::Ordering::Equal
        }
    });
    keys
}

#[test]
fn test_db_impl_init() {
    // A sanity check for recovery and basic persistence.
    let opt = for_test();
    let mut env = Disk::new();

    {
        let mut opt = opt;
        opt.reuse_manifest = false;
        let _ = env.open("otherdb", opt);

        assert!(env.has("otherdb/CURRENT"));
        // Database is initialized and the initial manifest is replaced.
        assert!(!env.has("otherdb/MANIFEST-000001"));
        assert!(env.has("otherdb/MANIFEST-000002"));
        assert!(env.has("otherdb/000003.log"));
    }

    {
        let mut opt = opt;
        opt.reuse_manifest = true;
        let mut db = env.open("db", opt);

        assert!(env.has("db/CURRENT"));
        // Database is initialized and initial manifest reused.
        assert!(env.has("db/MANIFEST-000001"));
        assert!(env.has("db/LOCK"));
        assert!(env.has("db/000003.log"));
        assert!(db.db.vset.manifest_open);
        assert_eq!(db.db.vset.manifest_num, 1);

        env.put(&mut db, "abc".as_bytes(), "def".as_bytes());
        env.put(&mut db, "abd".as_bytes(), "def".as_bytes());
    }

    {
        let mut opt = opt;
        opt.reuse_manifest = false;
        let mut db = env.open("db", opt);

        // Obsolete manifest is deleted.
        assert!(!env.has("db/MANIFEST-000001"));
        // New manifest is created.
        assert!(env.has("db/MANIFEST-000002"));
        // Obsolete log file is deleted.
        assert!(!env.has("db/000003.log"));
        // New L0 table has been added.
        assert!(env.has("db/000003.ldb"));
        assert!(env.has("db/000004.log"));
        // Check that entry exists and is correct.
        let current = &db.db.vset.current;
        assert_eq!(current.files_for_key(b"abc"), vec![(0, 0)]);
        assert_eq!(current.files[0][0].num, 3);
        assert!(env.files["db/000003.ldb"]
            .contains(&LookupKey::new("abc".as_bytes(), 1).internal_key().to_vec()));
        assert_eq!(db.db.vset.last_seq, 2);
        env.put(&mut db, "abe".as_bytes(), "def".as_bytes());
    }

    {
        // The manifest is reused: no new manifest is written, and CURRENT stays.
        let mut opt = opt;
        opt.reuse_logs = true;
        let db = env.open("db", opt);

        assert!(!env.has("db/MANIFEST-000001"));
        assert!(env.has("db/MANIFEST-000002"));
        assert!(!env.has("db/MANIFEST-000005"));
        assert!(env.has("db/000004.log"));
        // 000004 should be reused, no new log file should be created.
        assert!(!env.has("db/000006.log"));
        assert_eq!(env.files["db/CURRENT"], vec![b"MANIFEST-000002".to_vec()]);
        // Log is reused, so memtable should contain last written entry from above.
        assert_eq!(1, db.mem.len());
        assert_eq!(
            db.mem[0],
            (LookupKey::new("abe".as_bytes(), 3).internal_key().to_vec(), b"def".to_vec())
        );
        assert_eq!(db.db.vset.last_seq, 3);
        // The table written before is still in the version that was recovered.
        assert_eq!(db.db.vset.current.files[0][0].num, 3);
        // The record of this open was appended to the manifest that was kept.
        assert_eq!(env.files["db/MANIFEST-000002"].len(), 3);
    }
}

#[test]
fn test_db_impl_init_replays_logs_in_order() {
    let mut db = build_db();
    db.vset.log_num = 4;
    let found = vec![
        (9, FileType::Log),
        (3, FileType::Log),
        (4, FileType::Log),
        (12, FileType::Log),
        (5, FileType::Table),
        (11, FileType::Descriptor),
        (1, FileType::Table),
        (2, FileType::Table),
        (3, FileType::Table),
        (4, FileType::Table),
        (6, FileType::Table),
        (7, FileType::Table),
        (8, FileType::Table),
        (9, FileType::Table),
    ];
    assert_eq!(db.recover(&found).unwrap(), vec![4, 9, 12]);
    let missing = vec![(1, FileType::Table), (9, FileType::Log)];
    let err = db.recover(&missing).unwrap_err();
    assert_eq!(err.code(), StatusCode::Corruption);
    assert_eq!(err.message(), "missing live files (see log)");
    // A log with the number of a table does not stand for the table's file, but its number
    // counts as seen.
    db.finish_recover(40);
    assert_eq!(db.vset.last_seq, 40);
    db.finish_recover(3);
    assert_eq!(db.vset.last_seq, 40);
}

#[allow(unused_variables)]
#[test]
fn test_db_impl_locking() {
    let mut db = DB::new("db", for_test(), CMP_NAME);
    assert!(db.acquire_lock(None, "").is_ok());
    assert!(db.lock_held);
    let mut second = DB::new("db", for_test(), CMP_NAME);
    let err = second.acquire_lock(Some(StatusCode::LockError), "already locked").unwrap_err();
    assert_eq!(err.code(), StatusCode::LockError);
    assert_eq!(err.message(), "database lock is held by another instance");
    assert!(!second.lock_held);
    let err = second.acquire_lock(Some(StatusCode::IOError), "disk gone").unwrap_err();
    assert_eq!(err.code(), StatusCode::IOError);
    assert_eq!(err.message(), "disk gone");
    assert!(!second.release_lock());
    assert!(db.release_lock());
    assert!(!db.lock_held);
    assert!(!db.release_lock());
}

#[test]
fn test_db_impl_build_table() {
    let keys = build_memtable_keys();

    let f = table_meta(&keys, 123, 379);
    assert_eq!(table_file_name("db", 123), "db/000123.ldb");

    assert_eq!(LookupKey::new("aabc".as_bytes(), 6).internal_key(), f.smallest.as_slice());
    assert_eq!(LookupKey::new("test123".as_bytes(), 7).internal_key(), f.largest.as_slice());
    assert_eq!(379, f.size);
    assert_eq!(123, f.num);
    assert_eq!(7, keys.len());

    let empty = table_meta(&vec![], 123, 0);
    assert_eq!((empty.num, empty.size), (0, 0));
    assert!(empty.smallest.is_empty() && empty.largest.is_empty());
}

#[allow(unused_variables)]
#[test]
fn test_db_impl_build_db_sanity() {
    let db = build_db();
    assert_eq!(db.vset.manifest_num, 11);
    assert_eq!(db.log_num, Some(12));
    assert_eq!(log_file_name(&db.name, 12), "db/000012.log");
    assert_eq!(parse_file_name("000012.log"), Some((12, FileType::Log)));
}

#[test]
fn test_db_impl_get_from_table_with_snapshot() {
    let mut db = build_db();

    assert_eq!(28, db.vset.last_seq);

    // seq = 29
    assert_eq!(db.next_sequence(), 29);
    db.write(1);
    let old_ss = db.get_snapshot();
    // seq = 30
    assert_eq!(db.next_sequence(), 30);
    db.write(1);
    assert_eq!(old_ss.sequence(), 29);
    assert_eq!(db.vset.last_seq, 30);

    // What is written at 30 sorts before the snapshot's lookup key and is not seen by it.
    let xyz = make_internal_key(b"xyz", 30, ValueType::TypeValue);
    let at_snapshot = LookupKey::new(b"xyz", old_ss.sequence());
    assert!(lsm_core::key_types::internal_key_lt(&xyz, at_snapshot.internal_key()));
    let at_latest = LookupKey::new(b"xyz", db.vset.last_seq);
    assert!(!lsm_core::key_types::internal_key_lt(&xyz, at_latest.internal_key()));

    // memtable get
    assert!(matches!(
        lookup_memtables(Lookup::Found(b"123".to_vec()), None),
        Lookup::Found(v) if v == b"123"
    ));
    assert!(matches!(lookup_memtables(Lookup::Deleted, Some(Lookup::Found(vec![1]))), Lookup::Deleted));
    assert!(matches!(
        lookup_memtables(Lookup::Missing, Some(Lookup::Found(vec![1]))),
        Lookup::Found(v) if v == vec![1]
    ));
    assert!(matches!(lookup_memtables(Lookup::Missing, Some(Lookup::Deleted)), Lookup::Deleted));
    assert!(matches!(lookup_memtables(Lookup::Missing, Some(Lookup::Missing)), Lookup::Missing));
    assert!(matches!(lookup_memtables(Lookup::Missing, None), Lookup::Missing));

    // table get
    assert_eq!(db.vset.current.files_for_key(b"caa"), vec![(1, 0)]);
    {
        let ss = db.get_snapshot();
        assert_eq!(ss.sequence(), 30);
    }
    assert_eq!(db.snaps.oldest(), 29);
    assert!(db.snaps.release(old_ss));
    assert_eq!(db.snaps.oldest(), 30);
}

#[test]
fn test_db_impl_compact_single_file() {
    let mut db = build_db();
    // set_file_to_compact(&mut db, 4)
    db.vset.current.file_to_compact = Some(4);
    db.vset.current.file_to_compact_lvl = 1;
    assert!(db.maybe_do_compaction());
    let mut state = match db.start_compaction() {
        CompactionStart::Merge(s) => s,
        other => panic!("no merge: {:?}", other),
    };
    assert_eq!(db_nums(&state.compaction.inputs0), vec![3, 4, 5]);
    assert_eq!(db_nums(&state.compaction.inputs1), vec![6]);
    assert_eq!(state.smallest_seq, 28);

    let fnum = db.vset.new_file_number();
    assert_eq!(fnum, 13);
    state.open_output(fnum);
    let key = make_internal_key(b"aaa", 17, ValueType::TypeValue);
    assert!(!state.wrote(&key, 100, db.opt.max_file_size));
    assert!(!state.wrote(&make_internal_key(b"fba", 6, ValueType::TypeValue), 200, 1 << 21));
    assert!(state.finish_output(300));
    let w = db.vset.log_and_apply(install_compaction_results(state)).unwrap();
    db.vset.install(w);

    let found: Vec<(u64, FileType)> =
        vec![3, 4, 5, 13].into_iter().map(|n| (n, FileType::Table)).collect();
    let gone = db.delete_obsolete_files(&found, &vec![]);
    let swept: Vec<String> = gone.iter().map(|i| table_file_name(&db.name, found[*i].0)).collect();
    assert_eq!(swept, vec!["db/000003.ldb", "db/000004.ldb", "db/000005.ldb"]);
    assert!(!gone.contains(&3));
}

#[test]
fn test_db_impl_compaction_trivial_move() {
    let mut db = DB::new("db", for_test(), CMP_NAME);
    let first = db.initialize_db();
    let mut opt = for_test();
    opt.reuse_manifest = false;
    db.vset.opt = opt;
    db.vset.recover(&vec![first.encode()], 1).unwrap();
    let lognum = db.vset.new_file_number();
    db.log_num = Some(lognum);

    // abc, ab3, ab0, abz are put at sequences 1 to 4.
    db.write(4);
    assert_eq!(db.vset.last_seq, 4);
    db.rotated(lognum);
    assert!(db.has_imm);
    assert!(matches!(db.start_compaction(), CompactionStart::Memtable));

    let num = db.vset.new_file_number();
    assert_eq!(table_file_name("db", num), "db/000004.ldb");
    let keys = vec![
        make_internal_key(b"ab0", 3, ValueType::TypeValue),
        make_internal_key(b"ab3", 2, ValueType::TypeValue),
        make_internal_key(b"abc", 1, ValueType::TypeValue),
        make_internal_key(b"abz", 4, ValueType::TypeValue),
    ];
    let fmd = table_meta(&keys, num, 200);
    let mut ve = VersionEdit::new();
    assert_eq!(db.write_l0_table(num, fmd, 17, &mut ve, true), Some(2));
    db.compact_memtable(&mut ve);
    assert_eq!(ve.log_number, Some(lognum));
    let w = db.vset.log_and_apply(ve).unwrap();
    db.vset.install(w);
    db.memtable_compacted();
    assert_eq!(db.cstats[2], CompactionStats { micros: 17, read: 0, written: 200 });

    {
        let v = &mut db.vset.current;
        assert_eq!(v.files[2].len(), 1);
        v.file_to_compact = Some(v.files[2][0].num);
        v.file_to_compact_lvl = 2;
    }

    assert!(db.maybe_do_compaction());
    let next_before = db.vset.next_file_num;
    let edit = match db.start_compaction() {
        CompactionStart::TrivialMove(e) => e,
        other => panic!("no trivial move: {:?}", other),
    };
    assert_eq!(edit.deleted, vec![(2, 4)]);
    assert_eq!(edit.new_files.len(), 1);
    assert_eq!((edit.new_files[0].0, edit.new_files[0].1.num), (3, 4));
    let w = db.vset.log_and_apply(edit).unwrap();
    db.vset.install(w);

    {
        let v = &db.vset.current;
        assert_eq!(1, v.files[3].len());
        assert_eq!(0, v.files[2].len());
    }
    assert_eq!(db.vset.next_file_num, next_before);
}

#[test]
fn test_db_impl_memtable_compaction() {
    let mut opt = for_test();
    opt.write_buffer_size = 25;
    let mut db = DB::new("db", opt, CMP_NAME);

    // The filled memtable uses more than 25 bytes.
    let keys = build_memtable_keys();
    assert!(!db.make_room_for_write(24));
    assert!(db.make_room_for_write(25));
    assert!(db.make_room_for_write(7 * 30));

    // Trigger memtable compaction.
    let logn = db.vset.new_file_number();
    db.rotated(logn);
    assert_eq!(log_file_name("db", logn), "db/000002.log");
    assert!(db.maybe_do_compaction());
    assert!(matches!(db.start_compaction(), CompactionStart::Memtable));
    let num = db.vset.new_file_number();
    assert_eq!(table_file_name("db", num), "db/000003.ldb");
    let fmd = table_meta(&keys, num, 351);
    let mut ve = VersionEdit::new();
    let placed = db.write_l0_table(num, fmd, 0, &mut ve, false);
    assert_eq!(placed, Some(0));
    assert_eq!(351, ve.new_files[0].1.size);
    assert_eq!(7, keys.len());
    db.memtable_compacted();
    assert!(!db.has_imm);
}

#[test]
fn test_db_impl_memtable_compaction_of_nothing_takes_the_number_back() {
    let mut db = DB::new("db", for_test(), CMP_NAME);
    let num = db.vset.new_file_number();
    let mut ve = VersionEdit::new();
    let fmd = table_meta(&vec![], num, 0);
    assert_eq!(db.write_l0_table(num, fmd, 5, &mut ve, false), None);
    assert_eq!(db.vset.next_file_num, num);
    assert!(ve.new_files.is_empty());
    assert_eq!(db.cstats[0], CompactionStats::default());
}

#[test]
fn test_db_impl_compaction() {
    let mut v = make_version();

    // Trigger size compaction at level 1.
    v.compaction_score = 2 * SCORE_ONE;
    v.compaction_level = Some(1);

    let mut db = DB::new("db", for_test(), CMP_NAME);
    db.vset.add_version(v);
    db.vset.next_file_num = 10;
    db.vset.last_seq = 28;

    let mut state = match db.start_compaction() {
        CompactionStart::Merge(s) => s,
        other => panic!("no merge: {:?}", other),
    };
    assert_eq!(db_nums(&state.compaction.inputs0), vec![3, 4, 5]);
    assert_eq!(db_nums(&state.compaction.inputs1), vec![6]);
    assert!(state.compaction.grandparents.is_empty());
    assert_eq!(state.compaction.edit.compaction_ptrs.len(), 1);
    assert!(state.compaction.edit.deleted.is_empty());
    assert!(state.compaction.edit.new_files.is_empty());
    assert_eq!(state.compaction.make_input_iterator(), (vec![], vec![vec![3, 4, 5], vec![6]]));

    // The merged entries of files 3 to 6, in order.
    let entries: [(&[u8], u64); 12] = [
        (b"aaa", 17),
        (b"cab", 16),
        (b"cab", 8),
        (b"cba", 15),
        (b"daa", 14),
        (b"dab", 13),
        (b"dba", 12),
        (b"eaa", 11),
        (b"eab", 10),
        (b"fab", 9),
        (b"fab", 7),
        (b"fba", 6),
    ];
    let keys: Vec<Vec<u8>> =
        entries.iter().map(|e| make_internal_key(e.0, e.1, ValueType::TypeValue)).collect();
    let mut written = 0;
    for k in &keys {
        let step = state.next(k);
        assert!(!step.finish_before);
        if step.verdict == Verdict::Write {
            if !state.builder_open {
                let fnum = db.vset.new_file_number();
                state.open_output(fnum);
            }
            assert!(!state.wrote(k, 32 * (written + 1), db.opt.max_file_size));
            written += 1;
        }
    }
    // No snapshot is held and every entry is older than the last sequence, so of "cab" and
    // "fab" the newer entry alone is written.
    assert_eq!(written, 10);
    assert_eq!(state.total_bytes, 0);
    assert!(state.finish_output(375));
    assert_eq!(state.outputs.len(), 1);
    assert_eq!(table_file_name("db", state.outputs[0].num), "db/000010.ldb");
    assert_eq!(state.outputs[0].size, 375);
    assert_eq!(state.outputs[0].smallest, keys[0]);
    assert_eq!(state.outputs[0].largest, keys[11]);
    assert_eq!(state.total_bytes, 375);
    let stats = state.stats(9);
    assert_eq!(stats, CompactionStats { micros: 9, read: 668, written: 375 });
    db.add_stats(1, stats);

    let edit = install_compaction_results(state);
    assert_eq!(edit.deleted, vec![(1, 3), (1, 4), (1, 5), (2, 6)]);
    assert_eq!(edit.new_files.iter().map(|f| (f.0, f.1.num)).collect::<Vec<_>>(), vec![(2, 10)]);
    let w = db.vset.log_and_apply(edit).unwrap();
    db.vset.install(w);

    let found = vec![(3, FileType::Table), (10, FileType::Table)];
    assert_eq!(db.delete_obsolete_files(&found, &vec![]), vec![0]);

    let v = &db.vset.current;
    assert_eq!(0, v.files[1].len());
    assert_eq!(2, v.files[2].len());
    assert_eq!(db_nums(&v.files[2]), vec![10, 7]);
    assert_eq!(db.cstats[1], stats);
}

#[test]
fn test_db_impl_compaction_trivial() {
    let mut v = make_version();

    let to_compact = v.files[2][0].num;
    v.file_to_compact = Some(to_compact);
    v.file_to_compact_lvl = 2;

    let mut db = DB::new("db", for_test(), CMP_NAME);
    db.vset.add_version(v);
    db.vset.next_file_num = 10;

    let edit = match db.start_compaction() {
        CompactionStart::TrivialMove(e) => e,
        other => panic!("no trivial move: {:?}", other),
    };
    assert_eq!(edit.deleted, vec![(2, 6)]);
    assert_eq!(
        edit.compaction_ptrs,
        vec![(2, make_internal_key(b"fba", 6, ValueType::TypeValue))]
    );
    assert_eq!(db.vset.compaction_ptrs[2], make_internal_key(b"fba", 6, ValueType::TypeValue));
    let w = db.vset.log_and_apply(edit).unwrap();
    db.vset.install(w);

    // The file is still live and no file number was handed out.
    let found = vec![(6, FileType::Table), (10, FileType::Table)];
    assert_eq!(db.delete_obsolete_files(&found, &vec![]), vec![1]);
    assert_eq!(db.vset.next_file_num, 10);
    assert_eq!(218, db.vset.current.files[3][0].size);

    let v = &db.vset.current;
    assert_eq!(1, v.files[2].len());
    assert_eq!(3, v.files[3].len());
    assert_eq!(db_nums(&v.files[3]), vec![6, 8, 9]);
}

#[test]
fn a_merge_that_fails_leaves_the_version_as_it_was() {
    let mut v = make_version();
    v.compaction_score = 2 * SCORE_ONE;
    v.compaction_level = Some(1);
    let mut db = DB::new("db", for_test(), CMP_NAME);
    db.vset.add_version(v);
    db.vset.next_file_num = 10;
    let mut state = match db.start_compaction() {
        CompactionStart::Merge(s) => s,
        other => panic!("no merge: {:?}", other),
    };
    for size in [100, 200] {
        let fnum = db.vset.new_file_number();
        state.open_output(fnum);
        state.wrote(&make_internal_key(b"aaa", 17, ValueType::TypeValue), 1, 10);
        if size == 100 {
            assert!(state.finish_output(size));
        }
    }
    // Writing fails here: the outputs go and nothing is installed.
    let names = state.abandon("db");
    assert_eq!(names, vec!["db/000010.ldb".to_string(), "db/000011.ldb".to_string()]);
    let after = make_version();
    for l in 0..7 {
        assert_eq!(db.vset.current.files[l], after.files[l]);
    }
    let found: Vec<(u64, FileType)> = (1..=11).map(|n| (n, FileType::Table)).collect();
    assert_eq!(db.delete_obsolete_files(&found, &vec![]), vec![9, 10]);
}

#[test]
fn test_db_impl_compaction_state_cleanup() {
    let name = "db";

    let mut fmd = FileMetaData::new();
    fmd.num = 1;

    let mut cs = CompactionState::new(Compaction::new(&for_test(), 2, &Version::new()));
    cs.outputs = vec![fmd];
    let names = cs.cleanup(name);

    assert_eq!(names, vec!["db/000001.ldb".to_string()]);
    assert!(cs.outputs.is_empty());
}

#[test]
fn start_compaction_does_nothing_once_scores_are_below_one() {
    let mut v = make_version();
    v.compaction_score = SCORE_ONE - 1;
    v.compaction_level = Some(1);
    let mut db = DB::new("db", for_test(), CMP_NAME);
    db.vset.add_version(v);
    assert!(!db.maybe_do_compaction());
    assert!(matches!(db.start_compaction(), CompactionStart::Nothing));
    assert!(matches!(db.start_compaction(), CompactionStart::Nothing));
    assert!(db.vset.compaction_ptrs.iter().all(|p| p.is_empty()));
}

#[test]
fn merge_takes_the_oldest_snapshot_as_smallest_sequence() {
    let mut v = make_version();
    v.compaction_score = SCORE_ONE;
    v.compaction_level = Some(1);
    let mut db = DB::new("db", for_test(), CMP_NAME);
    db.vset.add_version(v);
    db.vset.last_seq = 28;
    let s1 = db.get_snapshot();
    db.write(2);
    let _s2 = db.get_snapshot();
    match db.start_compaction() {
        CompactionStart::Merge(s) => assert_eq!(s.smallest_seq, 28),
        other => panic!("no merge: {:?}", other),
    }
    assert!(db.snaps.release(s1));
    match db.start_compaction() {
        CompactionStart::Merge(s) => assert_eq!(s.smallest_seq, 30),
        other => panic!("no merge: {:?}", other),
    }
}

#[test]
fn output_ends_before_a_key_that_overlaps_too_many_grandparents() {
    let mut opt = for_test();
    opt.max_file_size = 10;
    let mut v = Version::new();
    v.files[1] = vec![db_file(3, 50, (b"a", 9), (b"z", 1))];
    v.files[3] = vec![
        db_file(5, 60, (b"b", 9), (b"c", 1)),
        db_file(6, 60, (b"d", 9), (b"e", 1)),
    ];
    v.compaction_score = SCORE_ONE;
    v.compaction_level = Some(1);
    let mut db = DB::new("db", opt, CMP_NAME);
    db.vset.add_version(v);
    let mut state = match db.start_compaction() {
        CompactionStart::Merge(s) => s,
        other => panic!("no merge: {:?}", other),
    };
    assert_eq!(db_nums(&state.compaction.grandparents), vec![5, 6]);
    let keys: Vec<Vec<u8>> = [&b"a"[..], b"cc", b"f", b"g"]
        .iter()
        .map(|k| make_internal_key(k, 5, ValueType::TypeValue))
        .collect();
    let mut cuts = Vec::new();
    for k in &keys {
        let step = state.next(k);
        assert_eq!(step.verdict, Verdict::Write);
        cuts.push(step.finish_before);
        if step.finish_before {
            assert!(state.finish_output(11));
        }
        if !state.builder_open {
            let fnum = db.vset.new_file_number();
            state.open_output(fnum);
        }
        state.wrote(k, 1, 10);
    }
    assert_eq!(cuts, vec![false, false, true, false]);
    assert!(state.wrote(&keys[3], 11, 10));
    assert!(state.finish_output(12));
    assert_eq!(state.outputs.len(), 2);
    assert_eq!(state.outputs[0].largest, keys[1]);
    assert_eq!(state.outputs[1].smallest, keys[2]);
    assert_eq!(state.total_bytes, 23);
}

#[test]
fn batch_header_and_log_replay() {
    assert_eq!(batch_header(&[0; 11]), None);
    let mut rec = vec![29, 0, 0, 0, 0, 0, 0, 0, 3, 1, 0, 0];
    assert_eq!(batch_header(&rec), Some((29, 259)));
    rec.extend_from_slice(b"entries");
    assert_eq!(batch_header(&rec), Some((29, 259)));

    let mut replay = LogReplay::new();
    assert_eq!(replay.on_record(&[1, 2, 3]), None);
    assert!(!replay.save_manifest);
    assert_eq!(replay.on_record(&rec), Some(29));
    assert_eq!(replay.max_seq, 29 + 259 - 1);
    assert!(replay.save_manifest);
    assert_eq!(replay.on_record(&[5, 0, 0, 0, 0, 0, 0, 0, 1, 0, 0, 0]), Some(5));
    assert_eq!(replay.max_seq, 287);
    assert_eq!(replay.on_record(&[0; 12]), Some(0));
    assert_eq!(replay.max_seq, 287);
    assert_eq!(replay.on_record(&[255, 255, 255, 255, 255, 255, 255, 255, 2, 0, 0, 0]), Some(u64::MAX));
    assert_eq!(replay.max_seq, u64::MAX);

    let mut opt = for_test();
    let mut replay = LogReplay::new();
    assert!(!replay.after_insert(25, 25));
    assert_eq!(replay.finish(&opt, true, 3), ReplayEnd::Flush);
    assert_eq!(replay.finish(&opt, true, 0), ReplayEnd::Nothing);
    opt.reuse_logs = true;
    assert_eq!(replay.finish(&opt, true, 3), ReplayEnd::Reuse);
    assert_eq!(replay.finish(&opt, false, 3), ReplayEnd::Flush);
    assert!(replay.after_insert(26, 25));
    assert_eq!(replay.compactions, 1);
    assert_eq!(replay.finish(&opt, true, 0), ReplayEnd::Nothing);
}

#[test]
fn opening_checks_what_exists() {
    let mut opt = for_test();
    opt.create_if_missing = false;
    let db = DB::new("db", opt, CMP_NAME);
    let err = db.check_existing(false).unwrap_err();
    assert_eq!(err.code(), StatusCode::InvalidArgument);
    assert_eq!(err.message(), "database does not exist and create_if_missing is false");
    assert_eq!(db.check_existing(true).unwrap(), false);
    opt.error_if_exists = true;
    opt.create_if_missing = true;
    let db = DB::new("db", opt, CMP_NAME);
    let err = db.check_existing(true).unwrap_err();
    assert_eq!(err.code(), StatusCode::InvalidArgument);
    assert_eq!(err.message(), "database already exists and error_if_exists is true");
    assert_eq!(db.check_existing(false).unwrap(), true);
}

#[test]
fn sweep_spares_what_is_live_or_pending() {
    let mut db = build_db();
    db.vset.log_num = 12;
    let found = vec![
        (11, FileType::Log),
        (12, FileType::Log),
        (10, FileType::Descriptor),
        (11, FileType::Descriptor),
        (1, FileType::Table),
        (20, FileType::Table),
        (21, FileType::Table),
        (21, FileType::Temp),
        (7, FileType::Temp),
        (0, FileType::Current),
        (0, FileType::DBLock),
        (0, FileType::InfoLog),
    ];
    assert_eq!(db.delete_obsolete_files(&found, &vec![21]), vec![0, 2, 5]);
    assert_eq!(db.delete_obsolete_files(&found, &vec![]), vec![0, 2, 5, 6, 7]);
}

#[test]
fn stats_add_up_and_stop_at_the_top() {
    let mut a = CompactionStats { micros: 1, read: 2, written: 3 };
    a.add(CompactionStats { micros: 10, read: 20, written: u64::MAX });
    assert_eq!(a, CompactionStats { micros: 11, read: 22, written: u64::MAX });
    let mut v = vec![1u64, 5, 9];
    insert_ascending(&mut v, 5);
    insert_ascending(&mut v, 0);
    insert_ascending(&mut v, 10);
    assert_eq!(v, vec![0, 1, 5, 5, 9, 10]);
    assert!(contains_num(&v, 9));
    assert!(!contains_num(&v, 2));
}

#[test]
fn snapshots_are_kept_oldest_first() {
    let mut snaps = SnapshotList::new();
    assert!(snaps.empty());
    assert_eq!(snaps.smallest_seq(77), 77);
    let a = snaps.new_snapshot(5);
    let b = snaps.new_snapshot(5);
    let c = snaps.new_snapshot(9);
    assert_eq!(snaps.oldest(), 5);
    assert_eq!(snaps.smallest_seq(77), 5);
    assert!(snaps.release(a));
    assert!(!snaps.release(a));
    assert_eq!(snaps.oldest(), 5);
    assert!(snaps.release(b));
    assert_eq!(snaps.oldest(), 9);
    assert_eq!(c.sequence(), 9);
    assert!(snaps.release(c));
    assert!(snaps.empty());
}

#[test]
fn outputs_of_a_merge_take_ascending_numbers_and_ordered_keys() {
    let mut v = make_version();
    v.compaction_score = 2 * SCORE_ONE;
    v.compaction_level = Some(1);
    let mut db = DB::new("db", for_test(), CMP_NAME);
    db.vset.add_version(v);
    db.vset.next_file_num = 10;
    let mut state = match db.start_compaction() {
        CompactionStart::Merge(s) => s,
        other => panic!("no merge: {:?}", other),
    };
    let keys: Vec<Vec<u8>> = [&b"aaa"[..], b"cab", b"daa", b"eab", b"fba"]
        .iter()
        .map(|k| make_internal_key(k, 20, ValueType::TypeValue))
        .collect();
    let mut sizes = 0;
    for (i, k) in keys.iter().enumerate() {
        if !state.builder_open {
            assert_eq!(db.open_compaction_output(&mut state), 10 + (i as u64) / 2);
        }
        // Every second entry fills its output.
        if state.wrote(k, if i % 2 == 1 { 11 } else { 1 }, 10) {
            assert!(state.finish_output(100 + i as u64));
            sizes += 100 + i as u128;
            assert_eq!(state.total_bytes, sizes);
        }
    }
    assert!(state.finish_output(7));
    assert_eq!(db_nums(&state.outputs), vec![10, 11, 12]);
    assert_eq!(db.vset.next_file_num, 13);
    assert_eq!(state.total_bytes, 101 + 103 + 7);
    assert_eq!(state.total_bytes, state.outputs.iter().map(|o| o.size as u128).sum::<u128>());
    for (i, o) in state.outputs.iter().enumerate() {
        assert_eq!(o.smallest, keys[2 * i]);
        assert_eq!(o.largest, keys[(2 * i + 1).min(4)]);
        assert!(!lsm_core::key_types::internal_key_lt(&o.largest, &o.smallest));
        assert!(o.size > 0);
    }
    let edit = install_compaction_results(state);
    assert_eq!(edit.deleted, vec![(1, 3), (1, 4), (1, 5), (2, 6)]);
    assert_eq!(
        edit.new_files.iter().map(|f| (f.0, f.1.num, f.1.size)).collect::<Vec<_>>(),
        vec![(2, 10, 101), (2, 11, 103), (2, 12, 7)]
    );
    assert!(edit.new_files.iter().all(|f| f.1.num < db.vset.next_file_num));
    let bytes = edit.encode();
    let back = VersionEdit::decode_from(&bytes).unwrap();
    assert_eq!(back.deleted, edit.deleted);
    assert_eq!(back.new_files.len(), 3);
}

#[test]
fn first_manifest_is_written_before_current_names_it() {
    let db = DB::new("db", for_test(), CMP_NAME);
    let steps = db.initial_manifest();
    assert_eq!(steps.len(), 4);
    assert!(matches!(steps[0], ManifestAction::Create(1)));
    match &steps[1] {
        ManifestAction::Append(b) => assert_eq!(b, &db.initialize_db().encode()),
        other => panic!("{:?}", other),
    }
    assert!(matches!(steps[2], ManifestAction::Sync));
    assert!(matches!(steps[3], ManifestAction::SetCurrent(1)));
}

#[test]
fn table_cache_keeps_ten_files_back() {
    let mut opt = for_test();
    assert_eq!(opt.table_cache_capacity(), 1014);
    opt.max_open_files = 10;
    assert_eq!(opt.table_cache_capacity(), 0);
    assert_eq!(Options::default().max_open_files, 1024);
}
