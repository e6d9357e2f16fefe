use lsm_core::key_types::make_internal_key;
use lsm_core::types::{Options, StatusCode, ValueType};
use lsm_core::version::{FileMetaData, Version};
use lsm_core::version_edit::VersionEdit;
use lsm_core::version_set::{
    apply_edit, apply_level, check_level, compute_level_score, finalize, get_range, get_range2,
    is_deleted, ManifestAction, VersionSet, SCORE_ONE,
};

fn vs_file(num: u64, size: u64, lo: &[u8], hi: &[u8]) -> FileMetaData {
    FileMetaData {
        allowed_seeks: 0,
        num,
        size,
        smallest: make_internal_key(lo, 9, ValueType::TypeValue),
        largest: make_internal_key(hi, 1, ValueType::TypeValue),
    }
}

fn vs_options() -> Options {
    Options {
        create_if_missing: true,
        error_if_exists: false,
        write_buffer_size: 4 << 20,
        max_file_size: 2 << 20,
        reuse_logs: false,
        reuse_manifest: false,
        max_open_files: 1024,
    }
}

fn vs_nums(files: &[FileMetaData]) -> Vec<u64> {
    files.iter().map(|f| f.num).collect()
}

fn vs_fixture() -> VersionSet {
    let mut vs = VersionSet::new(vs_options(), b"leveldb.BytewiseComparator");
    let mut e = VersionEdit::new();
    e.add_file(0, vs_file(1, 100, b"aaa", b"aba"));
    e.add_file(0, vs_file(2, 100, b"aac", b"bba"));
    e.add_file(1, vs_file(3, 100, b"caa", b"cba"));
    e.add_file(2, vs_file(5, 100, b"gaa", b"gba"));
    e.add_file(2, vs_file(4, 100, b"cab", b"cbz"));
    e.add_file(3, vs_file(6, 100, b"haa", b"hba"));
    e.add_file(3, vs_file(7, 100, b"iaa", b"iba"));
    let v = vs.apply(&e).unwrap();
    vs.add_version(v);
    vs.next_file_num = 10;
    vs
}

#[test]
fn file_numbers_are_handed_out_in_order() {
    let mut vs = VersionSet::new(vs_options(), b"cmp");
    assert_eq!(vs.next_file_num, 2);
    assert_eq!(vs.new_file_number(), 2);
    assert_eq!(vs.new_file_number(), 3);
    vs.reuse_file_number(2);
    assert_eq!(vs.next_file_num, 4);
    vs.reuse_file_number(3);
    assert_eq!(vs.next_file_num, 3);
    vs.mark_file_number_used(2);
    assert_eq!(vs.next_file_num, 3);
    vs.mark_file_number_used(3);
    assert_eq!(vs.next_file_num, 4);
    vs.mark_file_number_used(10);
    assert_eq!(vs.next_file_num, 11);
    vs.next_file_num = 0;
    vs.reuse_file_number(u64::MAX);
    assert_eq!(vs.next_file_num, 0);
}

#[test]
fn apply_puts_new_files_in_their_place() {
    let vs = vs_fixture();
    let v = &vs.current;
    assert_eq!(vs_nums(&v.files[0]), vec![1, 2]);
    assert_eq!(vs_nums(&v.files[1]), vec![3]);
    assert_eq!(vs_nums(&v.files[2]), vec![4, 5]);
    assert_eq!(vs_nums(&v.files[3]), vec![6, 7]);
    assert_eq!(v.files[2][0].allowed_seeks, 100);
    assert_eq!(vs.num_level_files(2), 2);
    let mut live: Vec<u64> = vs.live_files().into_iter().collect();
    live.sort();
    assert_eq!(live, vec![1, 2, 3, 4, 5, 6, 7]);
}

#[test]
fn apply_deletes_and_adds() {
    let vs = vs_fixture();
    let mut e = VersionEdit::new();
    e.delete_file(1, 3);
    e.delete_file(2, 4);
    e.delete_file(3, 4);
    e.add_file(2, vs_file(10, 16384 * 200, b"caa", b"cbz"));
    e.add_file(0, vs_file(0, 1, b"a", b"z"));
    let v = vs.apply(&e).unwrap();
    assert_eq!(vs_nums(&v.files[0]), vec![0, 1, 2]);
    assert_eq!(vs_nums(&v.files[1]), Vec::<u64>::new());
    assert_eq!(vs_nums(&v.files[2]), vec![10, 5]);
    assert_eq!(vs_nums(&v.files[3]), vec![6, 7]);
    assert_eq!(v.files[2][0].allowed_seeks, 200);
    assert_eq!(v.files[2][1].allowed_seeks, 100);
    assert!(is_deleted(&e.deleted, 2, 4));
    assert!(!is_deleted(&e.deleted, 2, 3));
    assert_eq!(vs_nums(&apply_level(&vs.current.files[2], &e, 2)), vec![10, 5]);
    assert_eq!(vs_nums(&apply_edit(&vs.current, &e).unwrap().files[2]), vec![10, 5]);
}

#[test]
fn apply_refuses_overlap_below_level_zero() {
    let vs = vs_fixture();
    let mut e = VersionEdit::new();
    e.add_file(2, vs_file(10, 1, b"cbz", b"d"));
    let r = vs.apply(&e);
    assert_eq!(r.unwrap_err().code(), StatusCode::Corruption);
    let mut e = VersionEdit::new();
    e.add_file(2, vs_file(10, 1, b"cc", b"d"));
    assert!(vs.apply(&e).is_ok());
    let mut e = VersionEdit::new();
    e.add_file(0, vs_file(10, 1, b"a", b"z"));
    assert!(vs.apply(&e).is_ok());
    let mut e = VersionEdit::new();
    e.add_file(0, vs_file(10, 1, b"z", b"a"));
    assert_eq!(vs.apply(&e).unwrap_err().code(), StatusCode::Corruption);
    let mut e = VersionEdit::new();
    e.add_file(4, vs_file(10, 1, b"b", b"b"));
    e.add_file(4, vs_file(11, 1, b"b", b"b"));
    assert_eq!(vs.apply(&e).unwrap_err().code(), StatusCode::Corruption);
    let mut e = VersionEdit::new();
    e.add_file(0, vs_file(10, 0, b"a", b"b"));
    assert_eq!(vs.apply(&e).unwrap_err().code(), StatusCode::Corruption);
}

#[test]
fn check_level_wants_order_within_and_between_files() {
    assert!(check_level(&vec![], 3));
    assert!(check_level(&vec![vs_file(1, 1, b"a", b"b"), vs_file(2, 1, b"c", b"d")], 1));
    assert!(!check_level(&vec![vs_file(2, 1, b"c", b"d"), vs_file(1, 1, b"a", b"b")], 1));
    assert!(check_level(&vec![vs_file(2, 1, b"c", b"d"), vs_file(1, 1, b"a", b"b")], 0));
    assert!(!check_level(&vec![vs_file(1, 1, b"a", b"c"), vs_file(2, 1, b"c", b"d")], 1));
    assert!(!check_level(&vec![vs_file(1, 1, b"b", b"a")], 0));
    assert!(!check_level(&vec![vs_file(1, 0, b"a", b"b")], 0));
    let same = FileMetaData {
        allowed_seeks: 0,
        num: 1,
        size: 1,
        smallest: make_internal_key(b"a", 1, ValueType::TypeValue),
        largest: make_internal_key(b"a", 9, ValueType::TypeValue),
    };
    assert!(!check_level(&vec![same], 0));
}

#[test]
fn scores() {
    assert_eq!(SCORE_ONE, 104_857_600_000);
    let l0: Vec<FileMetaData> = (0..4).map(|i| vs_file(i, 1, b"a", b"b")).collect();
    assert_eq!(compute_level_score(&l0, 0), SCORE_ONE);
    assert_eq!(compute_level_score(&l0[..3].to_vec(), 0), SCORE_ONE / 4 * 3);
    assert_eq!(compute_level_score(&vec![], 0), 0);
    let ten_mib = vec![vs_file(1, 10 << 20, b"a", b"b")];
    assert_eq!(compute_level_score(&ten_mib, 1), SCORE_ONE);
    assert_eq!(compute_level_score(&ten_mib, 2), SCORE_ONE / 10);
    assert_eq!(compute_level_score(&ten_mib, 3), SCORE_ONE / 100);
    assert_eq!(compute_level_score(&ten_mib, 4), SCORE_ONE / 1000);
    assert_eq!(compute_level_score(&ten_mib, 5), SCORE_ONE / 10000);
    let twenty = vec![vs_file(1, 10 << 20, b"a", b"b"), vs_file(2, 10 << 20, b"c", b"d")];
    assert_eq!(compute_level_score(&twenty, 1), 2 * SCORE_ONE);
    let huge = vec![vs_file(1, u64::MAX, b"a", b"b"); 3];
    assert_eq!(compute_level_score(&huge, 1), 3 * (u64::MAX as u128) * 10000);
}

#[test]
fn finalize_records_the_first_level_with_the_highest_score() {
    let mut v = Version::new();
    finalize(&mut v);
    assert_eq!(v.compaction_level, Some(0));
    assert_eq!(v.compaction_score, 0);
    v.files[0] = vec![vs_file(1, 1, b"a", b"b"), vs_file(2, 1, b"a", b"b")];
    v.files[3] = vec![vs_file(3, 1 << 30, b"a", b"b")];
    v.files[6] = vec![vs_file(4, u64::MAX, b"a", b"b")];
    finalize(&mut v);
    assert_eq!(v.compaction_level, Some(3));
    assert_eq!(v.compaction_score, (1u128 << 30) * 100);
    v.files[1] = vec![vs_file(5, 1 << 30, b"a", b"b")];
    finalize(&mut v);
    assert_eq!(v.compaction_level, Some(1));
    assert_eq!(v.compaction_score, (1u128 << 30) * 10000);
    v.files[1] = vec![vs_file(5, 5 << 20, b"a", b"b")];
    v.files[3].clear();
    finalize(&mut v);
    assert_eq!(v.compaction_level, Some(0));
    assert_eq!(v.compaction_score, SCORE_ONE / 2);
}

#[test]
fn first_manifest_write_begins_with_a_snapshot_and_sets_current_last() {
    let mut vs = vs_fixture();
    vs.manifest_num = 9;
    vs.last_seq = 28;
    vs.log_num = 8;
    vs.compaction_ptrs[2] = b"ptr".to_vec();
    let mut e = VersionEdit::new();
    e.add_file(4, vs_file(9, 5, b"k", b"l"));
    let w = vs.log_and_apply(e).unwrap();
    assert!(w.creates_manifest);
    assert_eq!(w.actions.len(), 5);
    assert!(matches!(w.actions[0], ManifestAction::Create(9)));
    let snapshot = match &w.actions[1] {
        ManifestAction::Append(b) => VersionEdit::decode_from(b).unwrap(),
        _ => panic!("no snapshot"),
    };
    assert_eq!(snapshot.comparator, Some(b"leveldb.BytewiseComparator".to_vec()));
    assert_eq!(snapshot.compaction_ptrs, vec![(2, b"ptr".to_vec())]);
    assert_eq!(
        snapshot.new_files.iter().map(|f| (f.0, f.1.num)).collect::<Vec<_>>(),
        vec![(0, 1), (0, 2), (1, 3), (2, 4), (2, 5), (3, 6), (3, 7)]
    );
    assert!(snapshot.deleted.is_empty() && snapshot.log_number.is_none());
    let written = match &w.actions[2] {
        ManifestAction::Append(b) => VersionEdit::decode_from(b).unwrap(),
        _ => panic!("no edit"),
    };
    assert_eq!(written.log_number, Some(8));
    assert_eq!(written.prev_log_number, Some(0));
    assert_eq!(written.next_file_number, Some(10));
    assert_eq!(written.last_seq, Some(28));
    assert_eq!(written.new_files.len(), 1);
    assert!(written.new_files.iter().all(|f| f.1.num < written.next_file_number.unwrap()));
    assert!(matches!(w.actions[3], ManifestAction::Sync));
    assert!(matches!(w.actions[4], ManifestAction::SetCurrent(9)));
    assert_eq!(vs.abandon(&w), Some(9));
    assert_eq!(vs_nums(&vs.current.files[4]), Vec::<u64>::new());
    vs.install(w);
    assert_eq!(vs_nums(&vs.current.files[4]), vec![9]);
    assert!(vs.manifest_open);
    assert_eq!(vs.log_num, 8);
    assert_eq!(vs.next_file_num, 10);
}

#[test]
fn later_manifest_writes_append_and_sync() {
    let mut vs = vs_fixture();
    vs.manifest_open = true;
    let mut e = VersionEdit::new();
    e.set_log_num(12);
    e.delete_file(1, 3);
    let w = vs.log_and_apply(e).unwrap();
    assert!(!w.creates_manifest);
    assert_eq!(w.actions.len(), 2);
    let written = match &w.actions[0] {
        ManifestAction::Append(b) => VersionEdit::decode_from(b).unwrap(),
        _ => panic!("no edit"),
    };
    assert_eq!(written.log_number, Some(12));
    assert_eq!(written.deleted, vec![(1, 3)]);
    assert!(matches!(w.actions[1], ManifestAction::Sync));
    assert_eq!(w.version.compaction_level, Some(0));
    assert_eq!(w.version.compaction_score, SCORE_ONE / 2);
    assert_eq!(vs.abandon(&w), None);
    vs.install(w);
    assert_eq!(vs.log_num, 12);
    assert!(vs.current.files[1].is_empty());
    assert!(!vs.needs_compaction());
}

#[test]
fn log_and_apply_refuses_an_edit_that_breaks_a_level() {
    let vs = vs_fixture();
    let mut e = VersionEdit::new();
    e.add_file(1, vs_file(11, 1, b"c", b"caa"));
    let r = vs.log_and_apply(e);
    assert_eq!(r.unwrap_err().code(), StatusCode::Corruption);
    assert_eq!(vs_nums(&vs.current.files[1]), vec![3]);
}

#[test]
fn snapshot_edit_rebuilds_the_version() {
    let vs = vs_fixture();
    let snap = vs.snapshot_edit();
    let mut fresh = VersionSet::new(vs_options(), b"leveldb.BytewiseComparator");
    let v = fresh.apply(&snap).unwrap();
    fresh.add_version(v);
    for l in 0..7 {
        assert_eq!(vs_nums(&fresh.current.files[l]), vs_nums(&vs.current.files[l]));
    }
}

#[test]
fn recover_replays_the_manifest() {
    let mut first = VersionEdit::new();
    first.set_comparator_name(b"cmp");
    first.set_log_num(0);
    first.set_next_file(2);
    first.set_last_seq(0);
    let mut second = VersionEdit::new();
    second.add_file(2, vs_file(4, 100, b"a", b"b"));
    second.add_file(2, vs_file(5, 100, b"c", b"d"));
    second.set_next_file(6);
    second.set_last_seq(28);
    second.set_log_num(3);
    second.set_compact_pointer(2, b"old");
    second.set_compact_pointer(4, b"kept");
    let mut third = VersionEdit::new();
    third.delete_file(2, 4);
    third.add_file(3, vs_file(4, 100, b"a", b"b"));
    third.set_compact_pointer(2, b"new");
    let records = vec![first.encode(), second.encode(), third.encode()];
    let mut vs = VersionSet::new(vs_options(), b"cmp");
    assert_eq!(vs.recover(&records, 4).unwrap(), true);
    assert!(!vs.manifest_open);
    assert_eq!(vs.manifest_num, 6);
    assert_eq!(vs.next_file_num, 7);
    assert_eq!(vs.last_seq, 28);
    assert_eq!(vs.log_num, 3);
    assert_eq!(vs.prev_log_num, 0);
    assert_eq!(vs_nums(&vs.current.files[2]), vec![5]);
    assert_eq!(vs_nums(&vs.current.files[3]), vec![4]);
    assert_eq!(vs.current.compaction_level, Some(2));
    assert_eq!(vs.current.compaction_score, 100_000);
    assert_eq!(vs.compaction_ptrs[2], b"new");
    assert_eq!(vs.compaction_ptrs[4], b"kept");
    assert!(vs.compaction_ptrs[0].is_empty());
    assert_eq!(vs.compaction_ptrs.len(), 7);
    let mut opt = vs_options();
    opt.reuse_manifest = true;
    let mut reusing = VersionSet::new(opt, b"cmp");
    assert_eq!(reusing.recover(&records, 4).unwrap(), false);
    assert_eq!(reusing.manifest_num, 4);
    assert!(reusing.manifest_open);
    assert_eq!(reusing.next_file_num, 7);
    let w = reusing.log_and_apply(VersionEdit::new()).unwrap();
    assert!(!w.creates_manifest);
    assert_eq!(w.actions.len(), 2);
}

#[test]
fn recover_of_a_fresh_database_takes_manifest_number_two() {
    let mut first = VersionEdit::new();
    first.set_comparator_name(b"cmp");
    first.set_log_num(0);
    first.set_next_file(2);
    first.set_last_seq(0);
    let mut vs = VersionSet::new(vs_options(), b"cmp");
    vs.recover(&vec![first.encode()], 1).unwrap();
    assert_eq!(vs.manifest_num, 2);
    assert_eq!(vs.new_file_number(), 3);
}

#[test]
fn recover_fails_on_bad_manifests() {
    let mut first = VersionEdit::new();
    first.set_comparator_name(b"other");
    first.set_log_num(0);
    first.set_next_file(2);
    first.set_last_seq(0);
    let mut vs = VersionSet::new(vs_options(), b"cmp");
    assert_eq!(
        vs.recover(&vec![first.encode()], 1).unwrap_err().code(),
        StatusCode::InvalidArgument
    );
    assert_eq!(vs.recover(&vec![vec![8, 8]], 1).unwrap_err().code(), StatusCode::Corruption);
    assert_eq!(vs.recover(&vec![], 1).unwrap_err().code(), StatusCode::Corruption);
    let mut lacking = VersionEdit::new();
    lacking.set_log_num(0);
    lacking.set_next_file(2);
    assert_eq!(vs.recover(&vec![lacking.encode()], 1).unwrap_err().code(), StatusCode::Corruption);
    let mut overlapping = VersionEdit::new();
    overlapping.set_log_num(0);
    overlapping.set_next_file(9);
    overlapping.set_last_seq(1);
    overlapping.add_file(1, vs_file(4, 100, b"a", b"c"));
    overlapping.add_file(1, vs_file(5, 100, b"b", b"d"));
    assert_eq!(
        vs.recover(&vec![overlapping.encode()], 1).unwrap_err().code(),
        StatusCode::Corruption
    );
    assert_eq!(vs.next_file_num, 2);
    assert_eq!(vs.manifest_num, 0);
}

#[test]
fn key_ranges() {
    let a = vec![vs_file(1, 1, b"c", b"d"), vs_file(2, 1, b"a", b"b"), vs_file(3, 1, b"b", b"z")];
    let (lo, hi) = get_range(&a);
    assert_eq!(lo, make_internal_key(b"a", 9, ValueType::TypeValue));
    assert_eq!(hi, make_internal_key(b"z", 1, ValueType::TypeValue));
    let b = vec![vs_file(4, 1, b"0", b"1")];
    let (lo, hi) = get_range2(&a, &b);
    assert_eq!(lo, make_internal_key(b"0", 9, ValueType::TypeValue));
    assert_eq!(hi, make_internal_key(b"z", 1, ValueType::TypeValue));
    let (lo, hi) = get_range2(&b, &vec![]);
    assert_eq!(lo, make_internal_key(b"0", 9, ValueType::TypeValue));
    assert_eq!(hi, make_internal_key(b"1", 1, ValueType::TypeValue));
}

#[test]
fn pick_compaction_by_size() {
    let mut vs = vs_fixture();
    assert!(vs.pick_compaction().is_none());
    vs.current.compaction_score = 2 * SCORE_ONE;
    vs.current.compaction_level = Some(1);
    assert!(vs.needs_compaction());
    let c = vs.pick_compaction().unwrap();
    assert_eq!(c.level(), 1);
    assert_eq!(vs_nums(&c.inputs0), vec![3]);
    assert_eq!(vs_nums(&c.inputs1), vec![4]);
    assert!(c.grandparents.is_empty());
    assert!(!c.is_trivial_move());
    assert_eq!(c.edit.compaction_ptrs, vec![(1, vs.current.files[1][0].largest.clone())]);
    assert_eq!(vs.compaction_ptrs[1], vs.current.files[1][0].largest);
    assert_eq!(c.deeper.len(), 4);
    assert_eq!(vs_nums(&c.deeper[0]), vec![6, 7]);
}

#[test]
fn pick_compaction_by_size_goes_round_the_level() {
    let mut vs = VersionSet::new(vs_options(), b"cmp");
    let mut e = VersionEdit::new();
    e.add_file(1, vs_file(3, 100, b"a", b"b"));
    e.add_file(1, vs_file(4, 100, b"c", b"d"));
    e.add_file(1, vs_file(5, 100, b"e", b"f"));
    let v = vs.apply(&e).unwrap();
    vs.add_version(v);
    vs.current.compaction_score = SCORE_ONE;
    vs.current.compaction_level = Some(1);
    let mut picked = Vec::new();
    for _ in 0..4 {
        let c = vs.pick_compaction().unwrap();
        assert!(c.is_trivial_move());
        picked.push(c.inputs0[0].num);
    }
    assert_eq!(picked, vec![3, 4, 5, 3]);
}

#[test]
fn pick_compaction_at_level_zero_takes_every_overlapping_file() {
    let mut vs = vs_fixture();
    vs.current.compaction_score = SCORE_ONE;
    vs.current.compaction_level = Some(0);
    let c = vs.pick_compaction().unwrap();
    assert_eq!(c.level(), 0);
    assert_eq!(vs_nums(&c.inputs0), vec![1, 2]);
    assert!(c.inputs1.is_empty());
    assert!(c.grandparents.is_empty());
}

#[test]
fn pick_compaction_by_reads() {
    let mut vs = vs_fixture();
    vs.current.file_to_compact = Some(4);
    vs.current.file_to_compact_lvl = 2;
    let c = vs.pick_compaction().unwrap();
    assert_eq!(c.level(), 2);
    assert_eq!(vs_nums(&c.inputs0), vec![4]);
    assert!(c.inputs1.is_empty());
    assert!(c.is_trivial_move());
    vs.current.file_to_compact = Some(99);
    assert!(vs.pick_compaction().is_none());
    vs.current.file_to_compact = Some(4);
    vs.current.file_to_compact_lvl = 6;
    assert!(vs.pick_compaction().is_none());
}

#[test]
fn pick_compaction_grows_the_level_inputs_when_that_is_free() {
    let mut vs = VersionSet::new(vs_options(), b"cmp");
    let mut e = VersionEdit::new();
    e.add_file(1, vs_file(3, 100, b"a", b"c"));
    e.add_file(1, vs_file(4, 100, b"d", b"f"));
    e.add_file(1, vs_file(5, 100, b"x", b"z"));
    e.add_file(2, vs_file(6, 100, b"b", b"e"));
    e.add_file(3, vs_file(7, 100, b"f", b"g"));
    e.add_file(3, vs_file(8, 100, b"y", b"z"));
    let v = vs.apply(&e).unwrap();
    vs.add_version(v);
    vs.current.compaction_score = SCORE_ONE;
    vs.current.compaction_level = Some(1);
    let c = vs.pick_compaction().unwrap();
    assert_eq!(vs_nums(&c.inputs0), vec![3, 4]);
    assert_eq!(vs_nums(&c.inputs1), vec![6]);
    assert_eq!(vs_nums(&c.grandparents), vec![7]);
    assert_eq!(vs.compaction_ptrs[1], make_internal_key(b"f", 1, ValueType::TypeValue));
}

#[test]
fn pick_compaction_grows_level_zero_inputs_too() {
    let mut vs = VersionSet::new(vs_options(), b"cmp");
    let mut e = VersionEdit::new();
    e.add_file(0, vs_file(1, 100, b"a", b"b"));
    e.add_file(0, vs_file(2, 100, b"d", b"e"));
    e.add_file(0, vs_file(3, 100, b"x", b"z"));
    e.add_file(1, vs_file(4, 100, b"b", b"d"));
    e.add_file(1, vs_file(5, 100, b"f", b"g"));
    let v = vs.apply(&e).unwrap();
    vs.add_version(v);
    vs.current.compaction_score = SCORE_ONE;
    vs.current.compaction_level = Some(0);
    let c = vs.pick_compaction().unwrap();
    assert_eq!(vs_nums(&c.inputs0), vec![1, 2]);
    assert_eq!(vs_nums(&c.inputs1), vec![4]);
}

#[test]
fn pick_compaction_does_not_grow_past_the_size_limit() {
    let mut opt = vs_options();
    opt.max_file_size = 11;
    let mut vs = VersionSet::new(opt, b"cmp");
    let mut e = VersionEdit::new();
    e.add_file(1, vs_file(3, 100, b"a", b"c"));
    e.add_file(1, vs_file(4, 100, b"d", b"f"));
    e.add_file(2, vs_file(6, 100, b"b", b"e"));
    let v = vs.apply(&e).unwrap();
    vs.add_version(v);
    vs.current.compaction_score = SCORE_ONE;
    vs.current.compaction_level = Some(1);
    let c = vs.pick_compaction().unwrap();
    assert_eq!(vs_nums(&c.inputs0), vec![3]);
    assert_eq!(vs_nums(&c.inputs1), vec![6]);
    let mut opt = vs_options();
    opt.max_file_size = 13;
    vs.opt = opt;
    vs.compaction_ptrs[1] = Vec::new();
    let c = vs.pick_compaction().unwrap();
    assert_eq!(vs_nums(&c.inputs0), vec![3, 4]);
}
