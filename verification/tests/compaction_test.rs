use lsm_core::compaction::{any_file_covers, copy_files, Compaction};
use lsm_core::db_impl::CompactionState;
use lsm_core::drop_rules::{KeyTracker, Verdict};
use lsm_core::key_types::{extract_user_key, make_internal_key, parse_internal_key};
use lsm_core::types::{Options, ValueType};
use lsm_core::version::{FileMetaData, Version};

fn ct_file(num: u64, size: u64, lo: &[u8], hi: &[u8]) -> FileMetaData {
    FileMetaData {
        allowed_seeks: 100,
        num,
        size,
        smallest: make_internal_key(lo, 9, ValueType::TypeValue),
        largest: make_internal_key(hi, 1, ValueType::TypeValue),
    }
}

fn ct_options(max_file_size: u64) -> Options {
    Options {
        create_if_missing: true,
        error_if_exists: false,
        write_buffer_size: 4 << 20,
        max_file_size,
        reuse_logs: false,
        reuse_manifest: false,
        max_open_files: 1024,
    }
}

fn ct_key(u: &[u8], seq: u64) -> Vec<u8> {
    make_internal_key(u, seq, ValueType::TypeValue)
}

fn ct_del(u: &[u8], seq: u64) -> Vec<u8> {
    make_internal_key(u, seq, ValueType::TypeDeletion)
}

#[test]
fn new_compaction_copies_the_deeper_levels() {
    let mut v = Version::new();
    v.files[3] = vec![ct_file(6, 10, b"h", b"i")];
    v.files[4] = vec![ct_file(7, 10, b"k", b"l")];
    let c = Compaction::new(&ct_options(100), 1, &v);
    assert_eq!(c.level(), 1);
    assert_eq!(c.max_grandparent_overlap_bytes, 1000);
    assert_eq!(c.num_inputs(0), 0);
    assert_eq!(c.num_inputs(1), 0);
    assert_eq!(c.deeper.len(), 4);
    assert_eq!(c.deeper[0].len(), 1);
    assert_eq!(c.deeper[0][0].num, 6);
    assert_eq!(c.deeper[1][0].num, 7);
    assert!(c.deeper[2].is_empty() && c.deeper[3].is_empty());
    let last = Compaction::new(&ct_options(100), 5, &v);
    assert!(last.deeper.is_empty());
    assert_eq!(copy_files(&v.files[3])[0].num, 6);
}

#[test]
fn trivial_move_needs_one_input_and_small_grandparents() {
    let v = Version::new();
    let mut c = Compaction::new(&ct_options(10), 2, &v);
    assert!(!c.is_trivial_move());
    c.inputs0.push(ct_file(4, 50, b"a", b"b"));
    assert!(c.is_trivial_move());
    c.grandparents = vec![ct_file(8, 60, b"a", b"a"), ct_file(9, 40, b"b", b"b")];
    assert!(c.is_trivial_move());
    c.grandparents.push(ct_file(10, 1, b"c", b"c"));
    assert!(!c.is_trivial_move());
    c.grandparents.pop();
    c.inputs1.push(ct_file(5, 1, b"a", b"b"));
    assert!(!c.is_trivial_move());
    c.inputs1.clear();
    c.inputs0.push(ct_file(6, 1, b"c", b"d"));
    assert!(!c.is_trivial_move());
    assert_eq!(c.input(0, 1).num, 6);
    assert_eq!(c.num_inputs(0), 2);
}

#[test]
fn base_level_means_no_deeper_file_covers_the_key() {
    let mut v = Version::new();
    v.files[3] = vec![ct_file(6, 10, b"h", b"j")];
    v.files[5] = vec![ct_file(7, 10, b"p", b"q")];
    let c = Compaction::new(&ct_options(100), 1, &v);
    assert!(c.is_base_level_for(b"a"));
    assert!(!c.is_base_level_for(b"h"));
    assert!(!c.is_base_level_for(b"i"));
    assert!(!c.is_base_level_for(b"j"));
    assert!(c.is_base_level_for(b"k"));
    assert!(!c.is_base_level_for(b"p"));
    let deeper = Compaction::new(&ct_options(100), 2, &v);
    assert!(deeper.is_base_level_for(b"i"));
    assert!(!deeper.is_base_level_for(b"q"));
    assert!(any_file_covers(&v.files[3], b"i"));
    assert!(!any_file_covers(&v.files[3], b"k"));
}

#[test]
fn should_stop_before_counts_grandparent_bytes() {
    let v = Version::new();
    let mut c = Compaction::new(&ct_options(10), 1, &v);
    c.grandparents = vec![
        ct_file(1, 60, b"a", b"b"),
        ct_file(2, 60, b"c", b"d"),
        ct_file(3, 60, b"e", b"f"),
        ct_file(4, 60, b"g", b"h"),
    ];
    assert!(!c.should_stop_before(&ct_key(b"c", 5)));
    assert_eq!((c.grandparent_ix, c.overlapped_bytes, c.seen_key), (1, 0, true));
    assert!(!c.should_stop_before(&ct_key(b"cc", 5)));
    assert_eq!((c.grandparent_ix, c.overlapped_bytes), (1, 0));
    assert!(!c.should_stop_before(&ct_key(b"e", 5)));
    assert_eq!((c.grandparent_ix, c.overlapped_bytes), (2, 60));
    assert!(c.should_stop_before(&ct_key(b"z", 5)));
    assert_eq!((c.grandparent_ix, c.overlapped_bytes), (4, 0));
    assert!(!c.should_stop_before(&ct_key(b"zz", 5)));
}

#[test]
fn should_stop_before_goes_by_internal_key_order() {
    let v = Version::new();
    let mut c = Compaction::new(&ct_options(1), 1, &v);
    c.grandparents = vec![ct_file(1, 11, b"a", b"b")];
    assert!(!c.should_stop_before(&ct_key(b"a", 5)));
    assert!(!c.should_stop_before(&ct_key(b"b", 1)));
    assert_eq!(c.grandparent_ix, 0);
    assert!(c.should_stop_before(&ct_key(b"b", 0)));
    assert_eq!(c.grandparent_ix, 1);
}

#[test]
fn input_deletions_name_every_input_at_its_level() {
    let v = Version::new();
    let mut c = Compaction::new(&ct_options(10), 3, &v);
    c.inputs0 = vec![ct_file(11, 1, b"a", b"b"), ct_file(12, 1, b"c", b"d")];
    c.inputs1 = vec![ct_file(21, 1, b"a", b"d")];
    c.edit.delete_file(0, 99);
    c.add_input_deletions();
    assert_eq!(c.edit.deleted, vec![(0, 99), (3, 11), (3, 12), (4, 21)]);
    assert!(c.edit.new_files.is_empty());
}

#[test]
fn judge_writes_what_is_above_the_smallest_snapshot() {
    let mut t = KeyTracker::new();
    assert_eq!(t.judge(&ct_key(b"a", 9), 5, true), Verdict::Write);
    assert_eq!(t.judge(&ct_key(b"a", 8), 5, true), Verdict::Write);
    assert_eq!(t.judge(&ct_del(b"a", 7), 5, true), Verdict::Write);
    assert_eq!(t.judge(&ct_key(b"a", 5), 5, true), Verdict::Write);
    assert_eq!(t.judge(&ct_key(b"a", 4), 5, true), Verdict::Drop);
    assert_eq!(t.judge(&ct_del(b"a", 3), 5, false), Verdict::Drop);
    assert_eq!(t.judge(&ct_key(b"b", 2), 5, true), Verdict::Write);
    assert_eq!(t.judge(&ct_key(b"b", 1), 5, true), Verdict::Drop);
}

#[test]
fn judge_drops_a_tombstone_only_at_the_base_level() {
    let mut t = KeyTracker::new();
    assert_eq!(t.judge(&ct_del(b"a", 4), 5, false), Verdict::Write);
    assert_eq!(t.judge(&ct_key(b"a", 3), 5, false), Verdict::Drop);
    assert_eq!(t.judge(&ct_del(b"b", 4), 5, true), Verdict::Drop);
    assert_eq!(t.judge(&ct_del(b"c", 6), 5, true), Verdict::Write);
    assert_eq!(t.judge(&ct_del(b"c", 5), 5, true), Verdict::Drop);
}

#[test]
fn judge_keeps_an_entry_behind_a_dropped_tombstone() {
    let mut t = KeyTracker::new();
    assert_eq!(t.judge(&ct_del(b"a", 5), 10, true), Verdict::Drop);
    assert_eq!(t.judge(&ct_key(b"a", 3), 10, true), Verdict::Write);
    assert_eq!(t.judge(&ct_key(b"a", 2), 10, true), Verdict::Drop);
}

#[test]
fn judge_passes_over_keys_that_do_not_parse() {
    let mut t = KeyTracker::new();
    assert_eq!(t.judge(&ct_key(b"a", 3), 5, true), Verdict::Write);
    assert_eq!(t.judge(b"bad", 5, true), Verdict::Skip);
    assert_eq!(t.last_seq_for_key, (1 << 56) - 1);
    assert_eq!(t.judge(&ct_key(b"a", 0), 5, true), Verdict::Skip);
    assert_eq!(t.judge(&ct_key(b"a", 2), 5, true), Verdict::Write);
    assert_eq!(t.judge(&ct_key(b"a", 1), 5, true), Verdict::Drop);
}

#[test]
fn judge_all_applies_the_base_level_of_the_compaction() {
    let mut v = Version::new();
    v.files[3] = vec![ct_file(6, 10, b"a", b"a")];
    let c = Compaction::new(&ct_options(100), 1, &v);
    let mut cs = CompactionState::new(c);
    cs.smallest_seq = 7;
    let keys = vec![
        ct_key(b"a", 9),
        ct_del(b"a", 7),
        ct_key(b"a", 5),
        ct_key(b"b", 8),
        ct_del(b"b", 3),
        ct_del(b"c", 2),
        ct_key(b"d", 1),
    ];
    assert_eq!(
        cs.judge_all(&keys),
        vec![
            Verdict::Write,
            Verdict::Write,
            Verdict::Drop,
            Verdict::Write,
            Verdict::Drop,
            Verdict::Drop,
            Verdict::Write,
        ]
    );
}

#[test]
fn input_iterator_reads_level_zero_files_one_by_one() {
    let v = Version::new();
    let mut c = Compaction::new(&ct_options(10), 0, &v);
    c.inputs0 = vec![ct_file(1, 1, b"a", b"c"), ct_file(2, 1, b"b", b"d")];
    c.inputs1 = vec![ct_file(3, 1, b"a", b"b"), ct_file(4, 1, b"c", b"d")];
    assert_eq!(c.make_input_iterator(), (vec![1, 2], vec![vec![3, 4]]));
    c.level = 1;
    assert_eq!(c.make_input_iterator(), (vec![], vec![vec![1, 2], vec![3, 4]]));
}

fn ct_read(keys: &[Vec<u8>], among: &[bool], ukey: &[u8], s: u64) -> Option<u64> {
    for (i, k) in keys.iter().enumerate() {
        let (kind, seq, _) = parse_internal_key(k);
        if among[i] && extract_user_key(k) == ukey && seq <= s {
            return match kind {
                ValueType::TypeValue => Some(seq),
                ValueType::TypeDeletion => None,
            };
        }
    }
    None
}

#[test]
fn a_merge_leaves_reads_at_live_snapshots_as_they_were() {
    for deeper_holds in [true, false] {
        let mut keys = vec![ct_key(b"a", 9), ct_del(b"a", 7)];
        if deeper_holds {
            // Behind a tombstone that the merge keeps, older entries may follow.
            keys.push(ct_key(b"a", 5));
        }
        keys.extend(vec![
            ct_key(b"b", 8),
            ct_key(b"b", 6),
            ct_key(b"b", 3),
            ct_del(b"c", 2),
            ct_key(b"d", 1),
            ct_del(b"e", 9),
            ct_key(b"e", 8),
            ct_del(b"f", 4),
        ]);
        let mut v = Version::new();
        if deeper_holds {
            v.files[3] = vec![ct_file(6, 10, b"a", b"f")];
        }
        let mut cs = CompactionState::new(Compaction::new(&ct_options(100), 1, &v));
        cs.smallest_seq = 7;
        let verdicts = cs.judge_all(&keys);
        let written: Vec<bool> = verdicts.iter().map(|v| *v == Verdict::Write).collect();
        let all = vec![true; keys.len()];
        for ukey in [&b"a"[..], b"b", b"c", b"d", b"e", b"f", b"g"] {
            for s in 7..=10 {
                assert_eq!(
                    ct_read(&keys, &written, ukey, s),
                    ct_read(&keys, &all, ukey, s),
                    "{:?} at {}",
                    ukey,
                    s
                );
            }
        }
        // Tombstones at or below the smallest snapshot stay only while a deeper level can hold
        // their key.
        assert_eq!(written[1], deeper_holds);
        assert_eq!(written[keys.len() - 1], deeper_holds);
        assert!(written[0]);
    }
}

#[test]
fn a_merge_brings_back_what_lies_behind_a_dropped_tombstone() {
    let keys = vec![ct_del(b"a", 5), ct_key(b"a", 3)];
    let mut cs = CompactionState::new(Compaction::new(&ct_options(100), 1, &Version::new()));
    cs.smallest_seq = 10;
    let written: Vec<bool> =
        cs.judge_all(&keys).iter().map(|v| *v == Verdict::Write).collect();
    assert_eq!(written, vec![false, true]);
    assert_eq!(ct_read(&keys, &[true, true], b"a", 10), None);
    assert_eq!(ct_read(&keys, &written, b"a", 10), Some(3));
}
