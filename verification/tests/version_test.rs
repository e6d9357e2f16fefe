use lsm_core::key_types::make_internal_key;
use lsm_core::types::{Options, ValueType};
use lsm_core::version::{
    expand_overlapping, file_numbers, files_overlapping, find_file, resolve_get, total_file_size,
    FileMetaData, GetStats, Lookup, Version,
};

fn vt_file(num: u64, lo: &[u8], lo_seq: u64, hi: &[u8], hi_seq: u64) -> FileMetaData {
    FileMetaData {
        allowed_seeks: 2,
        num,
        size: 100,
        smallest: make_internal_key(lo, lo_seq, ValueType::TypeValue),
        largest: make_internal_key(hi, hi_seq, ValueType::TypeValue),
    }
}

fn vt_version() -> Version {
    let mut v = Version::new();
    v.files[0] = vec![vt_file(1, b"aaa", 21, b"aba", 18), vt_file(2, b"aac", 26, b"bba", 22)];
    v.files[1] = vec![vt_file(3, b"caa", 17, b"cba", 15)];
    v.files[2] = vec![vt_file(4, b"cab", 8, b"cbz", 6), vt_file(5, b"gaa", 5, b"gba", 3)];
    v.files[3] = vec![vt_file(6, b"haa", 2, b"hba", 1), vt_file(7, b"iaa", 30, b"iba", 29)];
    v
}

fn vt_nums(files: &[FileMetaData]) -> Vec<u64> {
    files.iter().map(|f| f.num).collect()
}

fn vt_options() -> Options {
    Options {
        create_if_missing: true,
        error_if_exists: false,
        write_buffer_size: 4 << 20,
        max_file_size: 2 << 20,
        reuse_logs: false,
        reuse_manifest: false,
        max_open_files: 1024,
    }
}

#[test]
fn new_version_has_seven_empty_levels() {
    let v = Version::new();
    assert_eq!(v.files.len(), 7);
    assert!(v.files.iter().all(|l| l.is_empty()));
    assert!(v.file_to_compact.is_none());
    assert_eq!(v.num_level_files(0), 0);
}

#[test]
fn file_range_overlap() {
    let f = vt_file(1, b"c", 1, b"e", 1);
    assert!(f.overlaps_range(b"a", b"c"));
    assert!(f.overlaps_range(b"e", b"z"));
    assert!(f.overlaps_range(b"d", b"d"));
    assert!(f.overlaps_range(b"a", b"z"));
    assert!(!f.overlaps_range(b"a", b"b"));
    assert!(!f.overlaps_range(b"ea", b"z"));
    let g = f.copy();
    assert_eq!((g.num, g.size, g.allowed_seeks), (1, 100, 2));
    assert_eq!(g.smallest, f.smallest);
    assert_eq!(g.largest, f.largest);
}

#[test]
fn overlapping_inputs_below_level_zero_filters() {
    let v = vt_version();
    assert_eq!(vt_nums(&v.overlapping_inputs(2, b"c", b"d")), vec![4]);
    assert_eq!(vt_nums(&v.overlapping_inputs(2, b"a", b"z")), vec![4, 5]);
    assert_eq!(vt_nums(&v.overlapping_inputs(2, b"a", b"b")), Vec::<u64>::new());
    assert_eq!(vt_nums(&v.overlapping_inputs(3, b"hba", b"iaa")), vec![6, 7]);
    assert_eq!(vt_nums(&v.overlapping_inputs(6, b"a", b"z")), Vec::<u64>::new());
    assert_eq!(vt_nums(&files_overlapping(&v.files[1], b"cba", b"cbb")), vec![3]);
}

#[test]
fn overlapping_inputs_at_level_zero_widens_the_range() {
    let v = vt_version();
    assert_eq!(vt_nums(&v.overlapping_inputs(0, b"bab", b"bab")), vec![1, 2]);
    assert_eq!(vt_nums(&v.overlapping_inputs(0, b"aaa", b"aab")), vec![1, 2]);
    assert_eq!(vt_nums(&v.overlapping_inputs(0, b"x", b"y")), Vec::<u64>::new());
    let (files, lo, hi) = expand_overlapping(&v.files[0], b"bab", b"bab");
    assert_eq!(vt_nums(&files), vec![1, 2]);
    assert_eq!(lo, b"aaa");
    assert_eq!(hi, b"bba");
    let (none, lo, hi) = expand_overlapping(&v.files[0], b"x", b"y");
    assert!(none.is_empty());
    assert_eq!((lo.as_slice(), hi.as_slice()), (&b"x"[..], &b"y"[..]));
}

#[test]
fn level_zero_chain_of_overlaps_is_followed_to_the_end() {
    let files = vec![
        vt_file(1, b"e", 1, b"g", 1),
        vt_file(2, b"a", 1, b"b", 1),
        vt_file(3, b"c", 1, b"e", 1),
        vt_file(4, b"b", 1, b"c", 1),
        vt_file(5, b"x", 1, b"z", 1),
    ];
    let (chosen, lo, hi) = expand_overlapping(&files, b"g", b"h");
    assert_eq!(vt_nums(&chosen), vec![1, 2, 3, 4]);
    assert_eq!((lo.as_slice(), hi.as_slice()), (&b"a"[..], &b"h"[..]));
}

#[test]
fn overlap_in_level_and_sizes() {
    let v = vt_version();
    assert!(v.overlap_in_level(1, b"cb", b"cc"));
    assert!(!v.overlap_in_level(1, b"cbb", b"cbc"));
    assert!(v.overlap_in_level(0, b"b", b"c"));
    assert!(!v.overlap_in_level(4, b"a", b"z"));
    assert_eq!(total_file_size(&v.files[2]), 200);
    assert_eq!(total_file_size(&v.files[5]), 0);
    let big = vec![vt_file(1, b"a", 1, b"b", 1); 3];
    assert_eq!(total_file_size(&big), 300);
}

#[test]
fn memtable_output_level() {
    let opt = vt_options();
    assert_eq!(Version::new().pick_memtable_output_level(&opt, b"a", b"z"), 2);
    let v = vt_version();
    assert_eq!(v.pick_memtable_output_level(&opt, b"x", b"y"), 2);
    assert_eq!(v.pick_memtable_output_level(&opt, b"aab", b"aac"), 0);
    assert_eq!(v.pick_memtable_output_level(&opt, b"cb", b"cc"), 0);
    assert_eq!(v.pick_memtable_output_level(&opt, b"cbb", b"cbc"), 1);
    assert_eq!(v.pick_memtable_output_level(&opt, b"h", b"i"), 2);
}

#[test]
fn memtable_output_level_respects_grandparent_overlap() {
    let mut opt = vt_options();
    opt.max_file_size = 10;
    let v = vt_version();
    assert_eq!(opt.max_grandparent_overlap_bytes(), 100);
    assert_eq!(v.pick_memtable_output_level(&opt, b"cbb", b"cbc"), 1);
    opt.max_file_size = 9;
    assert_eq!(opt.max_grandparent_overlap_bytes(), 90);
    assert_eq!(opt.expanded_compaction_byte_size_limit(), 225);
    assert_eq!(v.pick_memtable_output_level(&opt, b"cbb", b"cbc"), 0);
    assert_eq!(v.pick_memtable_output_level(&opt, b"h", b"i"), 0);
    assert_eq!(v.pick_memtable_output_level(&opt, b"x", b"y"), 2);
    assert_eq!(Options::default().max_file_size, 2 * 1024 * 1024);
    assert_eq!(Options::default().max_grandparent_overlap_bytes(), 20 * 1024 * 1024);
    assert_eq!(Options::default().expanded_compaction_byte_size_limit(), 50 * 1024 * 1024);
}

#[test]
fn update_stats_marks_a_file_when_its_allowance_is_used_up() {
    let mut v = vt_version();
    assert!(!v.update_stats(GetStats { file: None }));
    assert!(!v.update_stats(GetStats { file: Some((2, 1)) }));
    assert_eq!(v.files[2][1].allowed_seeks, 1);
    assert!(v.file_to_compact.is_none());
    assert!(v.update_stats(GetStats { file: Some((2, 1)) }));
    assert_eq!(v.files[2][1].allowed_seeks, 0);
    assert_eq!(v.file_to_compact, Some(5));
    assert_eq!(v.file_to_compact_lvl, 2);
    v.files[1][0].allowed_seeks = 1;
    assert!(!v.update_stats(GetStats { file: Some((1, 0)) }));
    assert_eq!(v.file_to_compact, Some(5));
    assert_eq!(v.files[1][0].allowed_seeks, 0);
    assert!(!v.update_stats(GetStats { file: Some((1, 0)) }));
    assert_eq!(v.files[1][0].allowed_seeks, 0);
}

#[test]
fn files_for_key_lists_newest_level_zero_file_first() {
    let v = vt_version();
    assert_eq!(v.files_for_key(b"aac"), vec![(0, 1), (0, 0)]);
    assert_eq!(v.files_for_key(b"aaa"), vec![(0, 0)]);
    assert_eq!(v.files_for_key(b"cab"), vec![(1, 0), (2, 0)]);
    assert_eq!(v.files_for_key(b"haa"), vec![(3, 0)]);
    assert_eq!(v.files_for_key(b"zzz"), Vec::<(usize, usize)>::new());
}

#[test]
fn resolve_get_takes_the_first_entry_found() {
    let c = vec![(0usize, 1usize), (0, 0), (1, 0)];
    let (v, st) = resolve_get(&c, &vec![Lookup::Found(b"val2".to_vec())]);
    assert_eq!(v, Some(b"val2".to_vec()));
    assert_eq!(st.file, None);
    let (v, st) = resolve_get(&c, &vec![Lookup::Missing, Lookup::Found(b"x".to_vec())]);
    assert_eq!(v, Some(b"x".to_vec()));
    assert_eq!(st.file, Some((0, 1)));
    let (v, st) =
        resolve_get(&c, &vec![Lookup::Missing, Lookup::Deleted, Lookup::Found(b"x".to_vec())]);
    assert_eq!(v, None);
    assert_eq!(st.file, Some((0, 1)));
    let (v, st) = resolve_get(&c, &vec![Lookup::Missing, Lookup::Missing, Lookup::Missing]);
    assert_eq!(v, None);
    assert_eq!(st.file, Some((0, 1)));
    let (v, st) = resolve_get(&c, &vec![]);
    assert_eq!(v, None);
    assert_eq!(st.file, None);
}

#[test]
fn read_sample_charges_the_first_of_several_files() {
    let mut v = vt_version();
    let one = make_internal_key(b"haa", 1, ValueType::TypeValue);
    assert!(!v.record_read_sample(&one));
    assert_eq!(v.files[3][0].allowed_seeks, 2);
    let two = make_internal_key(b"aac", 1, ValueType::TypeValue);
    assert!(!v.record_read_sample(&two));
    assert_eq!(v.files[0][1].allowed_seeks, 1);
    assert_eq!(v.files[0][0].allowed_seeks, 2);
    assert!(v.record_read_sample(&two));
    assert_eq!(v.file_to_compact, Some(2));
    assert_eq!(v.file_to_compact_lvl, 0);
}

#[test]
fn new_iters_reads_level_zero_newest_first() {
    let v = vt_version();
    let (level0, deeper) = v.new_iters();
    assert_eq!(level0, vec![2, 1]);
    assert_eq!(deeper, vec![vec![3], vec![4, 5], vec![6, 7], vec![], vec![], vec![]]);
    let (level0, deeper) = Version::new().new_iters();
    assert!(level0.is_empty());
    assert_eq!(deeper.len(), 6);
}

#[test]
fn find_file_halves_its_way_to_the_file() {
    let files: Vec<FileMetaData> = (0..9u8)
        .map(|i| vt_file(i as u64, &[b'a' + 2 * i], 1, &[b'a' + 2 * i, b'z'], 1))
        .collect();
    assert_eq!(find_file(&files, b"a"), 0);
    assert_eq!(find_file(&files, b"az"), 0);
    assert_eq!(find_file(&files, b"azz"), 1);
    assert_eq!(find_file(&files, b"b"), 1);
    assert_eq!(find_file(&files, b"c"), 1);
    assert_eq!(find_file(&files, b"k"), 5);
    assert_eq!(find_file(&files, b"qz"), 8);
    assert_eq!(find_file(&files, b"r"), 9);
    assert_eq!(find_file(&files, b""), 0);
    assert_eq!(find_file(&vec![], b"a"), 0);
    assert_eq!(file_numbers(&files), (0..9).collect::<Vec<u64>>());
}
