use lsm_core::key_types::make_internal_key;
use lsm_core::types::{StatusCode, ValueType};
use lsm_core::version::FileMetaData;
use lsm_core::version_edit::{get_varint, put_string, put_varint, VersionEdit};

fn edit_test_file(num: u64, size: u64, lo: &[u8], hi: &[u8]) -> FileMetaData {
    FileMetaData {
        allowed_seeks: 0,
        num,
        size,
        smallest: make_internal_key(lo, 5, ValueType::TypeValue),
        largest: make_internal_key(hi, 4, ValueType::TypeValue),
    }
}

#[test]
fn varint_bytes() {
    let mut v = Vec::new();
    put_varint(&mut v, 0);
    put_varint(&mut v, 127);
    put_varint(&mut v, 128);
    put_varint(&mut v, 300);
    assert_eq!(v, vec![0, 127, 0x80, 0x01, 0xac, 0x02]);
    assert_eq!(get_varint(&v, 0), Some((0, 1)));
    assert_eq!(get_varint(&v, 1), Some((127, 2)));
    assert_eq!(get_varint(&v, 2), Some((128, 4)));
    assert_eq!(get_varint(&v, 4), Some((300, 6)));
    assert_eq!(get_varint(&v, 6), None);
    let mut w = Vec::new();
    put_varint(&mut w, u64::MAX);
    assert_eq!(w, vec![255, 255, 255, 255, 255, 255, 255, 255, 255, 1]);
    assert_eq!(get_varint(&w, 0), Some((u64::MAX, 10)));
}

#[test]
fn varint_cut_short_or_too_long_is_refused() {
    assert_eq!(get_varint(&[0x80], 0), None);
    assert_eq!(get_varint(&[], 0), None);
    assert_eq!(get_varint(&[255, 255, 255, 255, 255, 255, 255, 255, 255, 2], 0), None);
    assert_eq!(get_varint(&[255, 255, 255, 255, 255, 255, 255, 255, 255, 255, 1], 0), None);
    assert_eq!(get_varint(&[1, 2], 5), None);
}

#[test]
fn string_is_length_prefixed() {
    let mut v = Vec::new();
    put_string(&mut v, b"abc");
    put_string(&mut v, b"");
    assert_eq!(v, vec![3, b'a', b'b', b'c', 0]);
}

#[test]
fn encode_writes_tagged_fields_in_order() {
    let mut e = VersionEdit::new();
    e.set_last_seq(4);
    e.set_next_file(3);
    e.set_log_num(2);
    e.set_prev_log_num(1);
    e.set_comparator_name(b"cmp");
    e.delete_file(1, 300);
    e.set_compact_pointer(2, b"k");
    assert_eq!(
        e.encode(),
        vec![1, 3, b'c', b'm', b'p', 2, 2, 9, 1, 3, 3, 4, 4, 5, 2, 1, b'k', 6, 1, 0xac, 0x02]
    );
    assert_eq!(VersionEdit::new().encode(), Vec::<u8>::new());
}

#[test]
fn encode_new_file() {
    let mut e = VersionEdit::new();
    e.add_file(
        3,
        FileMetaData { allowed_seeks: 9, num: 7, size: 200, smallest: vec![1, 2], largest: vec![3] },
    );
    assert_eq!(e.encode(), vec![7, 3, 7, 0xc8, 0x01, 2, 1, 2, 1, 3]);
}

#[test]
fn decoding_an_encoded_edit_gives_the_fields_back() {
    let mut e = VersionEdit::new();
    e.set_comparator_name(b"leveldb.BytewiseComparator");
    e.set_log_num(123);
    e.set_prev_log_num(0);
    e.set_next_file(u64::MAX);
    e.set_last_seq(1 << 40);
    e.set_compact_pointer(0, &make_internal_key(b"abc", 3, ValueType::TypeValue));
    e.set_compact_pointer(6, b"");
    e.delete_file(0, 3);
    e.delete_file(6, 100000);
    e.add_file(0, edit_test_file(12, 379, b"aabc", b"test123"));
    e.add_file(5, edit_test_file(13, 1 << 33, b"", b"zzz"));
    let bytes = e.encode();
    let d = VersionEdit::decode_from(&bytes).unwrap();
    assert_eq!(d.comparator, e.comparator);
    assert_eq!(d.log_number, Some(123));
    assert_eq!(d.prev_log_number, Some(0));
    assert_eq!(d.next_file_number, Some(u64::MAX));
    assert_eq!(d.last_seq, Some(1 << 40));
    assert_eq!(d.compaction_ptrs, e.compaction_ptrs);
    assert_eq!(d.deleted, vec![(0, 3), (6, 100000)]);
    assert_eq!(d.new_files.len(), 2);
    for i in 0..2 {
        assert_eq!(d.new_files[i].0, e.new_files[i].0);
        assert_eq!(d.new_files[i].1.num, e.new_files[i].1.num);
        assert_eq!(d.new_files[i].1.size, e.new_files[i].1.size);
        assert_eq!(d.new_files[i].1.smallest, e.new_files[i].1.smallest);
        assert_eq!(d.new_files[i].1.largest, e.new_files[i].1.largest);
    }
    assert_eq!(d.encode(), bytes);
}

#[test]
fn decoding_an_empty_record_gives_the_empty_edit() {
    let d = VersionEdit::decode_from(&[]).unwrap();
    assert!(d.comparator.is_none() && d.log_number.is_none() && d.last_seq.is_none());
    assert!(d.deleted.is_empty() && d.new_files.is_empty() && d.compaction_ptrs.is_empty());
}

#[test]
fn unknown_tags_and_bad_fields_are_corruption() {
    for bad in [
        vec![8u8, 1],
        vec![0u8],
        vec![10u8, 0],
        vec![2u8],
        vec![1u8, 5, b'a'],
        vec![6u8, 7, 1],
        vec![5u8, 9, 0],
        vec![7u8, 1, 1, 1, 1, b'a'],
        vec![0x80u8],
    ] {
        let r = VersionEdit::decode_from(&bad);
        assert!(r.is_err(), "{:?}", bad);
        assert_eq!(r.unwrap_err().code(), StatusCode::Corruption);
    }
}
