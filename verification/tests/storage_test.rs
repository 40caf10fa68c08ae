use holographic_memory::config::{check_settings, StorageConfig, TieredConfig};
use holographic_memory::hash::fnv1a;
use holographic_memory::index::HolographicIndex;
use holographic_memory::records::{LevelStats, LsmStats, TieredStats};
use holographic_memory::segment::SegmentManager;
use holographic_memory::table::{
    keep_copies, next_fragment_id_after, scan_table, split_table, table_u64, TableError, TableSummary,
};
use holographic_memory::tiered::L0Layer;
use holographic_memory::wal::{
    index_header, index_payload, record_prefix, replay, split_wal, wal_header, WalError, WalRecord,
};

#[test]
fn index_insert_get_and_groups() {
    let mut index: HolographicIndex<&str> = HolographicIndex::new();
    assert!(index.is_empty());
    assert_eq!(index.insert(1, 100, 3, "a"), 1);
    index.insert(2, 100, 3, "b");
    index.insert(3, 200, 1, "c");
    assert_eq!(index.len(), 3);
    assert_eq!(index.get(2), Some(&"b"));
    assert_eq!(index.get(9), None);
    assert_eq!(index.get_by_source(100), vec![&"a", &"b"]);
    assert!(index.get_by_source(300).is_empty());
    assert_eq!(index.integrity_counts(100), (3, 2));
    assert_eq!(index.integrity_counts(300), (0, 0));
    let mut sources = index.all_source_hashes();
    sources.sort();
    assert_eq!(sources, vec![100, 200]);
    let mut ids = index.all_ids();
    ids.sort();
    assert_eq!(ids, vec![1, 2, 3]);
    assert_eq!(index.all_fragments().len(), 3);
}

#[test]
fn index_remove_drops_empty_groups() {
    let mut index: HolographicIndex<u32> = HolographicIndex::default();
    index.insert(1, 100, 2, 10);
    index.insert(2, 100, 2, 20);
    index.insert(3, 200, 1, 30);
    assert_eq!(index.remove(1), Some(10));
    assert_eq!(index.remove(1), None);
    assert_eq!(index.get_by_source(100), vec![&20]);
    assert_eq!(index.remove(3), Some(30));
    assert_eq!(index.all_source_hashes(), vec![100]);
    assert_eq!(index.len(), 1);
}

#[test]
fn index_batch_insert() {
    let mut index: HolographicIndex<char> = HolographicIndex::new();
    let ids = index.insert_batch(vec![(5, 1, 2, 'x'), (6, 1, 2, 'y')]);
    assert_eq!(ids, vec![5, 6]);
    assert_eq!(index.get_by_source(1), vec![&'x', &'y']);
}

#[test]
fn l0_counts_reads_and_evicts_the_coldest() {
    let mut l0: L0Layer<&str> = L0Layer::new(2, 2);
    l0.insert(1, 7, 2, "one");
    l0.insert(2, 7, 2, "two");
    assert!(l0.is_full());
    assert_eq!(l0.get(1), Some(&"one"));
    assert_eq!(l0.get(1), Some(&"one"));
    assert_eq!(l0.get(2), Some(&"two"));
    assert_eq!(l0.get(3), None);
    assert!(l0.should_promote(1));
    assert!(!l0.should_promote(2));
    // fragment 2 was read once, fragment 1 twice
    assert_eq!(l0.evict_coldest(), Some("two"));
    assert_eq!(l0.len(), 1);
    assert_eq!(l0.integrity_counts(7), (2, 1));
    assert_eq!(l0.remove(1), Some("one"));
    assert_eq!(l0.evict_coldest(), None);
}

#[test]
fn l0_evicts_an_unread_fragment_when_none_was_read() {
    let mut l0: L0Layer<u8> = L0Layer::new(4, 1);
    l0.insert(9, 1, 1, 90);
    assert_eq!(l0.evict_coldest(), Some(90));
    assert_eq!(l0.len(), 0);
}

#[test]
fn config_defaults_and_checks() {
    let s = StorageConfig::default();
    assert_eq!(s.data_dir, "./holographic_data");
    assert_eq!(s.max_segment_size, 64 * 1024 * 1024);
    let t = TieredConfig::default();
    assert_eq!(t.l1_dir, "holo_tiered_l1");
    assert_eq!(t.promote_threshold, 3);
    assert_eq!(check_settings(1024, true, 3, true), Ok(()));
    assert_eq!(check_settings(100, true, 3, true), Err("fft_window_size 必须是 2 的幂".to_string()));
    assert_eq!(check_settings(0, true, 3, true), Err("fft_window_size 必须是 2 的幂".to_string()));
    assert_eq!(check_settings(1, true, 3, true), Ok(()));
    assert_eq!(check_settings(1024, false, 3, true), Err("overlap_ratio 必须在 [0.0, 1.0) 范围内".to_string()));
    assert_eq!(check_settings(1024, true, 0, true), Err("redundancy_level 必须大于 0".to_string()));
    assert_eq!(check_settings(1024, true, 3, false), Err("similarity_threshold 必须在 [0.0, 1.0] 范围内".to_string()));
    assert_eq!(check_settings(1usize << 63, true, 3, true), Ok(()));
    assert!(check_settings(usize::MAX, true, 3, true).is_err());
}

#[test]
fn fnv1a_known_values() {
    assert_eq!(fnv1a(&[]), 0xcbf29ce484222325);
    assert_eq!(fnv1a(b"a"), 0xaf63dc4c8601ec8c);
    assert_eq!(fnv1a(b"foobar"), 0x85944171f73967e8);
}

#[test]
fn wal_framing_roundtrip() {
    let mut file = wal_header();
    assert_eq!(file, b"HOLO_WAL_V1\0".to_vec());
    file.extend(record_prefix(3));
    file.extend([1, 2, 3]);
    file.extend(record_prefix(0));
    assert_eq!(record_prefix(0x01020304), vec![4, 3, 2, 1]);
    assert_eq!(split_wal(&file), Ok(vec![(16, 3), (23, 0)]));
    // a dangling partial length is ignored
    file.push(9);
    assert_eq!(split_wal(&file), Ok(vec![(16, 3), (23, 0)]));
    // an entry running past the end is an error
    let mut bad = wal_header();
    bad.extend(record_prefix(5));
    bad.extend([1]);
    assert_eq!(split_wal(&bad), Err(WalError::UnexpectedEof));
    assert_eq!(split_wal(b"HOLO"), Err(WalError::UnexpectedEof));
    assert_eq!(split_wal(b"HOLO_WAL_V2\0"), Err(WalError::InvalidHeader));
}

#[test]
fn wal_replay_inserts_and_deletes() {
    let recs = vec![
        WalRecord { insert: true, id: 1, fragment: "a" },
        WalRecord { insert: true, id: 2, fragment: "b" },
        WalRecord { insert: true, id: 1, fragment: "a2" },
        WalRecord { insert: false, id: 1, fragment: "" },
        WalRecord { insert: true, id: 3, fragment: "c" },
    ];
    assert_eq!(replay(recs), vec![(2, "b"), (3, "c")]);
}

#[test]
fn table_summary_range_and_sources() {
    let t = TableSummary::of(&[(3, 20), (5, 10), (9, 20), (12, 30)]);
    assert_eq!(t.entry_count, 4);
    assert_eq!((t.min_key, t.max_key), (3, 12));
    assert_eq!(t.source_hashes(), vec![10, 20, 30]);
    assert_eq!(t.ids_for_source(20), Some(&vec![3, 9]));
    assert_eq!(t.ids_for_source(10), Some(&vec![5]));
    assert_eq!(t.ids_for_source(99), None);
    assert!(t.may_contain(3) && t.may_contain(7) && t.may_contain(12));
    assert!(!t.may_contain(2) && !t.may_contain(13));
}

#[test]
fn table_summary_empty() {
    let t = TableSummary::of(&[]);
    assert_eq!(t.entry_count, 0);
    assert_eq!((t.min_key, t.max_key), (u64::MAX, 0));
    assert!(t.source_hashes().is_empty());
    assert!(!t.may_contain(0));
}

#[test]
fn next_fragment_id_after_tables() {
    assert_eq!(next_fragment_id_after(&[]), 1);
    assert_eq!(next_fragment_id_after(&[0]), 1);
    assert_eq!(next_fragment_id_after(&[4, 17, 9]), 18);
}

#[test]
fn lsm_and_tiered_stats_text() {
    let lsm = LsmStats {
        memtable_entries: 2,
        level_stats: vec![
            LevelStats { level: 0, sstable_count: 3, entry_count: 30 },
            LevelStats { level: 1, sstable_count: 1, entry_count: 7 },
        ],
        total_entries: 39,
    };
    assert_eq!(
        lsm.to_text(),
        "LSM索引统计:\n  MemTable: 2 条目\n  Level 0: 3 SSTable, 30 条目\n  Level 1: 1 SSTable, 7 条目\n  总计: 39 条目"
    );
    let tiered = TieredStats { l0_entries: 5, l0_capacity: 8, l1_stats: None, total_entries: 5 };
    assert_eq!(tiered.to_text(), "分层索引统计:\n  L0: 5/8 条目\n  L1: 未启用\n  总计: 5 条目");
    let both = TieredStats { l0_entries: 1, l0_capacity: 8, l1_stats: Some(lsm), total_entries: 40 };
    assert!(both.to_text().ends_with("  总计: 39 条目  总计: 40 条目"));
}

#[test]
fn test_segment_manager_basic() {
    let mut mgr = SegmentManager::new(100);
    let ids: Vec<u64> = (0..5u64).map(|i| mgr.add_fragment(i + 1, 500, 5, ("fragment", i))).collect();
    assert_eq!(ids.len(), 5);
    assert_eq!(mgr.total_fragments(), 5);
    assert!(mgr.get(ids[0]).is_some());
}

#[test]
fn test_segment_manager_by_source() {
    let mut mgr = SegmentManager::new(100);
    for i in 0..3u64 {
        mgr.add_fragment(i + 1, 600, 3, ("fragment", i));
    }
    let results = mgr.get_by_source(600);
    assert_eq!(results.len(), 3);
}

#[test]
fn segment_manager_rolls_over_when_full() {
    let mut mgr = SegmentManager::new(2);
    assert_eq!(mgr.current_segment(), 0);
    assert!(!mgr.segment_is_full());
    mgr.add_fragment(1, 7, 5, 'a');
    mgr.add_fragment(2, 7, 5, 'b');
    assert_eq!(mgr.current_segment(), 0);
    assert!(mgr.segment_is_full());
    mgr.add_fragment(3, 7, 5, 'c');
    assert_eq!(mgr.current_segment(), 1);
    assert!(!mgr.segment_is_full());
    let ids = mgr.add_fragments(vec![(4, 8, 1, 'd'), (5, 8, 1, 'e'), (6, 8, 1, 'f')]);
    assert_eq!(ids, vec![4, 5, 6]);
    assert_eq!(mgr.current_segment(), 2);
    assert_eq!(mgr.total_fragments(), 6);
    assert_eq!(mgr.index().len(), 6);
    assert_eq!(mgr.index_mut().remove(6), Some('f'));
    assert_eq!(mgr.total_fragments(), 5);
    let zero: SegmentManager<char> = SegmentManager::new(0);
    assert!(zero.segment_is_full());
    let d: SegmentManager<char> = SegmentManager::default();
    assert_eq!(d.current_segment(), 0);
}

#[test]
fn test_holographic_index_insert_get() {
    let mut index = HolographicIndex::new();
    index.insert(1, 0, 1, "fragment-1");
    assert!(index.get(1).is_some());
    assert_eq!(index.len(), 1);
}

#[test]
fn test_holographic_index_remove() {
    let mut index = HolographicIndex::new();
    index.insert(1, 0, 1, "fragment-1");
    assert!(index.remove(1).is_some());
    assert!(index.is_empty());
}

#[test]
fn test_holographic_index_by_source() {
    let mut index = HolographicIndex::new();
    index.insert(1, 42, 1, "fragment-1");
    index.insert(2, 42, 1, "fragment-2");
    let results = index.get_by_source(42);
    assert_eq!(results.len(), 2);
}

#[test]
fn test_large_scale_index() {
    let mut index = HolographicIndex::new();
    let n = 1000;
    for i in 0..n {
        index.insert(i as u64 + 1, 77777, n as u32, i as u32);
    }
    assert_eq!(index.len(), n as usize);

    let (total, available) = index.integrity_counts(77777);
    assert_eq!(available, n as u32);
    assert_eq!(total, n as u32);

    let by_source = index.get_by_source(77777);
    assert_eq!(by_source.len(), n as usize);
}

fn table_bytes(entries: &[&[u8]]) -> Vec<u8> {
    let mut b = table_u64(entries.len() as u64);
    for e in entries {
        b.extend(table_u64(e.len() as u64));
        b.extend_from_slice(e);
    }
    b
}

#[test]
fn table_format_round_trip() {
    assert_eq!(table_u64(0x0102), vec![2, 1, 0, 0, 0, 0, 0, 0]);
    let b = table_bytes(&[b"abc", b"", b"hello"]);
    assert_eq!(split_table(&b), Ok((3, vec![(16, 3), (27, 0), (35, 5)])));
    assert_eq!(&b[35..40], b"hello");
    assert_eq!(scan_table(&b), Ok((vec![(16, 3), (27, 0), (35, 5)], false)));
}

#[test]
fn table_format_truncated() {
    let b = table_bytes(&[b"abc", b"hello"]);
    assert_eq!(split_table(&b[..5]), Err(TableError::UnexpectedEof));
    assert_eq!(split_table(&b[..30]), Err(TableError::UnexpectedEof));
    assert_eq!(scan_table(&b[..30]), Ok((vec![(16, 3)], true)));
    assert_eq!(scan_table(&b[..22]), Ok((vec![(16, 3)], false)));
    // a count larger than the entries present
    let mut c = table_u64(5);
    c.extend(table_u64(1));
    c.push(7);
    assert_eq!(split_table(&c), Err(TableError::UnexpectedEof));
    // bytes after the counted entries are not read
    let mut d = table_bytes(&[b"x"]);
    d.extend_from_slice(&[1, 2, 3]);
    assert_eq!(split_table(&d), Ok((1, vec![(16, 1)])));
}

#[test]
fn index_file_payload() {
    let mut b = index_header(3);
    assert_eq!(b, vec![3, 0, 0, 0, 0, 0, 0, 0]);
    b.extend_from_slice(&[7, 8, 9, 10]);
    assert_eq!(index_payload(&b), Ok((8, 3)));
    assert_eq!(index_payload(&b[..10]), Err(WalError::UnexpectedEof));
    assert_eq!(index_payload(&b[..4]), Err(WalError::UnexpectedEof));
}

#[test]
fn merge_keeps_newest_or_first_copy() {
    let entries = [(5, 0), (7, 1), (5, 2), (9, 3), (7, 4)];
    let newest = keep_copies(&entries, true);
    assert_eq!(newest.len(), 3);
    assert_eq!((newest[&5], newest[&7], newest[&9]), (2, 4, 3));
    let first = keep_copies(&entries, false);
    assert_eq!((first[&5], first[&7], first[&9]), (0, 1, 3));
    assert!(keep_copies(&[], true).is_empty());
}
