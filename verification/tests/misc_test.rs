use holographic_memory::access::AccessLog;
use holographic_memory::cli::{get_addr, get_data_dir, get_redundancy, get_window_size};
use holographic_memory::frame::{check_frame, frame_header, FrameError, HEADER_LEN};
use holographic_memory::importance::{ImportanceLevel, RedundancyStrategy};
use holographic_memory::manifest::{sstable_file_name, Manifest};
use holographic_memory::math::next_power_of_two;
use holographic_memory::memory_pool::{MemoryPool, PoolBlock};
use holographic_memory::modality::{ImageModalityEncoder, Modality, TextModalityEncoder};
use holographic_memory::records::{Layer, StatusResponse, StoreResponse, StoreResult};
use holographic_memory::recovery::PartialRecoveryEngine;
use holographic_memory::tags::parse_number;
use holographic_memory::types::FragmentMeta;
use holographic_memory::weaver::{FragmentInfo, RecoveryStep, RedundancyWeaver, WovenKind};
use holographic_memory::window::{frame_windows, AdaptiveWindowSelector, HologramFragmenter};

#[test]
fn test_importance_level_ordering() {
    assert!(ImportanceLevel::Low < ImportanceLevel::Medium);
    assert!(ImportanceLevel::Medium < ImportanceLevel::High);
    assert!(ImportanceLevel::High < ImportanceLevel::Critical);
}

#[test]
fn test_modality_display() {
    assert_eq!(Modality::Text.to_text(), "text");
    assert_eq!(Modality::Image.to_text(), "image");
    assert_eq!(Modality::Custom("lidar".to_string()).to_text(), "custom:lidar");
}

#[test]
fn modality_encoders_report_their_modality() {
    let t = TextModalityEncoder::new(64);
    assert_eq!(t.modality(), Modality::Text);
    assert_eq!(t.window_size(), 64);
    let i = ImageModalityEncoder::new(4);
    assert_eq!(i.modality(), Modality::Image);
    assert_eq!(i.patch_size(), 4);
    assert_eq!(Modality::Structured.to_text(), "structured");
}

#[test]
fn test_fragment_meta() {
    let meta = FragmentMeta::new(12345, 5, 2);
    assert_eq!(meta.source_hash, 12345);
    assert_eq!(meta.fragment_count, 5);
    assert_eq!(meta.fragment_index, 2);
    assert!(meta.created_at > 0);
    assert!(meta.tags.is_empty());
}

#[test]
fn test_next_power_of_two() {
    assert_eq!(next_power_of_two(0), 1);
    assert_eq!(next_power_of_two(1), 1);
    assert_eq!(next_power_of_two(5), 8);
    assert_eq!(next_power_of_two(1024), 1024);
    assert_eq!(next_power_of_two(1025), 2048);
}

#[test]
fn test_memory_pool() {
    let mut pool = MemoryPool::new(1024);
    let _ptr1 = pool.allocate(64);
    assert!(pool.total_used() > 0);
}

#[test]
fn memory_pool_alignment_and_chunks() {
    let mut pool = MemoryPool::new(256);
    assert_eq!(pool.allocate(1), PoolBlock { chunk: 0, offset: 0 });
    assert_eq!(pool.total_used(), 64);
    assert_eq!(pool.allocate(100), PoolBlock { chunk: 0, offset: 64 });
    assert_eq!(pool.total_used(), 192);
    // 64 bytes still fit in the first chunk
    assert_eq!(pool.allocate(64), PoolBlock { chunk: 0, offset: 192 });
    // the first chunk is full: a new one is made
    assert_eq!(pool.allocate(10), PoolBlock { chunk: 1, offset: 0 });
    assert_eq!(pool.total_capacity(), 512);
    // larger than the default: a chunk of exactly that size
    assert_eq!(pool.allocate(1000), PoolBlock { chunk: 2, offset: 0 });
    assert_eq!(pool.total_capacity(), 1512);
    pool.reset();
    assert_eq!(pool.total_used(), 0);
    assert_eq!(pool.total_capacity(), 1512);
    assert_eq!(pool.allocate(8), PoolBlock { chunk: 0, offset: 0 });
}

#[test]
fn redundancy_strategy_defaults() {
    let s = RedundancyStrategy::default();
    assert_eq!(s.for_level(ImportanceLevel::Low).0, 1);
    assert_eq!(s.for_level(ImportanceLevel::Medium).0, 2);
    assert_eq!(s.for_level(ImportanceLevel::High).0, 3);
}

fn info(id: u64, index: u32, count: u32, tags: &[&str]) -> FragmentInfo {
    let mut metadata = FragmentMeta::new(77, count, index);
    metadata.tags = tags.iter().map(|t| t.to_string()).collect();
    FragmentInfo { id, redundancy_level: 2, metadata }
}

#[test]
fn weaver_layout_ids_kinds_and_tags() {
    let w = RedundancyWeaver::new(2);
    let fs = vec![info(1, 0, 3, &[]), info(2, 1, 3, &[]), info(3, 2, 3, &[])];
    let layout = w.weave_layout(&fs);
    assert_eq!(layout.parity.len(), 1);
    let p = &layout.parity[0];
    assert_eq!(p.id, 4);
    assert_eq!(p.base, 0);
    assert_eq!(p.kind, WovenKind::Parity { level: 1 });
    assert_eq!(p.metadata.tags, vec!["parity_L1", "data_count_3", "src_0_1", "src_1_2", "src_2_3"]);
    assert_eq!(layout.redundant.len(), 1);
    let r = &layout.redundant[0];
    assert_eq!(r.len(), 3);
    assert_eq!(r[0].id, 5);
    assert_eq!(r[2].id, 7);
    assert_eq!(r[2].kind, WovenKind::Redundant { level: 1, partner: 0 });
    assert_eq!(r[2].metadata.tags, vec!["redundancy_L1", "source_pair_2_0"]);
    assert_eq!(r[2].metadata.fragment_index, 2);
    // a level-1 weaver adds nothing
    let plain = RedundancyWeaver::new(0);
    assert_eq!(plain.redundancy_level(), 1);
    let none = plain.weave_layout(&fs);
    assert!(none.parity.is_empty() && none.redundant.is_empty());
}

#[test]
fn weaver_unweave_and_plan() {
    let w = RedundancyWeaver::new(2);
    // original 1 is missing; the parity fragment and a redundant copy remain
    let fs = vec![
        info(1, 0, 3, &[]),
        info(3, 2, 3, &[]),
        info(4, 0, 3, &["parity_L1", "data_count_3", "src_0_1", "src_1_2", "src_2_3"]),
        info(6, 1, 3, &["redundancy_L1", "source_pair_1_2"]),
    ];
    assert_eq!(w.unwoven(&fs), vec![0, 1]);
    let plan = w.plan_recovery(&fs, 3);
    assert_eq!(plan.originals, vec![0, 1]);
    assert_eq!(plan.recovered_count, plan.steps.len());
    assert_eq!(plan.steps[0], RecoveryStep::FromParity { source: 2, level: 1, data_count: 3, missing_idx: 1 });
    // nothing missing: no steps
    let whole = vec![info(1, 0, 2, &[]), info(2, 1, 2, &[])];
    assert!(w.plan_recovery(&whole, 2).steps.is_empty());
}

#[test]
fn partial_recovery_threshold() {
    let engine = PartialRecoveryEngine::new(3);
    assert!(engine.can_recover(6, 10));
    assert!(engine.can_recover(5, 10));
    assert!(!engine.can_recover(3, 10));
    assert!(engine.can_recover(0, 0));
    assert_eq!(engine.weaver().redundancy_level(), 3);
}

#[test]
fn fragmenter_spans() {
    let f = HologramFragmenter::new(4);
    assert_eq!(f.output_spans(10), vec![(0, 4), (4, 8), (8, 10)]);
    assert_eq!(f.output_spans(8), vec![(0, 4), (4, 8)]);
    assert_eq!(HologramFragmenter::new(0).fragment_size(), 1);
    let sel = AdaptiveWindowSelector::new(100, 1000);
    assert_eq!(sel.min_window(), 128);
    assert_eq!(sel.max_window(), 1024);
}

#[test]
fn cli_flags() {
    let args: Vec<String> = ["prog", "--addr", "1.2.3.4:9", "--window", "2048", "--redundancy", "999", "--redundancy", "5"]
        .iter()
        .map(|s| s.to_string())
        .collect();
    assert_eq!(get_addr(&args), "1.2.3.4:9");
    assert_eq!(get_data_dir(&args), "./holographic_data");
    assert_eq!(get_window_size(&args), 2048);
    assert_eq!(get_redundancy(&args), 5);
    let none: Vec<String> = vec!["prog".to_string(), "--window".to_string()];
    assert_eq!(get_addr(&none), "0.0.0.0:8080");
    assert_eq!(get_window_size(&none), 1024);
    assert_eq!(get_redundancy(&none), 3);
}

#[test]
fn parse_numbers_like_rust() {
    assert_eq!(parse_number("42", 100), Some(42));
    assert_eq!(parse_number("+7", 100), Some(7));
    assert_eq!(parse_number("101", 100), None);
    assert_eq!(parse_number("", 100), None);
    assert_eq!(parse_number("4a", 100), None);
}

#[test]
fn frame_roundtrip_and_errors() {
    let mut bytes = frame_header(3);
    assert_eq!(bytes.len(), HEADER_LEN);
    assert_eq!(&bytes[0..8], b"HOLOMM01");
    bytes.extend_from_slice(&[1, 2, 3]);
    assert_eq!(check_frame(&bytes).unwrap(), 3);
    bytes.pop();
    assert!(matches!(check_frame(&bytes), Err(FrameError::FileTooSmall { expected: 19, actual: 18 })));
    assert!(matches!(check_frame(&[0u8; 4]), Err(FrameError::FileTooSmall { expected: 16, actual: 4 })));
    let mut bad = frame_header(0);
    bad[0] = b'X';
    match check_frame(&bad) {
        Err(FrameError::InvalidFormat(m)) => assert_eq!(
            m,
            "魔数不匹配: 期望[72, 79, 76, 79, 77, 77, 48, 49], 实际[88, 79, 76, 79, 77, 77, 48, 49]"
        ),
        other => panic!("unexpected {:?}", other),
    }
}

#[test]
fn manifest_bookkeeping() {
    let mut m = Manifest::new();
    assert_eq!(m.allocate_seq(), 0);
    assert_eq!(m.allocate_seq(), 1);
    m.add_sstable(2, 7);
    assert_eq!(m.levels.len(), 3);
    assert_eq!(m.levels[2], vec![(2, 7)]);
    m.add_sstable(2, 8);
    m.remove_sstable(2, 7);
    assert_eq!(m.levels[2], vec![(2, 8)]);
    m.remove_sstable(9, 1);
    assert_eq!(m.levels.len(), 3);
    assert_eq!(sstable_file_name(1, 42), "L1-42.sst");
}

#[test]
fn records_and_layers() {
    let r = StoreResult { source_id: 1, source_hash: 2, fragment_count: 3, total_fragments: 4, fragment_ids: vec![9] };
    let s = StoreResponse::from_result(&r);
    assert!(s.stored);
    assert_eq!(s.total_fragments, 4);
    let st = StatusResponse::of_service(5, 6);
    assert_eq!(st.service, "holographic-memory");
    assert_eq!(st.version, "0.3.0");
    assert_eq!(Layer::L0.to_text(), "L0(内存)");
    assert_eq!(Layer::L2.to_text(), "L2(mmap冷存)");
}

#[test]
fn access_log_counts_and_clock() {
    let mut log = AccessLog::new();
    assert_eq!(log.access_stats(), (0, 0));
    log.record_access(7);
    log.advance_time(10);
    log.record_accesses(&[7, 9, 7]);
    assert_eq!(log.access_count(7), 3);
    assert_eq!(log.access_count(9), 1);
    assert_eq!(log.access_count(1), 0);
    assert_eq!(log.access_stats(), (2, 4));
    assert_eq!(log.last_access(7), 10);
    assert_eq!(log.last_access(1), 0);
    log.advance_time(5);
    assert_eq!(log.now_secs(), 15);
    assert_eq!(log.elapsed_since(7), 5);
    assert_eq!(log.elapsed_since(1), 15);
    assert_eq!(log.total_accesses(), 4);
}

#[test]
fn frame_windows_cover_padded_signal() {
    assert_eq!(frame_windows(5, 4, 2), (8, vec![(0, 4), (2, 6), (4, 8), (6, 8)]));
    assert_eq!(frame_windows(3, 8, 8), (8, vec![(0, 8)]));
    assert_eq!(frame_windows(9, 4, 4), (16, vec![(0, 4), (4, 8), (8, 12), (12, 16)]));
    assert_eq!(frame_windows(0, 4, 0), (0, vec![]));
}

#[test]
fn test_partial_recovery_engine() {
    let engine = PartialRecoveryEngine::new(3);
    assert!(engine.can_recover(6, 10));
    assert!(!engine.can_recover(3, 10));
}

#[test]
fn memory_pool_block_bytes() {
    let mut pool = MemoryPool::new(256);
    let a = pool.allocate(10);
    let b = pool.allocate(70);
    assert_eq!(a.offset % 64, 0);
    assert_eq!(b.offset % 64, 0);
    assert_eq!(pool.read_block(a, 4), vec![0, 0, 0, 0]);
    pool.write_block(a, &[1, 2, 3]);
    pool.write_block(b, &[9; 70]);
    assert_eq!(pool.read_block(a, 4), vec![1, 2, 3, 0]);
    assert_eq!(pool.read_block(b, 70), vec![9; 70]);
    assert_eq!(pool.read_block(PoolBlock { chunk: 0, offset: 62 }, 4), vec![0, 0, 9, 9]);
}

#[test]
fn unweave_after_weave_gives_back_originals() {
    let w = RedundancyWeaver::new(3);
    let fs = vec![info(1, 0, 4, &[]), info(2, 1, 4, &[]), info(3, 2, 4, &[]), info(4, 3, 4, &[])];
    let layout = w.weave_layout(&fs);
    let mut all = fs.clone();
    for p in &layout.parity {
        all.push(FragmentInfo { id: p.id, redundancy_level: 3, metadata: p.metadata.clone() });
    }
    for level in &layout.redundant {
        for r in level {
            all.push(FragmentInfo { id: r.id, redundancy_level: 3, metadata: r.metadata.clone() });
        }
    }
    assert_eq!(all.len(), 4 + 2 + 2 * 4);
    assert_eq!(w.unwoven(&all), vec![0, 1, 2, 3]);
}

#[test]
fn fragment_meta_at_given_time() {
    let meta = FragmentMeta::new_at(7, 3, 1, 1_700_000_123_999);
    assert_eq!(meta.created_at, 1_700_000_123);
    assert_eq!((meta.source_hash, meta.fragment_count, meta.fragment_index), (7, 3, 1));
    assert!(meta.tags.is_empty());
}
