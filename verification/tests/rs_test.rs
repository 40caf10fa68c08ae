use holographic_memory::reed_solomon::{ReedSolomon, RsError};

fn make_data_shards(n: usize, block_len: usize) -> Vec<Vec<u8>> {
    (0..n).map(|i| vec![(i as u8 + 1).wrapping_mul(0x11); block_len]).collect()
}

#[test]
fn test_rs_encode_basic() {
    let rs = ReedSolomon::new(3, 2).unwrap();
    let data = make_data_shards(3, 4);
    let parity = rs.encode(&data).unwrap();
    assert_eq!(parity.len(), 2);
    assert_eq!(parity[0].len(), 4);
}

#[test]
fn test_rs_verify_valid() {
    let rs = ReedSolomon::new(3, 2).unwrap();
    let data = make_data_shards(3, 8);
    let parity = rs.encode(&data).unwrap();
    assert!(rs.verify(&data, &parity));
}

#[test]
fn test_rs_reconstruct_no_loss() {
    let rs = ReedSolomon::new(3, 2).unwrap();
    let data = make_data_shards(3, 8);
    let parity = rs.encode(&data).unwrap();

    let mut shards: Vec<Option<Vec<u8>>> = data.into_iter().map(Some).collect();
    for p in parity {
        shards.push(Some(p));
    }

    let reconstructed = rs.reconstruct(&shards).unwrap();
    for i in 0..3 {
        assert_eq!(shards[i].as_ref().unwrap(), &reconstructed[i]);
    }
}

#[test]
fn test_rs_reconstruct_one_lost_data() {
    let rs = ReedSolomon::new(3, 2).unwrap();
    let data = make_data_shards(3, 8);
    let parity = rs.encode(&data).unwrap();

    let mut shards: Vec<Option<Vec<u8>>> = data.into_iter().map(Some).collect();
    for p in parity {
        shards.push(Some(p));
    }

    let original = shards[1].as_ref().unwrap().clone();
    shards[1] = None;

    let mut shards_mut = shards;
    rs.reconstruct_data(&mut shards_mut).unwrap();
    assert_eq!(shards_mut[1].as_ref().unwrap(), &original);
}

#[test]
fn test_rs_reconstruct_two_lost_data() {
    let rs = ReedSolomon::new(4, 3).unwrap();
    let data = make_data_shards(4, 16);
    let parity = rs.encode(&data).unwrap();

    let mut shards: Vec<Option<Vec<u8>>> = data.into_iter().map(Some).collect();
    for p in parity {
        shards.push(Some(p));
    }

    let orig0 = shards[0].as_ref().unwrap().clone();
    let orig2 = shards[2].as_ref().unwrap().clone();
    shards[0] = None;
    shards[2] = None;

    let mut shards_mut = shards;
    rs.reconstruct_data(&mut shards_mut).unwrap();
    assert_eq!(shards_mut[0].as_ref().unwrap(), &orig0);
    assert_eq!(shards_mut[2].as_ref().unwrap(), &orig2);
}

#[test]
fn test_rs_reconstruct_lost_parity() {
    let rs = ReedSolomon::new(3, 2).unwrap();
    let data = make_data_shards(3, 8);
    let parity = rs.encode(&data).unwrap();

    let mut shards: Vec<Option<Vec<u8>>> = data.into_iter().map(Some).collect();
    for p in parity {
        shards.push(Some(p));
    }

    shards[4] = None;

    let mut shards_mut = shards;
    rs.reconstruct_data(&mut shards_mut).unwrap();
    for i in 0..3 {
        assert!(shards_mut[i].is_some());
    }
}

#[test]
fn test_rs_insufficient_shards_error() {
    let rs = ReedSolomon::new(4, 2).unwrap();
    let data = make_data_shards(4, 8);
    let parity = rs.encode(&data).unwrap();

    let mut shards: Vec<Option<Vec<u8>>> = data.into_iter().map(Some).collect();
    for p in parity {
        shards.push(Some(p));
    }

    shards[0] = None;
    shards[1] = None;
    shards[2] = None;

    let result = rs.reconstruct(&shards);
    assert!(result.is_err());
}

#[test]
fn test_rs_error_cases() {
    assert!(ReedSolomon::new(0, 2).is_err());
    assert!(ReedSolomon::new(3, 0).is_err());
    assert!(ReedSolomon::new(200, 60).is_err());
}

#[test]
fn test_rs_display() {
    let rs = ReedSolomon::new(4, 2).unwrap();
    let ratio = rs.parity_shards() as f64 / rs.total_shards() as f64;
    let s = rs.describe(&format!("{:.0}", ratio * 100.0));
    assert!(s.contains("Reed-Solomon"));
    assert!(s.contains("4/6"));
}

#[test]
fn test_rs_large_block() {
    let rs = ReedSolomon::new(3, 2).unwrap();
    let data: Vec<Vec<u8>> = (0..3).map(|i| vec![(i as u8).wrapping_add(42); 1024]).collect();
    let parity = rs.encode(&data).unwrap();
    assert!(rs.verify(&data, &parity));

    let mut shards: Vec<Option<Vec<u8>>> = data.into_iter().map(Some).collect();
    for p in parity { shards.push(Some(p)); }
    let orig0 = shards[0].as_ref().unwrap().clone();
    let orig1 = shards[1].as_ref().unwrap().clone();
    shards[0] = None;
    shards[1] = None;

    let mut shards_mut = shards;
    rs.reconstruct_data(&mut shards_mut).unwrap();
    assert_eq!(shards_mut[0].as_ref().unwrap(), &orig0);
    assert_eq!(shards_mut[1].as_ref().unwrap(), &orig1);
}

#[test]
fn rs_tolerance_and_describe_text() {
    let rs = ReedSolomon::new(4, 2).unwrap();
    assert_eq!(rs.erasure_tolerance(), 2);
    assert_eq!(rs.total_shards(), 6);
    assert_eq!(rs.describe("33"), "Reed-Solomon(4/6, 容错2=33%)");
    // 23 of 40 shards: the ratio 0.575 is just below one half in floating
    // point, so it is written as 57
    let big = ReedSolomon::new(17, 23).unwrap();
    let ratio = big.parity_shards() as f64 / big.total_shards() as f64;
    let pct = format!("{:.0}", ratio * 100.0);
    assert_eq!(pct, "57");
    assert_eq!(big.describe(&pct), "Reed-Solomon(17/40, 容错23=57%)");
}

#[test]
fn rs_reconstruct_from_parity_only_positions() {
    // any `data` shards suffice: keep the last three of five
    let rs = ReedSolomon::new(3, 2).unwrap();
    let data = make_data_shards(3, 5);
    let parity = rs.encode(&data).unwrap();
    let mut shards: Vec<Option<Vec<u8>>> = data.iter().cloned().map(Some).collect();
    for p in parity { shards.push(Some(p)); }
    shards[0] = None;
    shards[1] = None;
    let rebuilt = rs.reconstruct(&shards).unwrap();
    assert_eq!(rebuilt, data);
}

#[test]
fn rs_error_variants() {
    let rs = ReedSolomon::new(2, 1).unwrap();
    // wrong number of data shards
    assert_eq!(rs.encode(&vec![vec![1u8, 2]]), Err(RsError::InsufficientShards { required: 2, available: 1 }));
    // shards of different sizes
    assert_eq!(rs.encode(&vec![vec![1u8, 2], vec![3u8]]), Err(RsError::InconsistentLength { expected: 2, got: 1 }));
    // too few shards present
    let shards: Vec<Option<Vec<u8>>> = vec![Some(vec![1]), None, None];
    assert!(matches!(rs.reconstruct(&shards), Err(RsError::InsufficientShards { .. })));
    // a corrupted parity shard fails verification
    let data = vec![vec![1u8, 2, 3], vec![4u8, 5, 6]];
    let mut parity = rs.encode(&data).unwrap();
    parity[0][1] ^= 1;
    assert!(!rs.verify(&data, &parity));
}

#[test]
fn rs_parity_for_pads_shorter_shards() {
    let rs = ReedSolomon::new(2, 1).unwrap();
    let shards = vec![vec![1u8, 2, 3], vec![4u8], vec![9u8, 9, 9, 9, 9]];
    let parity = rs.parity_for(&shards);
    let expected = rs.encode(&[vec![1u8, 2, 3], vec![4u8, 0, 0]]).unwrap();
    assert_eq!(parity, expected);
    assert_eq!(parity.len(), 1);
    assert_ne!(parity[0], vec![1u8, 2, 3]);
}

#[test]
fn rs_parity_for_too_few_or_longer_shards() {
    let rs = ReedSolomon::new(3, 2).unwrap();
    assert!(rs.parity_for(&[vec![1u8, 2], vec![3u8, 4]]).is_empty());
    assert!(rs.parity_for(&[vec![1u8], vec![3u8, 4], vec![5u8]]).is_empty());
    assert_eq!(rs.parity_for(&[vec![7u8, 7], vec![7u8, 7], vec![7u8, 7]]).len(), 2);
}

#[test]
fn rs_error_texts() {
    assert_eq!(
        RsError::InsufficientShards { required: 4, available: 2 }.to_text(),
        "碎片数不足: 需要4个, 实际2个"
    );
    assert_eq!(RsError::ZeroDataShards.to_text(), "数据碎片数为零");
    assert_eq!(RsError::TooManyParityShards.to_text(), "校验碎片数超出限制: 最多255个");
    assert_eq!(RsError::InconsistentLength { expected: 8, got: 5 }.to_text(), "数据长度不一致: 期望8, 实际5");
    assert_eq!(RsError::InvalidIndex(17).to_text(), "无效碎片索引: 17");
}

#[test]
fn rs_any_data_shards_reconstruct() {
    let rs = ReedSolomon::new(3, 2).unwrap();
    let data: Vec<Vec<u8>> = vec![vec![1, 2, 3, 4], vec![50, 60, 70, 80], vec![255, 0, 128, 7]];
    let parity = rs.encode(&data).unwrap();
    let codeword: Vec<Vec<u8>> = data.iter().chain(parity.iter()).cloned().collect();
    for mask in 0u32..32 {
        let shards: Vec<Option<Vec<u8>>> =
            (0..5).map(|i| if mask & (1 << i) != 0 { Some(codeword[i].clone()) } else { None }).collect();
        let present = mask.count_ones() as usize;
        let result = rs.reconstruct(&shards);
        if present >= 3 {
            assert_eq!(result.unwrap(), data);
        } else {
            assert_eq!(result, Err(RsError::InsufficientShards { required: 3, available: present }));
        }
    }
}
