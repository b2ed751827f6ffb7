use std::io::{Read, Seek, SeekFrom, Write};
use sux::builder::VFuncBuilder;
use sux::error::BuildError;
use sux::func::VFunc;

#[test]
fn test_func() {
    for offline in [false, true] {
        for n in [10_u64, 100, 1000, 100000] {
            let keys: Vec<u64> = (0..n).collect();
            let values: Vec<u64> = (0..n).collect();
            let func = VFuncBuilder::default()
                .offline(offline)
                .build(&keys, &values)
                .unwrap();
            let buf = func.to_bytes();
            let func = VFunc::from_bytes(&buf).unwrap();
            for i in 0..n {
                assert_eq!(i, func.get(i));
            }
        }
    }
}

#[test]
fn test_dup_key() {
    let keys: Vec<u64> = std::iter::repeat(0).take(10).collect();
    let values: Vec<u64> = (0..10).collect();
    assert!(VFuncBuilder::default().build(&keys, &values).is_err());
}

#[test]
fn test_dup_key_error_kind() {
    let keys: Vec<u64> = vec![3; 10];
    let values: Vec<u64> = (0..10).collect();
    let r = VFuncBuilder::default().build(&keys, &values);
    match r {
        Err(e) => assert_eq!(e, BuildError::DuplicateKey),
        Ok(_) => panic!("duplicate keys must not build"),
    }
}

#[test]
fn test_empty() {
    let keys: Vec<u64> = Vec::new();
    let values: Vec<u64> = Vec::new();
    let func = VFuncBuilder::default().build(&keys, &values).unwrap();
    assert!(func.is_empty());
    assert_eq!(func.len(), 0);
    assert_eq!(func.values.len(), 0);
}

#[test]
fn test_single_key() {
    let keys: Vec<u64> = vec![42];
    let values: Vec<u64> = vec![7];
    let func = VFuncBuilder::default().build(&keys, &values).unwrap();
    assert_eq!(func.len(), 1);
    assert_eq!(func.get(42), 7);
    // every cell but the three of the single edge is zero, so the XOR of
    // the whole array is the XOR of those three cells: the single value
    let mut x = 0u64;
    for c in func.values.iter() {
        x ^= *c;
    }
    assert_eq!(x, 7);
}

#[test]
fn test_serde_file_roundtrip() {
    let n: u64 = 1000;
    let keys: Vec<u64> = (0..n).collect();
    let values: Vec<u64> = (0..n).map(|v| v.wrapping_mul(0x9E3779B97F4A7C15)).collect();
    let func = VFuncBuilder::default().build(&keys, &values).unwrap();
    let bytes = func.to_bytes();

    let mut file = tempfile::tempfile().unwrap();
    file.write_all(&bytes).unwrap();
    file.seek(SeekFrom::Start(0)).unwrap();
    let mut buf = Vec::new();
    file.read_to_end(&mut buf).unwrap();
    assert_eq!(buf, bytes);

    let reloaded = VFunc::from_bytes(&buf).unwrap();
    for i in 0..n {
        assert_eq!(reloaded.get(i), values[i as usize]);
        assert_eq!(reloaded.get(i), func.get(i));
    }
}

#[test]
fn test_serde_rejects_garbage() {
    assert!(VFunc::from_bytes(&vec![0u8; 10]).is_none());
    let keys: Vec<u64> = (0..10).collect();
    let values: Vec<u64> = (0..10).collect();
    let func = VFuncBuilder::default().build(&keys, &values).unwrap();
    let mut bytes = func.to_bytes();
    bytes.pop();
    assert!(VFunc::from_bytes(&bytes).is_none());
}

#[test]
fn test_rebuild_agrees() {
    // two independent builds use unrelated random seeds, yet agree on
    // every input key
    let n: u64 = 500;
    let keys: Vec<u64> = (0..n).map(|k| k.wrapping_mul(11400714819323198485)).collect();
    let values: Vec<u64> = (0..n).collect();
    let f1 = VFuncBuilder::default().build(&keys, &values).unwrap();
    let f2 = VFuncBuilder::default().build(&keys, &values).unwrap();
    for (i, k) in keys.iter().enumerate() {
        assert_eq!(f1.get(*k), values[i]);
        assert_eq!(f1.get(*k), f2.get(*k));
    }
}

#[test]
fn test_chunk_bits_threshold() {
    // the number of chunk-defining bits jumps from zero to positive just
    // past 2^21 keys
    assert_eq!(sux::builder::chunk_bits_for(0), 0);
    assert_eq!(sux::builder::chunk_bits_for(1 << 21), 0);
    let over = sux::builder::chunk_bits_for((1 << 21) + 1);
    assert!(over >= 1);
    let big = sux::builder::chunk_bits_for(1 << 30);
    assert!(big >= 1 && big <= 30);
}

#[test]
fn test_values_len_matches_layout() {
    let keys: Vec<u64> = (0..100).collect();
    let values: Vec<u64> = (0..100).collect();
    let func = VFuncBuilder::default().build(&keys, &values).unwrap();
    let expected = (func.chunk_mask as usize + 1) * func.segment_size * (func.l + 2);
    assert_eq!(func.values.len(), expected);
}
