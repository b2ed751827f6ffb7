use rand::rngs::SmallRng;
use rand::{RngCore, SeedableRng};
use sux::hash::SigVal;
use sux::utils::sig_store::SigStore;

#[test]
fn test_sig_sorter() {
    for max_chunk_bits in [4, 6] {
        for high_bits in [0, 2, 4] {
            for chunk_bits in [0, 2, 4] {
                let mut sig_sorter = SigStore::new(high_bits, max_chunk_bits);
                let mut rand = SmallRng::seed_from_u64(0);
                for _ in (0..1000).rev() {
                    sig_sorter.push(&SigVal {
                        h0: rand.next_u64(),
                        h1: rand.next_u64(),
                        val: rand.next_u64(),
                    });
                }
                let (mut sorted_sig, _) = sig_sorter.into_store(chunk_bits).unwrap();
                let mut count = 0;
                let mut total = 0;
                while let Some(mut chunks) = sorted_sig.next() {
                    while let Some(chunk) = chunks.next() {
                        count += 1;
                        assert_ne!(chunk.0, usize::MAX);
                        total += chunk.1.len();
                        for w in chunk.1.windows(2) {
                            assert!(
                                w[0].h0 < w[1].h0 || w[0].h0 == w[1].h0 && w[0].h1 < w[1].h1
                            );
                        }
                    }
                }
                assert_eq!(count, 1 << chunk_bits);
                assert_eq!(total, 1000);
            }
        }
    }
}

#[test]
fn test_dup() {
    let mut sig_sorter = SigStore::new(0, 0);
    sig_sorter.push(&SigVal { h0: 0, h1: 0, val: 0 });
    sig_sorter.push(&SigVal { h0: 0, h1: 0, val: 0 });
    let mut dup = false;
    let (mut chunk_store, _) = sig_sorter.into_store(0).unwrap();
    while let Some(mut chunks) = chunk_store.next() {
        while let Some(chunk) = chunks.next() {
            if chunk.0 == usize::MAX {
                dup = true;
                break;
            }
        }
    }
    assert!(dup);
}

#[test]
fn test_chunk_sizes_total() {
    let mut store = SigStore::new(3, 5);
    let mut rand = SmallRng::seed_from_u64(7);
    let mut expected = [0usize; 32];
    for _ in 0..500 {
        let sv = SigVal {
            h0: rand.next_u64(),
            h1: rand.next_u64(),
            val: rand.next_u64(),
        };
        expected[(sv.h0.rotate_left(5) & 31) as usize] += 1;
        store.push(&sv);
    }
    assert_eq!(store.num_keys(), 500);
    let (store, sizes) = store.into_store(5).unwrap();
    assert_eq!(sizes.len(), 32);
    assert_eq!(sizes.iter().sum::<usize>(), 500);
    assert_eq!(store.chunk_sizes().as_slice(), &expected);
    // every chunk comes back with exactly the entries counted for it
    let mut store = store;
    let mut seen = [0usize; 32];
    while let Some(mut it) = store.next() {
        while let Some((k, data)) = it.next() {
            assert_ne!(k, usize::MAX);
            for sv in data.iter() {
                assert_eq!((sv.h0.rotate_left(5) & 31) as usize, k);
            }
            seen[k] += data.len();
        }
    }
    assert_eq!(seen, expected);
}

#[test]
fn test_invalid_config() {
    let store = SigStore::new(2, 3);
    assert!(store.into_store(4).is_err());
}
