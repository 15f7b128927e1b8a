use std::sync::Arc;

use arrs_bitmap::bitmap::Bitmap;
use arrs_bitmap::compute::re_align::re_align;
use arrs_buffer::Buffer;
use rand::RngExt;
use rand::SeedableRng;
use rand_chacha::ChaCha8Rng;

fn run_test(bools: &[bool]) {
    let bitmap = Bitmap::from_bools(bools);

    for i in 0..bools.len() {
        assert_eq!(bools[i], bitmap.get(i).unwrap());
    }

    let offset = bitmap.num_bits() / 2;
    let new_len = bitmap.num_bits().saturating_sub(offset);
    let shifted_bitmap = bitmap.slice(offset, new_len);

    for i in 0..new_len {
        assert_eq!(
            bitmap.get(i + offset).unwrap(),
            shifted_bitmap.get(i).unwrap(),
            "failed at idx {}, len is: {}",
            i,
            bools.len()
        );
    }
}

fn generate(len: usize) -> Vec<bool> {
    let mut buf = Vec::with_capacity(len);

    let mut rng = ChaCha8Rng::seed_from_u64(0);

    for _ in 0..len {
        buf.push(rng.random_bool(0.5));
    }

    buf
}

#[test]
fn test_all() {
    run_test(&[]);
    run_test(&generate(1));
    run_test(&generate(2));
    run_test(&generate(3));
    run_test(&generate(7));
    run_test(&generate(8));
    run_test(&generate(9));
    run_test(&generate(32));
    run_test(&generate(63));
    run_test(&generate(64));
    run_test(&generate(65));
    run_test(&generate(127));
    run_test(&generate(128));
    run_test(&generate(129));
    run_test(&generate(1023));
    run_test(&generate(123123));
}

#[test]
fn concrete_example() {
    let bools = [true, false, true, true, false, false, false, true];
    let bm = Bitmap::from_bools(&bools);

    assert_eq!(bm.buf().as_slice(), &[0b1000_1101u8]);
    assert_eq!(bm.get(0), Some(true));
    assert_eq!(bm.get(1), Some(false));
    assert_eq!(bm.get(7), Some(true));
    assert_eq!(bm.get(8), None);
    assert_eq!(bm.set_ranges(), vec![(0, 1), (2, 4), (7, 8)]);
}

#[test]
fn empty_bitmap() {
    let bm = Bitmap::from_bools(&[]);
    assert_eq!(bm.num_bits(), 0);
    assert_eq!(bm.get(0), None);
    assert_eq!(bm.get(123), None);
    assert!(bm.set_ranges().is_empty());
}

#[test]
fn zero_copy_slice_shares_buffer() {
    let bools = generate(100);
    let bm = Bitmap::from_bools(&bools);

    for k in [0usize, 1, 50, 100] {
        let s = bm.slice(0, k);
        assert!(Arc::ptr_eq(&bm.buf(), &s.buf()));
        assert_eq!(s.num_bits(), k);
    }

    // Even a byte-aligned non-zero start reallocates: offset 0 is the only
    // zero-copy case.
    let s2 = bm.slice(8, 50);
    assert!(!Arc::ptr_eq(&bm.buf(), &s2.buf()));
}

#[test]
fn clone_shares_buffer() {
    let bm = Bitmap::from_bools(&generate(40));
    let bm2 = bm.clone();
    assert!(Arc::ptr_eq(&bm.buf(), &bm2.buf()));
    assert_eq!(bm2.num_bits(), 40);
}

#[test]
fn slice_all_offsets() {
    let n: usize = 150;
    let bools = generate(n);
    let bm = Bitmap::from_bools(&bools);

    for offset in [0usize, 1, 7, 8, 63, 64, 65, 127, 128, 149, 150] {
        let len = n - offset;
        let s = bm.slice(offset, len);
        for i in 0..len {
            assert_eq!(s.get(i), bm.get(i + offset));
        }
        assert_eq!(s.get(len), None);
    }
}

#[test]
fn get_unchecked_matches_get() {
    let bools = generate(77);
    let bm = Bitmap::from_bools(&bools);
    for i in 0..bools.len() {
        assert_eq!(bm.get_unchecked(i), bools[i]);
    }
}

#[test]
fn from_buf_wraps_existing_buffer() {
    let buffer = Buffer::from_slice(&[0b0000_0101u8, 0b0000_0001]);
    let bm = Bitmap::from_buf(Arc::new(buffer), 10);

    assert_eq!(bm.num_bits(), 10);
    for i in 0..10 {
        let expected = i == 0 || i == 2 || i == 8;
        assert_eq!(bm.get(i), Some(expected));
    }
    assert_eq!(bm.get(10), None);
}

#[test]
fn set_ranges_matches_bits() {
    let bools = generate(301);
    let bm = Bitmap::from_bools(&bools);
    let ranges = bm.set_ranges();

    // Sorted ascending, pairwise disjoint and non-adjacent.
    for w in ranges.windows(2) {
        assert!(w[0].1 < w[1].0);
    }

    // Each range is a maximal run of set bits; together they cover exactly
    // the set bits. The packer zeroes every bit beyond the logical length,
    // so no range reaches past it.
    let mut inside = vec![false; bools.len()];
    for &(s, e) in ranges.iter() {
        assert!(s < e && e <= bools.len());
        for i in s..e {
            inside[i] = true;
        }
        if s > 0 {
            assert!(!bools[s - 1]);
        }
        if e < bools.len() {
            assert!(!bools[e]);
        }
    }
    for i in 0..bools.len() {
        assert_eq!(bools[i], inside[i]);
    }
}

#[test]
fn set_ranges_across_word_boundary() {
    let mut bools = vec![false; 128];
    bools[63] = true;
    bools[64] = true;
    assert_eq!(Bitmap::from_bools(&bools).set_ranges(), vec![(63, 65)]);

    let all = vec![true; 128];
    assert_eq!(Bitmap::from_bools(&all).set_ranges(), vec![(0, 128)]);

    let none = vec![false; 200];
    assert!(Bitmap::from_bools(&none).set_ranges().is_empty());
}

#[test]
fn slice_of_all_ones_is_all_ones() {
    let all = vec![true; 200];
    let bm = Bitmap::from_bools(&all);
    for offset in [1usize, 13, 63, 64, 65, 130] {
        let len = 200 - offset;
        let s = bm.slice(offset, len);
        for i in 0..len {
            assert_eq!(s.get(i), Some(true));
        }
        assert_eq!(s.get(len), None);
    }
}

#[test]
fn re_align_shift_zero_copies() {
    let src = vec![1u64, 2, 3];
    assert_eq!(re_align(&src, 3, 0), vec![1, 2, 3]);
    assert_eq!(re_align(&src, 2, 0), vec![1, 2]);
    assert_eq!(re_align(&src, 0, 17), Vec::<u64>::new());
}

#[test]
fn re_align_all_ones() {
    let src = vec![u64::MAX; 4];
    for shift in 1..64u32 {
        let dst = re_align(&src, 4, shift);
        for k in 0..3 {
            assert_eq!(dst[k], u64::MAX);
        }
        assert_eq!(dst[3], u64::MAX >> shift);
    }
}

#[test]
fn re_align_merges_adjacent_words() {
    let src = vec![0xAAAA_AAAA_AAAA_AAAAu64, 0x5555_5555_5555_5555u64];
    let dst = re_align(&src, 2, 1);
    assert_eq!(dst[0], 0xD555_5555_5555_5555u64);
    assert_eq!(dst[1], 0x2AAA_AAAA_AAAA_AAAAu64);
}
