use entropy::byte_histogram;
use entropy::entropy_counts;
use entropy::nonzero_counts;

/// Shannon entropy in bits per byte, folded over the verified nonzero
/// occurrence counts: the negated sum of `p * log2(p)` over each count's
/// probability `p = count / len`.
fn shannon(data: &[u8]) -> f64 {
    let counts: Vec<usize> = entropy_counts(data);
    let len: f64 = data.len() as f64;
    let mut sum: f64 = 0.0;
    let mut idx: usize = 0;
    while idx < counts.len() {
        let p: f64 = counts[idx] as f64 / len;
        sum += p * p.log2();
        idx += 1;
    }
    -sum
}

#[test]
fn test_entropy() {
    let test_entropy: &[u8] = &[0x00, 0x00, 0x01, 0x01, 0x02];
    let shannon_entropy: f64 = shannon(test_entropy);

    assert!((shannon_entropy - 1.5219280948873621).abs() <= f64::EPSILON);
}

#[test]
fn test_byte_histogram_counts_each_value() {
    let hist: Vec<usize> = byte_histogram(&[0x00, 0x00, 0x01, 0x01, 0x02]);
    assert_eq!(hist.len(), 256);
    assert_eq!(hist[0], 2);
    assert_eq!(hist[1], 2);
    assert_eq!(hist[2], 1);
    let mut idx: usize = 3;
    while idx < 256 {
        assert_eq!(hist[idx], 0);
        idx += 1;
    }
    let total: usize = hist.iter().sum();
    assert_eq!(total, 5);
}

#[test]
fn test_nonzero_counts_keeps_order_and_drops_zeros() {
    assert_eq!(nonzero_counts(&vec![0, 3, 0, 2, 0]), vec![3, 2]);
    assert_eq!(nonzero_counts(&vec![0, 0, 0]), Vec::<usize>::new());
    assert_eq!(nonzero_counts(&vec![5, 1, 4]), vec![5, 1, 4]);
}

#[test]
fn test_entropy_of_empty_input_is_zero() {
    assert_eq!(entropy_counts(&[]), Vec::<usize>::new());
    assert_eq!(shannon(&[]), 0.0);
}

#[test]
fn test_entropy_of_constant_input_is_zero() {
    let data: Vec<u8> = vec![0x41; 64];
    assert_eq!(entropy_counts(&data), vec![64]);
    assert_eq!(shannon(&data), 0.0);

    let single: &[u8] = &[0xff];
    assert_eq!(entropy_counts(single), vec![1]);
    assert_eq!(shannon(single), 0.0);
}

#[test]
fn test_entropy_of_uniform_input_is_eight() {
    let mut once: Vec<u8> = Vec::new();
    let mut v: usize = 0;
    while v < 256 {
        once.push(v as u8);
        v += 1;
    }
    assert_eq!(entropy_counts(&once), vec![1; 256]);
    assert_eq!(shannon(&once), 8.0);

    let mut four_each: Vec<u8> = Vec::new();
    let mut round: usize = 0;
    while round < 4 {
        four_each.extend_from_slice(&once);
        round += 1;
    }
    assert_eq!(entropy_counts(&four_each), vec![4; 256]);
    assert_eq!(shannon(&four_each), 8.0);
}

#[test]
fn test_entropy_is_permutation_invariant() {
    let data: &[u8] = &[7, 1, 7, 200, 1, 7, 0, 200, 9];
    let shuffled: &[u8] = &[200, 7, 0, 1, 9, 7, 200, 1, 7];
    assert_eq!(entropy_counts(data), entropy_counts(shuffled));
    assert_eq!(shannon(data), shannon(shuffled));
}

#[test]
fn test_entropy_stays_between_zero_and_eight() {
    let samples: Vec<Vec<u8>> = vec![
        vec![],
        vec![0],
        vec![0, 255],
        vec![1, 1, 1, 2],
        b"some random bytes".to_vec(),
        vec![0x41; 1000],
        (0u16..256).map(|v| v as u8).collect(),
    ];
    let mut idx: usize = 0;
    while idx < samples.len() {
        let e: f64 = shannon(&samples[idx]);
        assert!((0.0..=8.0).contains(&e), "entropy {} out of range", e);
        idx += 1;
    }
}

#[test]
fn test_entropy_of_some_random_bytes() {
    let data: &[u8] = b"some random bytes";
    let e: f64 = shannon(data);
    assert!((e - 3.49922754713).abs() <= 1e-10);
}
