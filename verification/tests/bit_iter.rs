use lsb_stego::bit_iter::BitIter;
use lsb_stego::bit_iter::IterBits;

fn collect_bits(mut it: IterBits) -> Vec<bool> {
    let mut v: Vec<bool> = Vec::new();
    while let Some(b) = it.next() {
        v.push(b);
    }
    v
}

#[test]
fn test_iter_bits() {
    let bits: Vec<bool> = collect_bits(7u8.iter_bits());
    assert_eq!(bits, &[true, true, true, false, false, false, false, false]);
    let bits: Vec<bool> = collect_bits(9u8.iter_bits());
    assert_eq!(
        bits,
        &[true, false, false, true, false, false, false, false]
    );
}

#[test]
fn test_iter_bits_extremes() {
    assert_eq!(collect_bits(0u8.iter_bits()), vec![false; 8]);
    assert_eq!(collect_bits(255u8.iter_bits()), vec![true; 8]);
    let bits = collect_bits(128u8.iter_bits());
    assert_eq!(
        bits,
        &[false, false, false, false, false, false, false, true]
    );
}

#[test]
fn test_iter_bits_stops_after_eight() {
    let mut it = 42u8.iter_bits();
    for _ in 0..8 {
        assert!(it.next().is_some());
    }
    assert!(it.next().is_none());
    assert!(it.next().is_none());
}
