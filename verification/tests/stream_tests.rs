use ee_experiment::stream::SeededStream;
use num_bigint::BigUint;

#[test]
fn stream_is_repeatable() {
    // two streams built from one seed draw the same safe prime
    let mut s1 = SeededStream::new(128, 958745);
    let mut s2 = SeededStream::new(128, 958745);
    let p1: BigUint = s1.next().unwrap();
    let p2: BigUint = s2.next().unwrap();
    assert_eq!(p1, p2);
    assert_eq!(p1.bits(), 128);
}

#[test]
fn stream_rejects_short_bit_lengths() {
    let mut s = SeededStream::new(64, 1);
    assert!(s.next().is_none());
}
