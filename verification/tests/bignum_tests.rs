use prime_finder::bignum::BigNat;

#[test]
fn msf_round_trip_trims_leading_zeros() {
    let n = BigNat::from_msf_bytes(&[0x00, 0x00, 0x01, 0x02]);
    assert_eq!(n.to_msf_bytes(), vec![0x01, 0x02]);
}

#[test]
fn msf_round_trip_keeps_trailing_zeros() {
    let n = BigNat::from_msf_bytes(&[0x00, 0x01, 0x00]);
    assert_eq!(n.to_msf_bytes(), vec![0x01, 0x00]);
    assert_eq!(n.to_lsf_bytes(), vec![0x00, 0x01]);
}

#[test]
fn lsf_round_trip_trims_trailing_zeros() {
    let n = BigNat::from_lsf_bytes(&[0x01, 0x00]);
    assert_eq!(n.to_lsf_bytes(), vec![0x01]);
    assert_eq!(n.to_msf_bytes(), vec![0x01]);
}

#[test]
fn zero_encodes_as_empty() {
    let n = BigNat::from_msf_bytes(&[0x00, 0x00]);
    assert_eq!(n.to_msf_bytes(), Vec::<u8>::new());
    assert_eq!(n.to_lsf_bytes(), Vec::<u8>::new());
}

#[test]
fn byte_orders_give_mirrored_values() {
    let a = BigNat::from_msf_bytes(&[0x12, 0x34]);
    let b = BigNat::from_lsf_bytes(&[0x34, 0x12]);
    assert!(a.eq_value(&b));
    let c = BigNat::from_lsf_bytes(&[0x12, 0x34]);
    assert!(!a.eq_value(&c));
}

#[test]
fn comparison_follows_values() {
    let two = BigNat::from_msf_bytes(&[0x02]);
    let big = BigNat::from_msf_bytes(&[0x01, 0x00]);
    assert!(two.le(&big));
    assert!(!big.le(&two));
    assert!(two.le(&two));
    // Equal values with different written forms compare equal both ways.
    let padded = BigNat::from_msf_bytes(&[0x00, 0x02]);
    assert!(two.le(&padded));
    assert!(padded.le(&two));
}

#[test]
fn duplicate_preserves_the_value() {
    let n = BigNat::from_msf_bytes(&[0xAB, 0xCD]);
    let d = n.duplicate();
    assert!(n.eq_value(&d));
    assert_eq!(d.to_msf_bytes(), vec![0xAB, 0xCD]);
}
