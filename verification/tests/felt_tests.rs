//! The felt type: constructors, limbs, and the ASCII encoding used for
//! chain ids.

use block_storage::felt::{Felt, FELT_HI_BOUND};

#[test]
fn test_ascii_as_felt() {
    let sn_main_id = "SN_MAIN";
    let sn_main_felt = Felt::ascii_as_felt(sn_main_id.as_bytes()).unwrap();
    // This is the result of the Python snippet from the Chain-Id documentation.
    let expected_sn_main = Felt::from_u128(23448594291968334_u128);
    assert_eq!(sn_main_felt, expected_sn_main);
}

#[test]
fn test_ascii_as_felt_bounds() {
    // The empty string is the zero felt.
    assert_eq!(Felt::ascii_as_felt(b""), Some(Felt::zero()));
    // 31 bytes fit; 32 do not.
    let long = [0x41u8; 31];
    assert!(Felt::ascii_as_felt(&long).is_some());
    let too_long = [0x41u8; 32];
    assert_eq!(Felt::ascii_as_felt(&too_long), None);
    // One byte reads as itself.
    assert_eq!(Felt::ascii_as_felt(b"A"), Some(Felt::from_u64(0x41)));
    // Big-endian: "AB" is 0x4142.
    assert_eq!(Felt::ascii_as_felt(b"AB"), Some(Felt::from_u64(0x4142)));
}

#[test]
fn test_felt_constructors() {
    assert_eq!(Felt::zero(), Felt { hi: 0, lo: 0 });
    assert_eq!(Felt::from_u64(7), Felt { hi: 0, lo: 7 });
    assert_eq!(Felt::from_u128(1 << 100), Felt { hi: 0, lo: 1 << 100 });
    assert_eq!(
        Felt::from_limbs(3, 4),
        Some(Felt { hi: 3, lo: 4 })
    );
    // A value of 252 bits or more is not a canonical felt.
    assert_eq!(Felt::from_limbs(FELT_HI_BOUND, 0), None);
    assert_eq!(Felt::from_limbs(FELT_HI_BOUND - 1, u128::MAX).is_some(), true);
}
