//! The key codec: exact encodings, round trips, and byte-order checks.

use block_storage::codec::{
    decode_block_number, decode_felt, encode_block_number, encode_felt, encode_storage_history_key,
};
use block_storage::felt::Felt;

#[test]
fn test_block_number_encoding() {
    assert_eq!(
        encode_block_number(0x0102030405060708),
        vec![1, 2, 3, 4, 5, 6, 7, 8]
    );
    assert_eq!(encode_block_number(0), vec![0; 8]);
    assert_eq!(encode_block_number(1), vec![0, 0, 0, 0, 0, 0, 0, 1]);
    assert_eq!(encode_block_number(u64::MAX), vec![0xff; 8]);
}

#[test]
fn test_block_number_roundtrip() {
    for n in [0u64, 1, 255, 256, 0xdead_beef, u64::MAX] {
        assert_eq!(decode_block_number(&encode_block_number(n)), Some(n));
    }
    assert_eq!(decode_block_number(&[1, 2, 3]), None);
    assert_eq!(decode_block_number(&[0; 9]), None);
}

#[test]
fn test_felt_encoding() {
    let f = Felt { hi: 0, lo: 0x0102 };
    let mut expected = vec![0u8; 30];
    expected.extend_from_slice(&[1, 2]);
    assert_eq!(encode_felt(&f), expected);

    let g = Felt {
        hi: 0x0a000000000000000000000000000000,
        lo: 1,
    };
    let enc = encode_felt(&g);
    assert_eq!(enc.len(), 32);
    assert_eq!(enc[0], 0x0a);
    assert_eq!(enc[31], 1);
    assert_eq!(decode_felt(&enc), Some(g));
}

#[test]
fn test_felt_roundtrip() {
    for f in [
        Felt { hi: 0, lo: 0 },
        Felt { hi: 0, lo: u128::MAX },
        Felt { hi: 7, lo: 13 },
        Felt {
            hi: 0x642b629ad8ce233b55798c83bb629a5,
            lo: 0x9bf0a0092f67da28d6d66776680d5483,
        },
    ] {
        assert_eq!(decode_felt(&encode_felt(&f)), Some(f));
    }
    assert_eq!(decode_felt(&[0; 31]), None);
}

#[test]
fn test_storage_history_key_order() {
    // Byte-by-byte comparison of encoded keys follows (address, key, block).
    let k = |a: u64, s: u64, b: u64| {
        encode_storage_history_key(&Felt::from_u64(a), &Felt::from_u64(s), b)
    };
    assert_eq!(k(1, 2, 3).len(), 72);
    assert!(k(1, 2, 3) < k(1, 2, 4));
    assert!(k(1, 2, 4) < k(1, 3, 0));
    assert!(k(1, 3, 0) < k(2, 0, 0));
    assert!(k(1, 0xffff, 0xffff) < k(2, 0, 0));
}
