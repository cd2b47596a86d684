use minikeccak::matrix::Matrix;
use minikeccak::sponge::{add_padding, hash, rounds};

#[test]
fn test_keccak() {
    let cases: Vec<(String, [u8; 16])> = vec![
        (
            "".to_string(),
            [
                0xE2, 0x25, 0x5B, 0xFB, 0xD3, 0xCF, 0x86, 0xE0, 0xDB, 0xE5, 0x2A, 0xA9, 0x67, 0x82,
                0xEB, 0x8D,
            ],
        ),
        (
            "AbCxYz".to_string(),
            [
                0x5A, 0x0F, 0xB1, 0xF1, 0xF0, 0x14, 0x98, 0x27, 0xC5, 0x36, 0x28, 0x0F, 0xEA, 0xD1,
                0x67, 0xD1,
            ],
        ),
        (
            "1234567890".to_string(),
            [
                0x37, 0x46, 0x68, 0x9D, 0x2E, 0xD8, 0x04, 0x06, 0xEB, 0xE2, 0x03, 0x8B, 0x5F, 0xDD,
                0xF9, 0xD5,
            ],
        ),
        (
            "Ala ma kota, kot ma ale.".to_string(),
            [
                0xD6, 0x62, 0xF8, 0xE0, 0x32, 0x8D, 0x46, 0xCB, 0x53, 0xCC, 0xB8, 0x9D, 0x21, 0x9A,
                0x94, 0x85,
            ],
        ),
        (
            "Ty, ktory wchodzisz, zegnaj sie z nadzieja.".to_string(),
            [
                0xB5, 0x34, 0xF7, 0xEF, 0xF7, 0x14, 0x8C, 0x43, 0x20, 0x57, 0xDF, 0xD6, 0x11, 0x38,
                0x7A, 0x30,
            ],
        ),
        (
            "a".repeat(48000),
            [
                0x07, 0x2F, 0xB0, 0x3B, 0xC3, 0xC9, 0x96, 0x50, 0x66, 0x3B, 0x2B, 0x89, 0xA6, 0xE9,
                0x9F, 0x74,
            ],
        ),
        (
            "a".repeat(48479),
            [
                0xAA, 0x64, 0x8B, 0xAE, 0xF6, 0x95, 0x48, 0x33, 0xF9, 0x55, 0x5D, 0x55, 0xA7, 0x97,
                0xD2, 0xCB,
            ],
        ),
        (
            "a".repeat(48958),
            [
                0x9A, 0x9C, 0x15, 0x4F, 0x81, 0x7A, 0x48, 0xE4, 0xE2, 0x8D, 0x8A, 0x8C, 0x68, 0x7A,
                0xCD, 0x60,
            ],
        ),
    ];
    for (message, expected) in cases.iter() {
        let digest = hash(message.as_bytes().to_vec());
        assert_eq!(digest, *expected, "for message {}", message);
    }
}

#[test]
fn hash_twice_gives_the_same_digest() {
    let input = b"determinism".to_vec();
    assert_eq!(hash(input.clone()), hash(input));
}

#[test]
fn trailing_zero_byte_changes_this_digest() {
    let a = hash(b"AbCxYz".to_vec());
    let b = hash(b"AbCxYz\0".to_vec());
    assert_ne!(a, b);
}

#[test]
fn padding_of_empty_input_is_one_block() {
    let mut v: Vec<u8> = Vec::new();
    add_padding(&mut v);
    assert_eq!(v.len(), 20);
    assert_eq!(v[0], 0x80);
    assert!(v[1..].iter().all(|b| *b == 0));
}

#[test]
fn padding_of_partial_block_rounds_up() {
    let mut v: Vec<u8> = vec![7u8; 19];
    add_padding(&mut v);
    assert_eq!(v.len(), 20);
    assert!(v[..19].iter().all(|b| *b == 7));
    assert_eq!(v[19], 0x80);
}

#[test]
fn padding_of_aligned_input_adds_a_whole_block() {
    let mut v: Vec<u8> = vec![1u8; 20];
    add_padding(&mut v);
    assert_eq!(v.len(), 40);
    assert!(v[..20].iter().all(|b| *b == 1));
    assert_eq!(v[20], 0x80);
    assert!(v[21..].iter().all(|b| *b == 0));
}

#[test]
fn padding_of_longer_input() {
    let mut v: Vec<u8> = vec![0xFFu8; 45];
    add_padding(&mut v);
    assert_eq!(v.len(), 60);
    assert_eq!(v[45], 0x80);
    assert!(v[46..].iter().all(|b| *b == 0));
}

#[test]
fn zeros_matrix_is_all_zero() {
    let m = Matrix::zeros();
    assert!(m.0.iter().all(|row| row.iter().all(|x| *x == 0)));
}

#[test]
fn rounds_change_the_zero_state_and_repeat() {
    let mut a = Matrix::zeros();
    let mut b = Matrix::zeros();
    rounds(&mut a);
    rounds(&mut b);
    assert!(a != Matrix::zeros());
    assert!(a == b);
}
