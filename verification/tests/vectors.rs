//! Byte-exact output vectors covering the single-block, single-chunk,
//! multi-chunk and keyed paths.  Any change to these bytes is a break
//! in compatibility.
use b3hash::Hasher;

fn pattern(len: usize) -> Vec<u8> {
    let mut v = Vec::with_capacity(len);
    for i in 0..len {
        v.push((i % 256) as u8);
    }
    v
}

fn hash_once(data: &[u8]) -> Vec<u8> {
    let mut h = Hasher::new();
    h.update(data);
    h.finalize()
}

#[test]
fn empty_input() {
    let expected: [u8; 32] = [
        0x4e, 0xcb, 0x47, 0x77, 0xdf, 0x68, 0x44, 0x27, 0x33, 0xde, 0xb4, 0x45, 0x21, 0xea,
        0xe5, 0x98, 0x5c, 0xf0, 0xbb, 0x14, 0x6f, 0x8f, 0x80, 0x99, 0x38, 0xb0, 0x21, 0xbf,
        0xa2, 0x1a, 0xa6, 0x40,
    ];
    assert_eq!(hash_once(&[]), expected.to_vec());
}

#[test]
fn one_zero_byte() {
    let expected: [u8; 32] = [
        0x52, 0xc7, 0xf8, 0x24, 0x8d, 0x49, 0x5e, 0x8a, 0xc5, 0xd2, 0x83, 0x35, 0xbd, 0x52,
        0x30, 0x75, 0xd0, 0xf7, 0x71, 0x3c, 0x4f, 0x55, 0x9b, 0x84, 0x10, 0x18, 0xcb, 0x89,
        0xfd, 0x58, 0x2a, 0x29,
    ];
    assert_eq!(hash_once(&[0u8]), expected.to_vec());
}

#[test]
fn exactly_one_chunk() {
    let expected: [u8; 32] = [
        0xc0, 0x05, 0xc6, 0x0d, 0x60, 0x4d, 0x77, 0x1a, 0x43, 0xbe, 0xd3, 0xbf, 0x66, 0x5c,
        0x4d, 0x41, 0x9f, 0x74, 0x56, 0xa3, 0x08, 0x0a, 0xa6, 0xd2, 0xbc, 0x97, 0x4a, 0x16,
        0xef, 0x7f, 0x2a, 0xf0,
    ];
    assert_eq!(hash_once(&pattern(2048)), expected.to_vec());
}

#[test]
fn one_chunk_plus_one_byte() {
    let expected: [u8; 32] = [
        0x68, 0xaa, 0xfa, 0xc6, 0x53, 0xd1, 0x32, 0x67, 0x95, 0xbd, 0x2f, 0x3b, 0x89, 0xa6,
        0x61, 0xd3, 0x3e, 0x13, 0xf9, 0x15, 0x72, 0x15, 0xa5, 0x25, 0x6c, 0xd3, 0xd8, 0x7b,
        0xcd, 0x35, 0xb2, 0xff,
    ];
    assert_eq!(hash_once(&pattern(2049)), expected.to_vec());
}

#[test]
fn four_complete_chunks() {
    let expected: [u8; 32] = [
        0x35, 0x38, 0xea, 0x4e, 0x3a, 0x26, 0x82, 0x32, 0xa2, 0xf1, 0xc1, 0x66, 0x28, 0x29,
        0x95, 0x0b, 0x70, 0xec, 0xa1, 0x71, 0x62, 0x78, 0xf9, 0x40, 0x5e, 0xae, 0x99, 0x5b,
        0xe8, 0x83, 0xa7, 0x7e,
    ];
    assert_eq!(hash_once(&pattern(4 * 2048)), expected.to_vec());
}

#[test]
fn one_block_plus_one_byte() {
    let expected: [u8; 32] = [
        0x46, 0x24, 0x4a, 0xb7, 0xc3, 0x4b, 0x54, 0x96, 0x9a, 0x73, 0xf2, 0xe7, 0x83, 0xda,
        0xbb, 0xac, 0xe8, 0x27, 0x47, 0x23, 0x63, 0xe2, 0x9f, 0xd9, 0x3f, 0xca, 0x26, 0x76,
        0x51, 0x19, 0x1b, 0x19,
    ];
    assert_eq!(hash_once(&pattern(65)), expected.to_vec());
}

#[test]
fn three_chunks_plus_tail() {
    let expected: [u8; 32] = [
        0x63, 0xd3, 0xde, 0x06, 0x78, 0x18, 0xbe, 0x3f, 0xa1, 0xae, 0xa2, 0xf2, 0x20, 0xe7,
        0x8a, 0x4d, 0x18, 0xaa, 0x59, 0x14, 0x05, 0x8f, 0xe5, 0x3a, 0xe1, 0x36, 0x8b, 0xeb,
        0xbd, 0x0c, 0x24, 0xa7,
    ];
    assert_eq!(hash_once(&pattern(3 * 2048 + 5)), expected.to_vec());
}

#[test]
fn keyed_zero_key_abc() {
    let expected: [u8; 32] = [
        0xf0, 0x0b, 0xd5, 0x02, 0x94, 0xb7, 0x83, 0x1b, 0x05, 0x8e, 0xbe, 0x4d, 0xf3, 0x67,
        0x20, 0xee, 0x61, 0x6c, 0x76, 0xf8, 0x2e, 0x07, 0x6a, 0x45, 0xe6, 0x9a, 0x99, 0x37,
        0xf8, 0xb4, 0xd6, 0xe3,
    ];
    let mut h = Hasher::new_keyed(&[0u8; 32]);
    h.update(b"abc");
    assert_eq!(h.finalize(), expected.to_vec());
}

#[test]
fn unkeyed_abc() {
    let expected: [u8; 32] = [
        0x41, 0x4b, 0xac, 0x8e, 0x3e, 0x75, 0x1c, 0x97, 0x9c, 0xf1, 0xe4, 0xac, 0x06, 0x4e,
        0xd4, 0x1b, 0xea, 0xf7, 0xac, 0xb9, 0x21, 0x06, 0x0c, 0x9b, 0xd9, 0x84, 0xfb, 0x25,
        0x4b, 0x81, 0x9d, 0x57,
    ];
    assert_eq!(hash_once(b"abc"), expected.to_vec());
}

#[test]
fn derive_key_abc() {
    let expected: [u8; 32] = [
        0x09, 0x91, 0xfb, 0x88, 0x04, 0x98, 0xac, 0x68, 0xe2, 0xfc, 0x93, 0x76, 0x5e, 0xbe,
        0xa7, 0x7d, 0xd8, 0x88, 0x5c, 0x40, 0x99, 0x91, 0xd0, 0x48, 0x8f, 0x45, 0xd3, 0x04,
        0x6e, 0xac, 0xf2, 0x2a,
    ];
    let mut context_key = [0u8; 32];
    for i in 0..32 {
        context_key[i] = i as u8;
    }
    let mut h = Hasher::new_derive_key(&context_key);
    h.update(b"abc");
    assert_eq!(h.finalize(), expected.to_vec());
}

#[test]
fn extended_output_64_bytes() {
    let expected: [u8; 64] = [
        0x52, 0xc7, 0xf8, 0x24, 0x8d, 0x49, 0x5e, 0x8a, 0xc5, 0xd2, 0x83, 0x35, 0xbd, 0x52,
        0x30, 0x75, 0xd0, 0xf7, 0x71, 0x3c, 0x4f, 0x55, 0x9b, 0x84, 0x10, 0x18, 0xcb, 0x89,
        0xfd, 0x58, 0x2a, 0x29, 0x24, 0x22, 0x30, 0xaf, 0x6a, 0x67, 0xfb, 0x31, 0x3a, 0x85,
        0x5a, 0x1d, 0xd7, 0x0a, 0x25, 0x08, 0xeb, 0x12, 0x65, 0x33, 0xca, 0xe2, 0x02, 0x06,
        0xf3, 0x1e, 0xf0, 0xa9, 0xae, 0xe2, 0x2a, 0xab,
    ];
    let mut h = Hasher::new();
    h.update(&[0u8]);
    let mut out = vec![0u8; 64];
    h.finalize_extended(&mut out);
    assert_eq!(out, expected.to_vec());
}
