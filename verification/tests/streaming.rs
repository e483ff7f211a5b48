//! Streaming behaviour: how input is split across calls never changes
//! the output, shorter outputs are prefixes of longer ones, finalizing
//! does not consume the hasher, and the three modes separate.
use b3hash::Hasher;

fn pattern(len: usize) -> Vec<u8> {
    let mut v = Vec::with_capacity(len);
    for i in 0..len {
        v.push((i % 256) as u8);
    }
    v
}

fn hash_once(data: &[u8]) -> Vec<u8> {
    let mut h = Hasher::new();
    h.update(data);
    h.finalize()
}

#[test]
fn determinism_across_partitions() {
    let data = pattern(5000);
    let whole = hash_once(&data);
    for piece in [1usize, 7, 63, 64, 65, 1000, 2048, 4999] {
        let mut h = Hasher::new();
        let mut i = 0;
        while i < data.len() {
            let j = (i + piece).min(data.len());
            h.update(&data[i..j]);
            i = j;
        }
        assert_eq!(h.finalize(), whole, "piece size {piece}");
    }
}

#[test]
fn chunk_boundary_splits() {
    let data = pattern(5 * 2048 + 123);
    let whole = hash_once(&data);
    for k in 0..=5usize {
        let cut = k * 2048;
        let mut h = Hasher::new();
        h.update(&data[..cut]);
        h.update(&data[cut..]);
        assert_eq!(h.finalize(), whole, "cut at {cut}");
    }
}

#[test]
fn extended_output_prefixes() {
    let mut h = Hasher::new();
    h.update(b"prefix property");
    let short = h.finalize();
    for len in [32usize, 33, 63, 64, 65, 100, 200] {
        let mut out = vec![0u8; len];
        h.finalize_extended(&mut out);
        assert_eq!(&out[..32], &short[..], "length {len}");
    }
}

#[test]
fn extended_self_consistency() {
    // 64 bytes drawn at once agree with the 32-byte output on the first
    // half, and two same-length draws agree in full.
    let mut h = Hasher::new();
    h.update(b"xof");
    let mut once = vec![0u8; 64];
    h.finalize_extended(&mut once);
    let mut again = vec![0u8; 64];
    h.finalize_extended(&mut again);
    assert_eq!(once, again);
    let mut half = vec![0u8; 32];
    h.finalize_extended(&mut half);
    assert_eq!(&once[..32], &half[..]);
    assert_eq!(h.finalize(), half);
}

#[test]
fn finalize_is_idempotent_and_nonconsuming() {
    let data = pattern(3000);
    let mut h = Hasher::new();
    h.update(&data[..1234]);
    let first = h.finalize();
    let second = h.finalize();
    assert_eq!(first, second);
    // The hasher can keep absorbing after a finalize.
    h.update(&data[1234..]);
    assert_eq!(h.finalize(), hash_once(&data));
}

#[test]
fn mode_separation() {
    let data = b"abc";
    let unkeyed = hash_once(data);
    let mut keyed = Hasher::new_keyed(&[0u8; 32]);
    keyed.update(data);
    let keyed = keyed.finalize();
    let mut derive = Hasher::new_derive_key(&[0u8; 32]);
    derive.update(data);
    let derive = derive.finalize();
    assert_ne!(unkeyed, keyed);
    assert_ne!(unkeyed, derive);
    assert_ne!(keyed, derive);
}

#[test]
fn different_keys_differ() {
    let mut a = Hasher::new_keyed(&[0u8; 32]);
    let mut b = Hasher::new_keyed(&[1u8; 32]);
    a.update(b"same input");
    b.update(b"same input");
    assert_ne!(a.finalize(), b.finalize());
}

#[test]
fn deep_tree_single_byte_updates() {
    // Eleven complete chunks and a short tail exercise several merge and
    // fold shapes; feeding one byte at a time must change nothing.
    let data = pattern(11 * 2048 + 7);
    let whole = hash_once(&data);
    let mut h = Hasher::new();
    for b in &data {
        h.update(std::slice::from_ref(b));
    }
    assert_eq!(h.finalize(), whole);
}

#[test]
fn empty_updates_change_nothing() {
    let mut h = Hasher::new();
    h.update(&[]);
    h.update(b"data");
    h.update(&[]);
    assert_eq!(h.finalize(), hash_once(b"data"));
}
