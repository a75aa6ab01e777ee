// The sponge driven as SHAKE-256: known output for the empty input, a pinned
// regression vector for the password "test", determinism across sessions, and
// the same stream however absorption and squeezing are chunked.

use shakelock::sponge::Keccak;

#[test]
fn shake256_empty_input() {
    let mut shake = Keccak::new(1088, 512, 0x1f);
    shake.absorb(&[]);
    let out = shake.squeeze(32);
    let expected: Vec<u8> = vec![
        0x46, 0xb9, 0xdd, 0x2b, 0x0b, 0xa8, 0x8d, 0x13, 0x23, 0x3b, 0x3f, 0xeb, 0x74, 0x3e, 0xeb,
        0x24, 0x3f, 0xcd, 0x52, 0xea, 0x62, 0xb8, 0x1b, 0x82, 0xb5, 0x0c, 0x27, 0x64, 0x6e, 0xd5,
        0x76, 0x2f,
    ];
    assert_eq!(out, expected);
}

#[test]
fn concrete_scenario_password_test() {
    let mut shake = Keccak::new(1088, 512, 0x1f);
    shake.absorb(b"test");
    let out = shake.squeeze(32);
    let expected: Vec<u8> = vec![
        0xb5, 0x4f, 0xf7, 0x25, 0x57, 0x05, 0xa7, 0x1e, 0xe2, 0x92, 0x5e, 0x4a, 0x3e, 0x30, 0xe4,
        0x1a, 0xed, 0x48, 0x9a, 0x57, 0x9d, 0x55, 0x95, 0xe0, 0xdf, 0x13, 0xe3, 0x2e, 0x1e, 0x4d,
        0xd2, 0x02,
    ];
    assert_eq!(out, expected);
}

#[test]
fn determinism_two_sessions() {
    let mut first = Keccak::new(1088, 512, 0x1f);
    let mut second = Keccak::new(1088, 512, 0x1f);
    first.absorb(b"same password");
    second.absorb(b"same password");
    for _ in 0..5 {
        assert_eq!(first.squeeze(7), second.squeeze(7));
    }
}

#[test]
fn absorb_split_equivalence() {
    // 137 bytes: one byte past the rate boundary of the shipped variant.
    let data: Vec<u8> = (0..137u8).map(|i| i.wrapping_mul(31)).collect();
    let mut whole = Keccak::new(1088, 512, 0x1f);
    whole.absorb(&data);
    let mut pieces = Keccak::new(1088, 512, 0x1f);
    pieces.absorb(&data[..64]);
    pieces.absorb(&data[64..136]);
    pieces.absorb(&data[136..]);
    assert_eq!(whole.squeeze(64), pieces.squeeze(64));
}

#[test]
fn squeeze_split_equivalence() {
    let mut whole = Keccak::new(1088, 512, 0x1f);
    whole.absorb(b"chunks");
    let mut pieces = Keccak::new(1088, 512, 0x1f);
    pieces.absorb(b"chunks");
    let all = whole.squeeze(300);
    let mut gathered = pieces.squeeze(135);
    gathered.extend(pieces.squeeze(2));
    gathered.extend(pieces.squeeze(163));
    assert_eq!(all, gathered);
    assert_eq!(all.len(), 300);
}

#[test]
fn suffix_separates_domains() {
    let mut a = Keccak::new(1088, 512, 0x1f);
    let mut b = Keccak::new(1088, 512, 0x06);
    a.absorb(b"pw");
    b.absorb(b"pw");
    assert_ne!(a.squeeze(32), b.squeeze(32));
}

#[test]
fn sha3_256_empty_input() {
    // Same sponge, suffix 0x06: the SHA3-256 digest of the empty input.
    let mut shake = Keccak::new(1088, 512, 0x06);
    shake.absorb(&[]);
    let out = shake.squeeze(32);
    let expected: Vec<u8> = vec![
        0xa7, 0xff, 0xc6, 0xf8, 0xbf, 0x1e, 0xd7, 0x66, 0x51, 0xc1, 0x47, 0x56, 0xa0, 0x61, 0xd6,
        0x62, 0xf5, 0x80, 0xff, 0x4d, 0xe4, 0x3b, 0x49, 0xfa, 0x82, 0xd8, 0x0a, 0x4b, 0x80, 0xf8,
        0x43, 0x4a,
    ];
    assert_eq!(out, expected);
}

#[test]
fn keccak_256_empty_input() {
    // Suffix 0x01: the pre-standard Keccak-256 digest of the empty input.
    let mut shake = Keccak::new(1088, 512, 0x01);
    shake.absorb(&[]);
    let out = shake.squeeze(32);
    let expected: Vec<u8> = vec![
        0xc5, 0xd2, 0x46, 0x01, 0x86, 0xf7, 0x23, 0x3c, 0x92, 0x7e, 0x7d, 0xb2, 0xdc, 0xc7, 0x03,
        0xc0, 0xe5, 0x00, 0xb6, 0x53, 0xca, 0x82, 0x27, 0x3b, 0x7b, 0xfa, 0xd8, 0x04, 0x5d, 0x85,
        0xa4, 0x70,
    ];
    assert_eq!(out, expected);
}

#[test]
fn pad_suffix_on_last_block_byte() {
    // A suffix with its top bit set, landing exactly on the last byte of the
    // rate block, takes the extra permutation in the padding path; the stream
    // must not depend on how it is squeezed.
    let data = vec![7u8; 135];
    let mut whole = Keccak::new(1088, 512, 0x9f);
    whole.absorb(&data);
    let mut pieces = Keccak::new(1088, 512, 0x9f);
    pieces.absorb(&data[..100]);
    pieces.absorb(&data[100..]);
    let x = whole.squeeze(40);
    let mut y = pieces.squeeze(17);
    y.extend(pieces.squeeze(23));
    assert_eq!(x, y);
}
