use patchly::rolling_hash::RollingHash;

#[test]
fn test_hash_chunk_basic() {
    let mut rh = RollingHash::new(4);
    let hash = rh.hash_chunk(b"abcd");

    // Hash should be non-zero
    assert_ne!(hash, 0);

    // Same input should produce same hash
    let mut rh2 = RollingHash::new(4);
    let hash2 = rh2.hash_chunk(b"abcd");
    assert_eq!(hash, hash2);
}

#[test]
fn test_different_data_different_hash() {
    let mut rh = RollingHash::new(4);
    let hash1 = rh.hash_chunk(b"abcd");
    let hash2 = rh.hash_chunk(b"abce");

    assert_ne!(hash1, hash2);
}

#[test]
fn test_roll_equivalence() {
    // Rolling from "abcd" to "bcde" should equal direct hash of "bcde"
    let mut rh1 = RollingHash::new(4);
    rh1.hash_chunk(b"abcd");
    let rolled = rh1.roll(b'a', b'e');

    let mut rh2 = RollingHash::new(4);
    let direct = rh2.hash_chunk(b"bcde");

    assert_eq!(rolled, direct);
}

#[test]
fn test_roll_multiple_times() {
    // Test rolling through "abcdef": abcd -> bcde -> cdef
    let mut rh = RollingHash::new(4);
    rh.hash_chunk(b"abcd");

    let hash_bcde = rh.roll(b'a', b'e');
    let hash_cdef = rh.roll(b'b', b'f');

    // Verify against direct computation
    let mut rh2 = RollingHash::new(4);
    assert_eq!(hash_bcde, rh2.hash_chunk(b"bcde"));
    assert_eq!(hash_cdef, rh2.hash_chunk(b"cdef"));
}

#[test]
fn test_window_size_1() {
    let mut rh = RollingHash::new(1);
    let hash_a = rh.hash_chunk(b"a");
    let hash_b = rh.roll(b'a', b'b');

    let mut rh2 = RollingHash::new(1);
    assert_eq!(hash_a, rh2.hash_chunk(b"a"));
    assert_eq!(hash_b, rh2.hash_chunk(b"b"));
}

#[test]
fn test_larger_window() {
    let data = b"hello world!";
    let mut rh = RollingHash::new(12);
    let hash = rh.hash_chunk(data);

    assert_ne!(hash, 0);
}

#[test]
fn test_binary_data() {
    // Test with non-ASCII binary data
    let data: [u8; 4] = [0x00, 0xFF, 0x80, 0x7F];
    let mut rh = RollingHash::new(4);
    let hash = rh.hash_chunk(&data);

    assert_ne!(hash, 0);
}

#[test]
fn rolling_identity_across_whole_sequence() {
    // Seeding at position zero and rolling k times must agree with seeding
    // directly over the slid window, for every position, with extreme bytes.
    let data: Vec<u8> = vec![
        0x00, 0xFF, 0x12, 0x00, 0xFF, 0xFF, 0x01, 0x80, 0x7F, 0x00, 0xAA, 0x55, 0xFE, 0x02,
        0x00, 0xFF,
    ];
    let window = 5;
    let mut rolling = RollingHash::new(window);
    let mut hash = rolling.hash_chunk(&data[0..window]);
    for k in 0..=(data.len() - window) {
        let mut direct = RollingHash::new(window);
        assert_eq!(hash, direct.hash_chunk(&data[k..k + window]));
        if k + window < data.len() {
            hash = rolling.roll(data[k], data[k + window]);
        }
    }
}

#[test]
fn sums_are_modular() {
    let mut rh = RollingHash::new(2);
    rh.hash_chunk(&[0xFF, 0xFF]);
    assert!(rh.sum_a() < 65521);
    assert!(rh.sum_b() < 65521);
    assert_eq!(rh.sum_a(), (0xFFu32 + 0xFF) % 65521);
}
