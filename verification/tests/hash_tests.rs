use patchly::hash::{calculate_hash, HashBuilder};

#[test]
fn test_calculate_hash() {
    let data = b"hello world";
    let hash = calculate_hash(data);

    // Same data should produce same hash
    assert_eq!(hash, calculate_hash(data));

    // Different data should produce different hash
    assert_ne!(hash, calculate_hash(b"hello world!"));
}

#[test]
fn test_hash_builder() {
    let data = b"hello world";

    // Full hash
    let full_hash = calculate_hash(data);

    // Incremental hash
    let mut builder = HashBuilder::new();
    builder.update(b"hello");
    builder.update(b" ");
    builder.update(b"world");
    let incremental_hash = builder.finalize();

    assert_eq!(full_hash, incremental_hash);
}

#[test]
fn fnv1a_known_value_of_empty_input() {
    // FNV-1a of the empty input is the offset basis.
    assert_eq!(calculate_hash(b""), 0xcbf29ce484222325);
}

#[test]
fn fnv1a_known_value_of_one_byte() {
    // One step: (basis xor byte) * prime, wrapping at 64 bits.
    let expected = (0xcbf29ce484222325u64 ^ 0x61).wrapping_mul(0x100000001b3);
    assert_eq!(calculate_hash(b"a"), expected);
}

#[test]
fn hash_builder_every_partition_agrees() {
    // Content-hash associativity: any chunking gives the one-shot digest.
    let data: Vec<u8> = (0u8..=255).collect();
    let whole = calculate_hash(&data);
    for split1 in [0usize, 1, 7, 128, 255, 256] {
        for split2 in [split1, 200, 256] {
            if split2 < split1 {
                continue;
            }
            let mut builder = HashBuilder::new();
            builder.update(&data[0..split1]);
            builder.update(&data[split1..split2]);
            builder.update(&data[split2..]);
            assert_eq!(builder.finalize(), whole);
        }
    }
}
