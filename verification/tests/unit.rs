//! The headline API and the engine's internals: initial state, anchor
//! digests, two-chunk streaming, the byte counter, `Default`, empty updates.

use blake2b_192::engine::{counter_add, Blake2bCore};
use blake2b_192::spec::IV;
use blake2b_192::{hash, Blake2b192};

fn hex(bytes: &[u8]) -> String {
    bytes.iter().map(|b| format!("{b:02x}")).collect()
}

/// h[0] after initialization must be IV[0] ^ 0x0101_0018 for
/// digest_length = 24, key_length = 0, fanout = 1, depth = 1.
#[test]
fn init_parameter_word() {
    let state = Blake2bCore::new(24).unwrap();
    let h = state.chaining_value();
    assert_eq!(h[0], 0x6a09_e667_f2bd_c910);
    assert_eq!(h[0], IV[0] ^ 0x0101_0018);
    assert_eq!(h[1..], IV[1..]);
}

/// Anchor digests (libsodium and CPython hashlib agree on them).
#[test]
fn anchors_24() {
    assert_eq!(
        hex(&hash(b"")),
        "ab3b5331a7135ed50d0f182d026e60abdb3646fd51bcf8a3"
    );
    assert_eq!(
        hex(&hash(b"abc")),
        "56a17e38cc371a46b12c32f18e0c61de2a84e9c2555b114e"
    );
    assert_eq!(
        hex(&hash(&[0u8; 128])),
        "9ff4abe3fc3c8006f8a2922a9ded93c51fcf063f0eccf365"
    );
    let inc: Vec<u8> = (0..129).map(|i| i as u8).collect();
    assert_eq!(
        hex(&hash(&inc)),
        "921c466b582e135fab21c8e052fe3715d9113bcd864276ba"
    );
}

/// The streaming API over every split of a short message equals the one-shot
/// digest (exhaustive two-chunk splits across the first block boundary).
#[test]
fn streaming_two_chunk_splits() {
    let msg: Vec<u8> = (0..300).map(|i| (i * 7) as u8).collect();
    let expected = hash(&msg);
    for split in 0..=msg.len() {
        let mut hasher = Blake2b192::new();
        hasher.update(&msg[..split]);
        hasher.update(&msg[split..]);
        assert_eq!(hasher.finalize(), expected, "split at {split}");
    }
}

/// The low→high carry of the 128-bit byte counter, driven directly (the
/// carry needs 2^64 bytes of input through the public API).
#[test]
fn counter_carry() {
    let state = Blake2bCore::new(24).unwrap();
    let (t_lo, t_hi) = state.counter();

    // No carry below 2^64.
    assert_eq!(counter_add(t_lo, t_hi, 128), (128, 0));

    // Exactly reaching 2^64 wraps the low word to zero and carries once.
    assert_eq!(counter_add(u64::MAX, 0, 1), (0, 1));

    // Crossing 2^64 keeps the remainder in the low word.
    assert_eq!(counter_add(u64::MAX - 2, 7, 10), (7, 8));

    // The boundary case just below the wrap must not carry.
    assert_eq!(counter_add(u64::MAX - 128, 0, 128), (u64::MAX, 0));

    // The high word wraps rather than panicking (unreachable: 2^128 bytes).
    assert_eq!(counter_add(u64::MAX, u64::MAX, 1), (0, 0));
}

/// `Default` must construct the same hasher as `new`.
#[test]
fn default_matches_new() {
    let mut hasher = Blake2b192::default();
    hasher.update(b"abc");
    assert_eq!(hasher.finalize(), hash(b"abc"));
}

/// Empty updates are no-ops anywhere in the stream.
#[test]
fn empty_updates_are_noops() {
    let mut hasher = Blake2b192::new();
    hasher.update(b"");
    hasher.update(b"ab");
    hasher.update(b"");
    hasher.update(b"c");
    hasher.update(b"");
    assert_eq!(hasher.finalize(), hash(b"abc"));
}
