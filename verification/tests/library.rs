//! The library's own scenarios: each law on concrete values, the edge cases
//! of the engine and of the corpus grammar, and the RustCrypto fixtures.

use blake2b_192::engine::{counter_add, Blake2bCore};
use blake2b_192::spec::IV;
use blake2b_192::vectors::{build_message, fixture_line, SplitMix64};
use blake2b_192::{hash, Blake2b192, DIGEST_LEN};

fn hex(bytes: &[u8]) -> String {
    bytes.iter().map(|b| format!("{b:02x}")).collect()
}

#[test]
fn digest_len_is_24() {
    assert_eq!(DIGEST_LEN, 24);
    assert_eq!(hash(b"").len(), 24);
}

/// Streaming equals one-shot for a three-way chunking across two blocks.
#[test]
fn law_streaming_three_chunks() {
    let msg: Vec<u8> = (0..700).map(|i| (i * 13 + 5) as u8).collect();
    let mut hasher = Blake2b192::new();
    hasher.update(&msg[..1]);
    hasher.update(&msg[1..256]);
    hasher.update(&msg[256..]);
    assert_eq!(hasher.finalize(), hash(&msg));
}

/// The engine's digest of length `nn` is the first `nn` bytes of its state.
#[test]
fn law_digest_is_prefix_at_other_lengths() {
    let mut one = Blake2bCore::new(1).unwrap();
    one.update(b"");
    assert_eq!(hex(&one.finalize()[..1]), "2e");
    let mut core = Blake2bCore::new(32).unwrap();
    core.update(b"abc");
    assert_eq!(
        hex(&core.finalize()[..32]),
        "bddd813c634239723171ef3fee98579b94964e3bb1cb3e427262c8c068d52319"
    );
}

/// The initial state at 64 bytes folds 0x0101_0040 into the first IV word.
#[test]
fn law_initial_state_at_64() {
    let core = Blake2bCore::new(64).unwrap();
    let h = core.chaining_value();
    assert_eq!(h[0], IV[0] ^ 0x0101_0040);
    assert_eq!(h[1..], IV[1..]);
    assert_eq!(core.counter(), (0, 0));
}

/// The counter counts compressed bytes: a full buffered block is only
/// compressed once more input arrives.
#[test]
fn counter_counts_compressed_blocks() {
    let mut core = Blake2bCore::new(24).unwrap();
    core.update(&[7u8; 128]);
    assert_eq!(core.counter(), (0, 0));
    core.update(&[7u8; 1]);
    assert_eq!(core.counter(), (128, 0));
    core.update(&[7u8; 300]);
    assert_eq!(core.counter(), (384, 0));
}

/// Counter arithmetic modulo 2^128.
#[test]
fn law_counter_wraps() {
    assert_eq!(counter_add(5, 0, 0), (5, 0));
    assert_eq!(counter_add(u64::MAX, 3, 2), (1, 4));
    assert_eq!(counter_add(0, u64::MAX, usize::MAX), (usize::MAX as u64, u64::MAX));
}

/// The digest depends on the digest length, not just on truncation.
#[test]
fn lengths_give_unrelated_digests() {
    let mut a = Blake2bCore::new(24).unwrap();
    a.update(b"abc");
    let mut b = Blake2bCore::new(25).unwrap();
    b.update(b"abc");
    assert_ne!(a.finalize()[..24], b.finalize()[..24]);
}

#[test]
fn splitmix_known_outputs() {
    let mut rng = SplitMix64::new(0);
    assert_eq!(rng.next_u64(), 0xe220_a839_7b1d_cdaf);
    assert_eq!(rng.next_u64(), 0x6e78_9e6a_a1b9_65f4);
}

#[test]
fn build_message_kinds() {
    assert_eq!(build_message("kat:3"), Some(vec![0, 1, 2]));
    assert_eq!(build_message("kat:0"), Some(vec![]));
    assert_eq!(build_message("kat:258").unwrap()[256..], [0, 1]);
    assert_eq!(build_message("zero:2"), Some(vec![0, 0]));
    assert_eq!(build_message("ff:3"), Some(vec![0xff; 3]));
    assert_eq!(build_message("rep:a5ff:5"), Some(vec![0xa5, 0xff, 0xa5, 0xff, 0xa5]));
    assert_eq!(build_message("rep:A5:2"), Some(vec![0xa5, 0xa5]));
    assert_eq!(build_message("rep::4"), Some(vec![]));
    assert_eq!(build_message("rep:+f:2"), Some(vec![0x0f, 0x0f]));
    assert_eq!(
        hex(&build_message("rng:5:10").unwrap()),
        "5ac389a30c3b0363f836"
    );
    assert_eq!(build_message("kat:+2"), Some(vec![0, 1]));
}

#[test]
fn build_message_rejects_malformed_specs() {
    assert_eq!(build_message(""), None);
    assert_eq!(build_message("kat"), None);
    assert_eq!(build_message("kat:"), None);
    assert_eq!(build_message("kat:+"), None);
    assert_eq!(build_message("kat:-1"), None);
    assert_eq!(build_message("kat:1x"), None);
    assert_eq!(build_message("kat:3:"), None);
    assert_eq!(build_message("kat:99999999999999999999999"), None);
    assert_eq!(build_message("zero:1:2"), None);
    assert_eq!(build_message("one:1"), None);
    assert_eq!(build_message("rep:abc:4"), None);
    assert_eq!(build_message("rep:zz:4"), None);
    assert_eq!(build_message("rep:ab:4:1"), None);
    assert_eq!(build_message("rep:ab"), None);
    assert_eq!(build_message("rng:x:4"), None);
    assert_eq!(build_message("rng:1:4:"), None);
    assert_eq!(build_message("rng:18446744073709551616:4"), None);
    assert_eq!(build_message("Kat:1"), None);
}

/// The fixture line carries RustCrypto's digest of the message, not the
/// message itself.
#[test]
fn fixture_line_digest() {
    let line = fixture_line("kat:3 ignored").unwrap();
    assert_eq!(
        String::from_utf8(line).unwrap(),
        "kat:3 369857c269fb76833b9d8988c5ab554775be0c7022ab179f"
    );
    let line = fixture_line("kat:0 x").unwrap();
    assert_eq!(
        String::from_utf8(line).unwrap(),
        format!("kat:0 {}", hex(&hash(b"")))
    );
}

#[test]
fn fixture_line_rejects_malformed_lines() {
    assert_eq!(fixture_line("kat:3"), None);
    assert_eq!(fixture_line("bad:3 abc"), None);
    assert_eq!(fixture_line(""), None);
}

/// An empty update leaves the whole engine state as it was.
#[test]
fn law_empty_update_keeps_state() {
    let mut core = Blake2bCore::new(24).unwrap();
    core.update(&[9u8; 200]);
    let (h, t) = (core.chaining_value(), core.counter());
    core.update(&[]);
    assert_eq!(core.chaining_value(), h);
    assert_eq!(core.counter(), t);
}

/// Two updates reach the state that one update on their concatenation
/// reaches.
#[test]
fn law_two_updates_equal_one() {
    let msg: Vec<u8> = (0..400).map(|i| (i * 3) as u8).collect();
    let mut one = Blake2bCore::new(48).unwrap();
    one.update(&msg[..150]);
    one.update(&msg[150..]);
    let mut two = Blake2bCore::new(48).unwrap();
    two.update(&msg);
    assert_eq!(one.chaining_value(), two.chaining_value());
    assert_eq!(one.counter(), (384, 0));
    assert_eq!(two.counter(), (384, 0));
    assert_eq!(one.finalize(), two.finalize());
}

/// Generators in different states give different outputs.
#[test]
fn law_splitmix_distinct_states() {
    let mut a = SplitMix64::new(1);
    let mut b = SplitMix64::new(2);
    assert_ne!(a.next_u64(), b.next_u64());
    let mut c = SplitMix64::new(0);
    let first = c.next_u64();
    let second = c.next_u64();
    assert_ne!(first, second);
}
