//! BLAKE2b with a fixed 24-byte (192-bit) digest.
//!
//! The headline API implements exactly one primitive: unkeyed, sequential
//! BLAKE2b parameterized with a digest length of 24 bytes (RFC 7693). The
//! digest length is part of BLAKE2b's parameterization (it is mixed into the
//! initial state), so this is not BLAKE2b-512 truncated to 24 bytes.
//!
//! The [`engine`] module exposes the same engine at digest lengths 1 to 64;
//! [`spec`] is the mathematical model both are proved against, and [`laws`]
//! states what holds across calls.
use vstd::prelude::*;

pub mod engine;
pub mod laws;
pub mod lemmas;
pub mod spec;
pub mod vectors;

use crate::engine::Blake2bCore;
use crate::spec::blake2b;

verus! {

/// Digest length in bytes (24 bytes = 192 bits).
pub const DIGEST_LEN: usize = 24;

/// Streaming BLAKE2b-192 hasher.
///
/// Feed input with [`update`](Self::update) in any number of chunks;
/// [`finalize`](Self::finalize) consumes the hasher and returns the digest.
/// The result is identical to [`hash`] of the concatenated input.
pub struct Blake2b192 {
    state: Blake2bCore,
}

impl View for Blake2b192 {
    type V = Seq<u8>;

    /// The message absorbed so far.
    closed spec fn view(&self) -> Seq<u8> {
        self.state.message()
    }
}

impl Blake2b192 {
    /// The engine inside runs at digest length 24.
    #[verifier::type_invariant]
    closed spec fn inv(self) -> bool {
        self.state.digest_len() == DIGEST_LEN
    }

    /// Creates a hasher for a new message.
    pub fn new() -> (r: Self)
        ensures
            r@ == Seq::<u8>::empty(),
    {
        Blake2b192 { state: Blake2bCore::init(DIGEST_LEN as u64) }
    }

    /// Absorbs more message bytes.
    pub fn update(&mut self, input: &[u8])
        ensures
            final(self)@ == old(self)@ + input@,
    {
        proof {
            use_type_invariant(&*self);
        }
        // Take the engine out (leaving a fresh one in its place), feed it,
        // and put it back.
        let mut engine = Blake2bCore::init(DIGEST_LEN as u64);
        std::mem::swap(&mut engine, &mut self.state);
        engine.update(input);
        std::mem::swap(&mut engine, &mut self.state);
    }

    /// Completes hashing and returns the 24-byte digest.
    pub fn finalize(self) -> (digest: [u8; DIGEST_LEN])
        ensures
            digest@ == blake2b(self@, DIGEST_LEN as nat),
    {
        proof {
            use_type_invariant(&self);
        }
        let out = self.state.finalize();
        let mut digest = [0u8; DIGEST_LEN];
        for i in 0..DIGEST_LEN
            invariant
                forall|j: int| 0 <= j < i ==> digest@[j] == out@[j],
        {
            digest[i] = out[i];
        }
        assert(digest@ =~= out@.take(DIGEST_LEN as int));
        digest
    }
}

impl Default for Blake2b192 {
    /// Same as [`Blake2b192::new`].
    fn default() -> (r: Self)
        ensures
            r@ == Seq::<u8>::empty(),
    {
        Self::new()
    }
}

/// Computes the BLAKE2b-192 digest of `input` in one call.
pub fn hash(input: &[u8]) -> (digest: [u8; DIGEST_LEN])
    ensures
        digest@ == blake2b(input@, DIGEST_LEN as nat),
{
    let mut hasher = Blake2b192::new();
    hasher.update(input);
    assert(Seq::<u8>::empty() + input@ =~= input@);
    hasher.finalize()
}

} // verus!
