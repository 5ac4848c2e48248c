//! Opaque token types shared by server and client: identities, session ids
//! and message ids, all content-addressed through a deterministic 64-bit
//! fold over bytes.

use vstd::prelude::*;

verus! {

/// Content-addressed token derived from a user-supplied identity string.
#[derive(Clone, Copy, PartialEq, Eq, Structural, Debug, Hash)]
pub struct Identity(pub u64);

/// Random token naming one client's presence in a room.
#[derive(Clone, Copy, PartialEq, Eq, Structural, Debug, Hash)]
pub struct SessionId(pub u64);

/// Content-addressed token derived from a message's fields.
#[derive(Clone, Copy, PartialEq, Eq, Structural, Debug, Hash)]
pub struct MessageId(pub u64);

/// Offset basis of the 64-bit fold.
pub const FOLD_BASIS: u64 = 0xcbf29ce484222325;

/// Multiplier of the 64-bit fold.
pub const FOLD_PRIME: u64 = 0x100000001b3;

/// One step of the fold: xor the byte in, multiply by the prime (mod 2^64).
pub open spec fn fold_step(h: u64, b: u8) -> u64 {
    vstd::wrapping::u64_specs::wrapping_mul(h ^ (b as u64), FOLD_PRIME)
}

/// The 64-bit fold over a whole byte sequence, left to right.
pub open spec fn fold_bytes_from(h: u64, s: Seq<u8>) -> u64
    decreases s.len(),
{
    if s.len() == 0 {
        h
    } else {
        fold_bytes_from(fold_step(h, s[0]), s.skip(1))
    }
}

/// Digest of a byte sequence: the fold started at the basis.
pub open spec fn digest_of(s: Seq<u8>) -> u64 {
    fold_bytes_from(FOLD_BASIS, s)
}

/// Computes the digest of a byte slice; the executable counterpart of
/// `digest_of`.
pub fn digest(bytes: &[u8]) -> (r: u64)
    ensures
        r == digest_of(bytes@),
{
    let mut h: u64 = FOLD_BASIS;
    let mut i: usize = 0;
    proof {
        assert(bytes@.skip(0) =~= bytes@);
    }
    while i < bytes.len()
        invariant
            i <= bytes@.len(),
            fold_bytes_from(h, bytes@.skip(i as int)) == digest_of(bytes@),
        decreases bytes@.len() - i,
    {
        proof {
            assert(bytes@.skip(i as int)[0] == bytes@[i as int]);
            assert(bytes@.skip(i as int).skip(1) =~= bytes@.skip(i as int + 1));
        }
        h = (h ^ (bytes[i] as u64)).wrapping_mul(FOLD_PRIME);
        i = i + 1;
    }
    proof {
        assert(bytes@.skip(i as int) =~= Seq::<u8>::empty());
    }
    h
}

/// One fold step over a whole 64-bit word, for tokens seeded by a number.
pub open spec fn word_digest(w: u64) -> u64 {
    vstd::wrapping::u64_specs::wrapping_mul(FOLD_BASIS ^ w, FOLD_PRIME)
}

/// Executable counterpart of `word_digest`.
pub fn digest_u64(w: u64) -> (r: u64)
    ensures
        r == word_digest(w),
{
    (FOLD_BASIS ^ w).wrapping_mul(FOLD_PRIME)
}

impl Identity {
    /// Derives the identity token from an identity string's bytes.
    pub fn of(bytes: &[u8]) -> (r: Identity)
        ensures
            r == (Identity { 0: digest_of(bytes@) }),
    {
        Identity(digest(bytes))
    }
}

impl SessionId {
    /// Derives a session id token from seed bytes.
    pub fn of(bytes: &[u8]) -> (r: SessionId)
        ensures
            r == (SessionId { 0: digest_of(bytes@) }),
    {
        SessionId(digest(bytes))
    }

    /// Derives a session id token from a random seed number.
    pub fn of_u64(seed: u64) -> (r: SessionId)
        ensures
            r == (SessionId { 0: word_digest(seed) }),
    {
        SessionId(digest_u64(seed))
    }
}

impl MessageId {
    /// Derives a message id token from seed bytes.
    pub fn of(bytes: &[u8]) -> (r: MessageId)
        ensures
            r == (MessageId { 0: digest_of(bytes@) }),
    {
        MessageId(digest(bytes))
    }

    /// Derives a message id token from a random seed number; a fresh room's
    /// history starts at such a seed.
    pub fn of_u64(seed: u64) -> (r: MessageId)
        ensures
            r == (MessageId { 0: word_digest(seed) }),
    {
        MessageId(digest_u64(seed))
    }
}

} // verus!
