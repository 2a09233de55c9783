//! Content fingerprints: BLAKE3 over a stream of bytes, as lowercase hex.

use vstd::prelude::*;

verus! {

/// The number of characters in a fingerprint.
pub const FINGERPRINT_LEN: usize = 64;

/// `blake3::Hasher`, the incremental hash state of the `blake3` crate.
/// Nothing inside it is visible to the proofs.
#[verifier::external_type_specification]
#[verifier::external_body]
pub struct ExHasher(blake3::Hasher);

/// The bytes that a hasher has been fed since it was made, in order.
pub uninterp spec fn hasher_input(hasher: blake3::Hasher) -> Seq<u8>;

/// The input offset that a hasher was set to; zero unless the crate's
/// `hazmat` extension moved it.
pub uninterp spec fn hasher_offset(hasher: blake3::Hasher) -> u64;

/// The BLAKE3 hash of `input`, written as lowercase hexadecimal.
pub uninterp spec fn blake3_hex(input: Seq<u8>) -> Seq<char>;

/// Calls `blake3::Hasher::new`: a hasher for the regular hash function that
/// has been fed nothing yet and starts at offset zero.
#[verifier::external_body]
fn hasher_new() -> (hasher: blake3::Hasher)
    ensures
        hasher_input(hasher) == Seq::<u8>::empty(),
        hasher_offset(hasher) == 0,
{
    blake3::Hasher::new()
}

/// Calls `blake3::Hasher::update`: the chunk is added behind the bytes fed
/// so far, and the offset stays. A hasher at offset zero takes a chunk of
/// any length and does not panic on it.
#[verifier::external_body]
fn hasher_update(hasher: &mut blake3::Hasher, chunk: &[u8])
    requires
        hasher_offset(*old(hasher)) == 0,
    ensures
        hasher_input(*final(hasher)) == hasher_input(*old(hasher)) + chunk@,
        hasher_offset(*final(hasher)) == 0,
    no_unwind
{
    hasher.update(chunk);
}

/// Calls `blake3::Hasher::finalize` and `blake3::Hash::to_hex`: the hash of
/// all the bytes fed so far, as the 64 lowercase hexadecimal digits of its
/// 32 bytes. The hasher is left as it was. `finalize` panics on a hasher
/// whose offset is not zero.
#[verifier::external_body]
fn hasher_finalize_hex(hasher: &blake3::Hasher) -> (hex: String)
    requires
        hasher_offset(*hasher) == 0,
    ensures
        hex@ == blake3_hex(hasher_input(*hasher)),
        hex@.len() == FINGERPRINT_LEN,
{
    hasher.finalize().to_hex().to_string()
}

/// An incremental fingerprint of a byte stream. Its view is the bytes
/// absorbed so far.
pub struct Digest {
    hasher: blake3::Hasher,
}

impl View for Digest {
    type V = Seq<u8>;

    closed spec fn view(&self) -> Seq<u8> {
        hasher_input(self.hasher)
    }
}

impl Digest {
    #[verifier::type_invariant]
    spec fn starts_at_zero(self) -> bool {
        hasher_offset(self.hasher) == 0
    }

    /// A digest that has absorbed nothing.
    pub fn new() -> (digest: Digest)
        ensures
            digest@ == Seq::<u8>::empty(),
    {
        Digest { hasher: hasher_new() }
    }

    /// Absorbs one more chunk of the stream.
    pub fn update(&mut self, chunk: &[u8])
        ensures
            final(self)@ == old(self)@ + chunk@,
    {
        proof {
            use_type_invariant(&*self);
        }
        hasher_update(&mut self.hasher, chunk);
    }

    /// The fingerprint of everything absorbed so far. The digest can go on
    /// absorbing afterwards.
    pub fn finalize(&self) -> (fingerprint: String)
        ensures
            fingerprint@ == blake3_hex(self@),
            fingerprint@.len() == FINGERPRINT_LEN,
    {
        proof {
            use_type_invariant(self);
        }
        hasher_finalize_hex(&self.hasher)
    }
}

/// The fingerprint of `content`: its BLAKE3 hash in lowercase hexadecimal.
pub fn blake3_checksum(content: &[u8]) -> (sum: String)
    ensures
        sum@ == blake3_hex(content@),
        sum@.len() == FINGERPRINT_LEN,
{
    let mut digest = Digest::new();
    digest.update(content);
    proof {
        assert(Seq::<u8>::empty() + content@ =~= content@);
    }
    digest.finalize()
}

} // verus!
