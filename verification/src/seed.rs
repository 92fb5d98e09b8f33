//! Seed derivation: a human-readable seed string expanded into a fixed-size
//! cryptographic hash, sliced into the widths the random stream needs.

use vstd::prelude::*;
use sha2::Digest;

verus! {

/// The SHA-256 digest of a string's UTF-8 bytes, as a function of the text
/// alone.
pub uninterp spec fn sha256_str(text: Seq<char>) -> Seq<u8>;

/// Relies on sha2's `Sha256::digest`: a 32-byte digest determined by the
/// input bytes alone.
#[verifier::external_body]
fn sha256_of_str(text: &str) -> (r: [u8; 32])
    ensures
        r@ == sha256_str(text@),
{
    sha2::Sha256::digest(text.as_bytes()).into()
}

/// The value of a big-endian 32-bit integer read from the first four bytes.
pub open spec fn spec_be_u32(bytes: Seq<u8>) -> int
    recommends
        bytes.len() >= 4,
{
    bytes[0] * 0x1000000 + bytes[1] * 0x10000 + bytes[2] * 0x100 + bytes[3]
}

/// Seed derivation is deterministic: two seeds hashed from the same text
/// carry the same hash, so they seed identical random streams. The rest of
/// reproducibility rests on the generator drawing from its stream in a
/// fixed call order.
pub proof fn lemma_seed_deterministic(a: Seed, b: Seed, text: Seq<char>)
    requires
        a.spec_hash() == sha256_str(text),
        b.spec_hash() == sha256_str(text),
    ensures
        a.spec_hash() == b.spec_hash(),
{
}

/// A raw seed string together with its derived fixed-width hash.
///
/// Constructed once per level and immutable afterwards.
#[derive(Debug)]
pub struct Seed {
    pub raw: String,
    hash: [u8; 32],
}

impl Seed {
    /// The derived hash, as a mathematical value.
    pub closed spec fn spec_hash(&self) -> Seq<u8> {
        self.hash@
    }

    /// The raw seed text, as a mathematical value.
    pub closed spec fn spec_raw(&self) -> Seq<char> {
        self.raw@
    }

    /// Hashes the raw text; the hash is a pure function of the text.
    pub fn new(raw_text: String) -> (r: Self)
        ensures
            r.spec_hash() == sha256_str(raw_text@),
            r.spec_hash().len() == 32,
            r.spec_raw() == raw_text@,
    {
        let hash = sha256_of_str(raw_text.as_str());
        Seed { raw: raw_text, hash }
    }

    /// Returns a 32-bit slice of this seed's hash, read big-endian from its
    /// first four bytes.
    pub fn to_32_bit(&self) -> (r: u32)
        ensures
            r == spec_be_u32(self.spec_hash()),
    {
        let b0 = self.hash[0] as u32;
        let b1 = self.hash[1] as u32;
        let b2 = self.hash[2] as u32;
        let b3 = self.hash[3] as u32;
        b0 * 0x1000000 + b1 * 0x10000 + b2 * 0x100 + b3
    }

    /// Returns the full 256-bit hash of this seed, the form `RandomStream`
    /// is seeded from.
    pub fn to_256_bit(&self) -> (r: [u8; 32])
        ensures
            r@ == self.spec_hash(),
    {
        self.hash
    }
}

} // verus!
