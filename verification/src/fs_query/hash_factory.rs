//! The BLAKE3 hasher of `fs.hash` and the choice of its tier.
use crate::digests::{blake3_digest, blake3_hash, hex_of, hex_text};
use crate::fs_query::response::{Capabilities, HashTier};
use vstd::prelude::*;

verus! {

/// How many bytes of a file are read at a time.
pub const READ_BUF_SIZE: usize = 65_536;

/// A BLAKE3 digest.
#[derive(Debug, Clone, Copy)]
pub struct Blake3Digest {
    pub bytes: [u8; 32],
}

impl Blake3Digest {
    /// The digest in hexadecimal.
    pub fn to_hex(&self) -> (r: String)
        ensures
            r@ == hex_text(self.bytes@),
            r@.len() == 64,
    {
        let bytes: &[u8] = self.bytes.as_slice();
        hex_of(bytes)
    }
}

/// Hashes files and byte strings with BLAKE3. Files are read piece by piece, never
/// mapped into memory.
#[derive(Debug, Clone, Copy)]
pub struct Blake3Hasher;

impl Default for Blake3Hasher {
    fn default() -> (r: Blake3Hasher)
        ensures
            r == Blake3Hasher,
    {
        Blake3Hasher
    }
}

impl Blake3Hasher {
    /// Makes a hasher.
    pub fn new() -> (r: Blake3Hasher)
        ensures
            r == Blake3Hasher,
    {
        Blake3Hasher
    }

    /// The digest of a byte string.
    pub fn hash_bytes(&self, data: &[u8]) -> (r: Blake3Digest)
        ensures
            r.bytes@ == blake3_digest(data@),
    {
        Blake3Digest { bytes: blake3_hash(data) }
    }
}

/// The name of a hash tier.
pub open spec fn hash_tier_label(tier: HashTier) -> Seq<char> {
    match tier {
        HashTier::Blake3Avx512 => "blake3-avx512"@,
        HashTier::Blake3Avx2 => "blake3-avx2"@,
        HashTier::Blake3Neon => "blake3-neon"@,
        HashTier::Blake3Sse2 => "blake3-sse2"@,
        HashTier::Blake3Portable => "blake3-portable"@,
    }
}

/// Chooses the hasher for a platform. All tiers hash alike; the name is for
/// diagnosis.
#[derive(Debug)]
pub struct HashFactory {
    chosen: Option<&'static str>,
}

impl Default for HashFactory {
    fn default() -> (r: HashFactory)
        ensures
            r@ is None,
    {
        HashFactory { chosen: None }
    }
}

impl View for HashFactory {
    type V = Option<Seq<char>>;

    closed spec fn view(&self) -> Option<Seq<char>> {
        match self.chosen {
            Some(name) => Some(name@),
            None => None,
        }
    }
}

impl HashFactory {
    /// A factory that has chosen nothing.
    pub fn new() -> (r: HashFactory)
        ensures
            r@ is None,
    {
        HashFactory { chosen: None }
    }

    /// Makes a hasher. The tier of the first call stays the chosen one.
    pub fn build(&mut self, caps: &Capabilities) -> (r: Blake3Hasher)
        ensures
            r == Blake3Hasher,
            final(self)@ == (match old(self)@ {
                Some(name) => Some(name),
                None => Some(hash_tier_label(caps.hash_tier)),
            }),
            old(self)@ is None ==> match caps.hash_tier {
                HashTier::Blake3Avx512 => final(self)@ == Some("blake3-avx512"@),
                HashTier::Blake3Avx2 => final(self)@ == Some("blake3-avx2"@),
                HashTier::Blake3Neon => final(self)@ == Some("blake3-neon"@),
                HashTier::Blake3Sse2 => final(self)@ == Some("blake3-sse2"@),
                HashTier::Blake3Portable => final(self)@ == Some("blake3-portable"@),
            },
            old(self)@ is Some ==> final(self)@ == old(self)@,
    {
        let name: &'static str = match caps.hash_tier {
            HashTier::Blake3Avx512 => "blake3-avx512",
            HashTier::Blake3Avx2 => "blake3-avx2",
            HashTier::Blake3Neon => "blake3-neon",
            HashTier::Blake3Sse2 => "blake3-sse2",
            HashTier::Blake3Portable => "blake3-portable",
        };
        if self.chosen.is_none() {
            self.chosen = Some(name);
        }
        Blake3Hasher::new()
    }

    /// The tier that was chosen; the portable one where none was.
    pub fn chosen_tier(&self) -> (r: &'static str)
        ensures
            r@ == (match self@ {
                Some(name) => name,
                None => "blake3-portable"@,
            }),
    {
        match self.chosen {
            Some(name) => name,
            None => "blake3-portable",
        }
    }
}

} // verus!
