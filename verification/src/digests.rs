//! BLAKE3 and SHA-256 digests, and their hexadecimal form.
use sha2::Digest;
use vstd::prelude::*;

verus! {

/// Names the BLAKE3 digest of a byte string.
pub uninterp spec fn blake3_digest(bytes: Seq<u8>) -> Seq<u8>;

/// Names the SHA-256 digest of a byte string.
pub uninterp spec fn sha256_digest(bytes: Seq<u8>) -> Seq<u8>;

/// `blake3::Hasher`: the bytes that were fed to it so far.
#[verifier::external_type_specification]
#[verifier::external_body]
pub struct ExBlake3Hasher(blake3::Hasher);

/// Names the bytes that a hasher holds.
pub uninterp spec fn blake3_input(hasher: blake3::Hasher) -> Seq<u8>;

/// `sha2::Sha256`: the bytes that were fed to it so far.
#[verifier::external_body]
pub struct Sha256Stream {
    inner: sha2::Sha256,
}

/// Names the bytes that a hasher holds.
pub uninterp spec fn sha256_input(hasher: Sha256Stream) -> Seq<u8>;

/// `blake3::hash`: the digest has 32 bytes and is a function of the input.
#[verifier::external_body]
pub(crate) fn blake3_hash(bytes: &[u8]) -> (r: [u8; 32])
    ensures
        r@ == blake3_digest(bytes@),
{
    *blake3::hash(bytes).as_bytes()
}

/// `blake3::Hasher::new`: the hasher holds no bytes.
#[verifier::external_body]
fn blake3_new() -> (r: blake3::Hasher)
    ensures
        blake3_input(r) == Seq::<u8>::empty(),
{
    blake3::Hasher::new()
}

/// `blake3::Hasher::update`: the bytes are appended to those that the hasher holds.
#[verifier::external_body]
fn blake3_update(hasher: &mut blake3::Hasher, bytes: &[u8])
    ensures
        blake3_input(*final(hasher)) == blake3_input(*old(hasher)) + bytes@,
{
    hasher.update(bytes);
}

/// `blake3::Hasher::finalize`: the digest of the bytes that the hasher holds, the
/// same that `blake3::hash` gives for them at once.
#[verifier::external_body]
fn blake3_finalize(hasher: &blake3::Hasher) -> (r: [u8; 32])
    ensures
        r@ == blake3_digest(blake3_input(*hasher)),
{
    *hasher.finalize().as_bytes()
}

/// `sha2::Sha256::new`: the hasher holds no bytes.
#[verifier::external_body]
fn sha256_new() -> (r: Sha256Stream)
    ensures
        sha256_input(r) == Seq::<u8>::empty(),
{
    Sha256Stream { inner: sha2::Sha256::new() }
}

/// `sha2::Digest::update`: the bytes are appended to those that the hasher holds.
#[verifier::external_body]
fn sha256_update(hasher: &mut Sha256Stream, bytes: &[u8])
    ensures
        sha256_input(*final(hasher)) == sha256_input(*old(hasher)) + bytes@,
{
    hasher.inner.update(bytes);
}

/// `sha2::Digest::finalize`: the digest has 32 bytes and is a function of the bytes
/// that the hasher holds.
#[verifier::external_body]
fn sha256_finalize(hasher: Sha256Stream) -> (r: [u8; 32])
    ensures
        r@ == sha256_digest(sha256_input(hasher)),
{
    hasher.inner.finalize().into()
}

/// The hexadecimal digit of `d`, in lower case.
pub open spec fn hex_digit(d: int) -> char
    recommends
        0 <= d < 16,
{
    if d < 10 {
        (d + 48) as char
    } else {
        (d + 87) as char
    }
}

/// The hexadecimal form of a byte string: two digits for each byte, in lower case.
pub open spec fn hex_text(bytes: Seq<u8>) -> Seq<char> {
    Seq::new(
        2 * bytes.len(),
        |i: int|
            if i % 2 == 0 {
                hex_digit(bytes[i / 2] as int / 16)
            } else {
                hex_digit(bytes[i / 2] as int % 16)
            },
    )
}

/// A byte string is written with two digits for each byte, the higher one first, in lower case.
pub proof fn hex_digits_stand_for_bytes(bytes: Seq<u8>)
    ensures
        hex_text(bytes).len() == 2 * bytes.len(),
        forall|i: int|
            0 <= i < bytes.len() ==> hex_text(bytes)[2 * i] == "0123456789abcdef"@[(
            #[trigger] bytes[i]) as int / 16] && hex_text(bytes)[2 * i + 1]
                == "0123456789abcdef"@[bytes[i] as int % 16],
{
    assert forall|i: int| 0 <= i < bytes.len() implies hex_text(bytes)[2 * i]
        == "0123456789abcdef"@[(#[trigger] bytes[i]) as int / 16] && hex_text(bytes)[2 * i + 1]
        == "0123456789abcdef"@[bytes[i] as int % 16] by {
        lemma_hex_digit(bytes[i] as int / 16);
        lemma_hex_digit(bytes[i] as int % 16);
        assert((2 * i) / 2 == i && (2 * i) % 2 == 0);
        assert((2 * i + 1) / 2 == i && (2 * i + 1) % 2 == 1);
    }
}

proof fn lemma_hex_digit(d: int)
    requires
        0 <= d < 16,
    ensures
        hex_digit(d) == "0123456789abcdef"@[d],
{
    reveal_strlit("0123456789abcdef");
    assert(d == 0 || d == 1 || d == 2 || d == 3 || d == 4 || d == 5 || d == 6 || d == 7 || d == 8
        || d == 9 || d == 10 || d == 11 || d == 12 || d == 13 || d == 14 || d == 15);
}

/// The hexadecimal digit of `d`, in lower case.
fn hex_char(d: u8) -> (c: char)
    requires
        d < 16,
    ensures
        c == hex_digit(d as int),
{
    if d < 10 {
        (48u8 + d) as char
    } else {
        (87u8 + d) as char
    }
}

/// Prints a byte string in hexadecimal.
pub fn hex_of(bytes: &[u8]) -> (s: String)
    ensures
        s@ == hex_text(bytes@),
        s@.len() == 2 * bytes@.len(),
        forall|i: int|
            0 <= i < bytes@.len() ==> s@[2 * i] == "0123456789abcdef"@[(#[trigger] bytes@[i]) as int
                / 16] && s@[2 * i + 1] == "0123456789abcdef"@[bytes@[i] as int % 16],
{
    proof {
        hex_digits_stand_for_bytes(bytes@);
    }
    let mut s = String::new();
    let mut i: usize = 0;
    while i < bytes.len()
        invariant
            i <= bytes@.len(),
            s@ == hex_text(bytes@.take(i as int)),
        decreases bytes@.len() - i,
    {
        s.push(hex_char(bytes[i] / 16));
        s.push(hex_char(bytes[i] % 16));
        i = i + 1;
        assert(s@ =~= hex_text(bytes@.take(i as int)));
    }
    assert(bytes@.take(i as int) =~= bytes@);
    s
}

/// A digest under way: the bytes of a file are fed to it piece by piece.
pub struct Blake3Stream {
    hasher: blake3::Hasher,
}

impl View for Blake3Stream {
    type V = Seq<u8>;

    closed spec fn view(&self) -> Seq<u8> {
        blake3_input(self.hasher)
    }
}

impl Blake3Stream {
    /// A digest of nothing so far.
    pub fn new() -> (r: Blake3Stream)
        ensures
            r@ == Seq::<u8>::empty(),
    {
        Blake3Stream { hasher: blake3_new() }
    }

    /// Takes the next bytes.
    pub fn absorb(&mut self, bytes: &[u8])
        ensures
            final(self)@ == old(self)@ + bytes@,
    {
        blake3_update(&mut self.hasher, bytes);
    }

    /// The digest of all bytes that were taken.
    pub fn digest(&self) -> (r: [u8; 32])
        ensures
            r@ == blake3_digest(self@),
    {
        blake3_finalize(&self.hasher)
    }
}

/// A SHA-256 digest under way.
pub struct Sha256Digest {
    hasher: Sha256Stream,
}

impl View for Sha256Digest {
    type V = Seq<u8>;

    closed spec fn view(&self) -> Seq<u8> {
        sha256_input(self.hasher)
    }
}

impl Sha256Digest {
    /// A digest of nothing so far.
    pub fn new() -> (r: Sha256Digest)
        ensures
            r@ == Seq::<u8>::empty(),
    {
        Sha256Digest { hasher: sha256_new() }
    }

    /// Takes the next bytes.
    pub fn absorb(&mut self, bytes: &[u8])
        ensures
            final(self)@ == old(self)@ + bytes@,
    {
        sha256_update(&mut self.hasher, bytes);
    }

    /// The digest of all bytes that were taken.
    pub fn digest(self) -> (r: [u8; 32])
        ensures
            r@ == sha256_digest(self@),
    {
        sha256_finalize(self.hasher)
    }
}

} // verus!
