//! `fs.hash`: the digest of a file.
use crate::digests::{
    blake3_digest, hex_of, hex_text, sha256_digest, Blake3Stream, Sha256Digest,
};
use crate::errors::{ErrorView, SubstrateError};
use crate::fs_query::hint_helpers::{build_hints, read_hints};
use crate::fs_query::response::{Capabilities, HintsView, ToolResponse};
use crate::text;
use vstd::prelude::*;

verus! {

/// The digests that are offered.
#[derive(Debug, Clone, Copy, PartialEq, Eq, Structural)]
pub enum HashAlgorithm {
    Blake3,
    Sha256,
}

impl Default for HashAlgorithm {
    fn default() -> (r: HashAlgorithm)
        ensures
            r == HashAlgorithm::Blake3,
    {
        HashAlgorithm::Blake3
    }
}

impl HashAlgorithm {
    /// The algorithm's name.
    pub open spec fn label(self) -> Seq<char> {
        match self {
            HashAlgorithm::Blake3 => "blake3"@,
            HashAlgorithm::Sha256 => "sha256"@,
        }
    }

    /// The algorithm's name, in lower case.
    pub fn name(&self) -> (r: &'static str)
        ensures
            r@ == self.label(),
            self is Blake3 ==> r@ == "blake3"@,
            self is Sha256 ==> r@ == "sha256"@,
    {
        match self {
            HashAlgorithm::Blake3 => "blake3",
            HashAlgorithm::Sha256 => "sha256",
        }
    }

    /// The digest of a byte string under this algorithm.
    pub open spec fn digest_of(self, bytes: Seq<u8>) -> Seq<u8> {
        match self {
            HashAlgorithm::Blake3 => blake3_digest(bytes),
            HashAlgorithm::Sha256 => sha256_digest(bytes),
        }
    }
}

/// A request of `fs.hash`.
#[derive(Debug)]
pub struct FsHashRequest {
    /// The file to hash.
    pub path: String,
    pub algorithm: HashAlgorithm,
}

enum Stream {
    Blake3(Blake3Stream),
    Sha256(Sha256Digest),
}

/// The digest of a file while the file is read, piece by piece.
pub struct FileDigest {
    stream: Stream,
    size: u64,
}

impl FileDigest {
    /// The bytes that were read so far.
    pub closed spec fn content(&self) -> Seq<u8> {
        match self.stream {
            Stream::Blake3(s) => s@,
            Stream::Sha256(s) => s@,
        }
    }

    /// The digest that is computed.
    pub closed spec fn algorithm(&self) -> HashAlgorithm {
        match self.stream {
            Stream::Blake3(_) => HashAlgorithm::Blake3,
            Stream::Sha256(_) => HashAlgorithm::Sha256,
        }
    }

    /// The bytes are counted.
    pub closed spec fn wf(&self) -> bool {
        self.size == self.content().len()
    }

    /// Starts a digest.
    pub fn new(algorithm: HashAlgorithm) -> (r: FileDigest)
        ensures
            r.wf(),
            r.algorithm() == algorithm,
            r.content() == Seq::<u8>::empty(),
    {
        match algorithm {
            HashAlgorithm::Blake3 => FileDigest {
                stream: Stream::Blake3(Blake3Stream::new()),
                size: 0,
            },
            HashAlgorithm::Sha256 => FileDigest {
                stream: Stream::Sha256(Sha256Digest::new()),
                size: 0,
            },
        }
    }

    /// Takes the next piece of the file.
    pub fn absorb(&mut self, piece: &[u8])
        requires
            old(self).wf(),
            old(self).content().len() + piece@.len() <= u64::MAX,
        ensures
            final(self).wf(),
            final(self).algorithm() == old(self).algorithm(),
            final(self).content() == old(self).content() + piece@,
    {
        match &mut self.stream {
            Stream::Blake3(s) => s.absorb(piece),
            Stream::Sha256(s) => s.absorb(piece),
        }
        self.size = self.size + piece.len() as u64;
    }

    /// The algorithm of the digest.
    pub fn kind(&self) -> (r: HashAlgorithm)
        ensures
            r == self.algorithm(),
    {
        match &self.stream {
            Stream::Blake3(_) => HashAlgorithm::Blake3,
            Stream::Sha256(_) => HashAlgorithm::Sha256,
        }
    }

    /// The digest in hexadecimal, and how many bytes it is of.
    pub fn finish(self) -> (r: (String, u64))
        requires
            self.wf(),
        ensures
            r.0@ == hex_text(self.algorithm().digest_of(self.content())),
            self.algorithm() is Blake3 ==> r.0@ == hex_text(blake3_digest(self.content())),
            self.algorithm() is Sha256 ==> r.0@ == hex_text(sha256_digest(self.content())),
            r.0@.len() == 64,
            r.1 == self.content().len(),
    {
        let digest: [u8; 32] = match self.stream {
            Stream::Blake3(s) => s.digest(),
            Stream::Sha256(s) => s.digest(),
        };
        let bytes: &[u8] = digest.as_slice();
        (hex_of(bytes), self.size)
    }
}

/// The payload of an answer of `fs.hash`.
#[derive(Debug)]
pub struct HashContent {
    pub path: String,
    pub algorithm: &'static str,
    pub digest: String,
    pub size_bytes: u64,
}

/// The text that goes with a digest.
pub open spec fn hash_summary(req: FsHashRequest) -> Seq<char> {
    "USE: verify file integrity\nDOES: "@ + req.algorithm.label() + (" digest of '"@ + req.path@
        + "'\nNEXT: fs.stat, fs.read\nAVOID: bulk tree hashing → hash individual files"@)
}

/// The hints that go with a digest.
pub open spec fn hash_hints(caps: Capabilities) -> HintsView {
    read_hints(
        Some("fs.stat"@),
        Some("fs.read"@),
        Some("Use fs.hash per-file; avoid hashing directory trees inline"@),
        caps,
        false,
    )
}

/// What a digest of another algorithm than the one asked for is answered with.
pub open spec fn wrong_algorithm() -> ErrorView {
    ErrorView::InternalError { reason: "digest is of another algorithm"@, tagged: false }
}

/// The answer of `fs.hash` for a file that was read to its end: the digest that the request
/// asks for, of the bytes that were read, and how many they are.
pub fn hash_answer(req: FsHashRequest, digest: FileDigest, caps: &Capabilities) -> (r: Result<
    ToolResponse<HashContent>,
    SubstrateError,
>)
    requires
        digest.wf(),
    ensures
        r is Ok <==> digest.algorithm() == req.algorithm,
        r matches Ok(t) ==> {
            &&& t.structured_content.path == req.path
            &&& t.structured_content.algorithm@ == req.algorithm.label()
            &&& t.structured_content.digest@ == hex_text(
                req.algorithm.digest_of(digest.content()),
            )
            &&& t.structured_content.size_bytes == digest.content().len()
            &&& t.content@ == hash_summary(req)
            &&& t.hints@ == hash_hints(*caps)
        },
        r matches Ok(t) ==> {
            &&& req.algorithm is Blake3 ==> t.structured_content.algorithm@ == "blake3"@
                && t.structured_content.digest@ == hex_text(blake3_digest(digest.content()))
            &&& req.algorithm is Sha256 ==> t.structured_content.algorithm@ == "sha256"@
                && t.structured_content.digest@ == hex_text(sha256_digest(digest.content()))
        },
        r matches Err(e) ==> e@ == wrong_algorithm(),
        r matches Err(e) ==> e@ == (ErrorView::InternalError {
            reason: "digest is of another algorithm"@,
            tagged: false,
        }),
{
    if digest.kind() != req.algorithm {
        return Err(
            SubstrateError::InternalError {
                reason: "digest is of another algorithm".to_owned(),
                correlation_id: None,
            },
        );
    }
    let (hex, size_bytes) = digest.finish();
    Ok(hash_response(req, hex, size_bytes, caps))
}

/// The answer of `fs.hash` for a digest.
pub fn hash_response(req: FsHashRequest, digest: String, size_bytes: u64, caps: &Capabilities) -> (r:
    ToolResponse<HashContent>)
    ensures
        r.structured_content.path == req.path,
        r.structured_content.algorithm@ == req.algorithm.label(),
        r.structured_content.digest == digest,
        r.structured_content.size_bytes == size_bytes,
        r.content@ == hash_summary(req),
        r.hints@ == hash_hints(*caps),
        r.hints@.next_action_suggested == Some("fs.stat"@),
        r.hints@.alternative_tool == Some("fs.read"@),
        r.hints@.error_recovery == Some(
                "Use fs.hash per-file; avoid hashing directory trees inline"@,
            ),
        r.hints@.confirm_destructive == Some(false),
        r.hints@.simd_tier_used == Some(caps.simd_tier.label()),
        r.hints@.walker_tier_used == None::<Seq<char>>,
        r.content@ == "USE: verify file integrity\nDOES: "@ + r.structured_content.algorithm@ + (
        " digest of '"@ + req.path@
            + "'\nNEXT: fs.stat, fs.read\nAVOID: bulk tree hashing → hash individual files"@),
{
    let algorithm = req.algorithm.name();
    let tail = text::cat3(
        " digest of '",
        req.path.as_str(),
        "'\nNEXT: fs.stat, fs.read\nAVOID: bulk tree hashing → hash individual files",
    );
    let content = text::cat3(
        "USE: verify file integrity\nDOES: ",
        algorithm,
        tail.as_str(),
    );
    let hints = build_hints(
        Some("fs.stat"),
        Some("fs.read"),
        Some("Use fs.hash per-file; avoid hashing directory trees inline"),
        caps,
        false,
    );
    ToolResponse::with_hints(
        content,
        HashContent { path: req.path, algorithm, digest, size_bytes },
        hints,
    )
}

} // verus!
