use vstd::prelude::*;
use sha2::Digest;

verus! {

/// The SHA-256 digest of a byte string.
pub uninterp spec fn sha256_digest(data: Seq<u8>) -> Seq<u8>;

/// The SHA3-256 digest of a byte string.
pub uninterp spec fn sha3_256_digest(data: Seq<u8>) -> Seq<u8>;

/// The BLAKE3 digest (default mode, 32 bytes) of a byte string.
pub uninterp spec fn blake3_digest(data: Seq<u8>) -> Seq<u8>;

/// Calls `sha2::Sha256::digest`. Assumed: the result is a function of the
/// input bytes alone, named `sha256_digest`, and is 32 bytes long.
#[verifier::external_body]
fn sha256_bytes(data: &[u8]) -> (out: Vec<u8>)
    ensures
        out@ == sha256_digest(data@),
        out@.len() == 32,
{
    sha2::Sha256::digest(data).to_vec()
}

/// Calls `sha3::Sha3_256::digest`. Assumed: the result is a function of the
/// input bytes alone, named `sha3_256_digest`, and is 32 bytes long.
#[verifier::external_body]
fn sha3_256_bytes(data: &[u8]) -> (out: Vec<u8>)
    ensures
        out@ == sha3_256_digest(data@),
        out@.len() == 32,
{
    sha3::Sha3_256::digest(data).to_vec()
}

/// Calls `blake3::hash`. Assumed: the result is a function of the input
/// bytes alone, named `blake3_digest`, and is 32 bytes long.
#[verifier::external_body]
fn blake3_bytes(data: &[u8]) -> (out: Vec<u8>)
    ensures
        out@ == blake3_digest(data@),
        out@.len() == 32,
{
    blake3::hash(data).as_bytes().to_vec()
}

/// The digest of an internal node: the hash of its children's digests, the
/// left one first, with nothing between them.
pub open spec fn combine<H: Hasher>(h: &H, left: Seq<u8>, right: Seq<u8>) -> Seq<u8> {
    h.digest(left + right)
}

/// A one-way function with a fixed output size.
///
/// `digest` is the function itself, as mathematics; `hash` computes it.
/// Internal tree nodes are always `digest(left ++ right)`: an implementor
/// that overrides `hash_pair` must keep exactly that meaning.
pub trait Hasher: Clone + Send + Sync {
    /// The hash function: input bytes to digest.
    spec fn digest(&self, data: Seq<u8>) -> Seq<u8>;

    /// The number of bytes in every digest.
    spec fn digest_len(&self) -> nat;

    /// The primitive's name.
    spec fn label(&self) -> Seq<char>;

    /// Hash a single input.
    fn hash(&self, data: &[u8]) -> (out: Vec<u8>)
        ensures
            out@ == self.digest(data@),
            out@.len() == self.digest_len(),
    ;

    /// Hash the concatenation of two inputs (for internal nodes).
    fn hash_pair(&self, left: &[u8], right: &[u8]) -> (out: Vec<u8>)
        ensures
            out@ == self.digest(left@ + right@),
            out@.len() == self.digest_len(),
    {
        let mut combined: Vec<u8> = Vec::new();
        combined.extend_from_slice(left);
        combined.extend_from_slice(right);
        assert(combined@ =~= left@ + right@);
        self.hash(combined.as_slice())
    }

    /// The output size of the hash function, in bytes.
    fn output_size(&self) -> (n: usize)
        ensures
            n == self.digest_len(),
    ;

    /// The name of the hash function.
    fn name(&self) -> (s: &'static str)
        ensures
            s@ == self.label(),
    ;
}

/// SHA-256.
#[derive(Clone, Debug)]
pub struct Sha256Hasher;

impl Sha256Hasher {
    pub fn new() -> (h: Self)
        ensures
            h == Sha256Hasher,
    {
        Sha256Hasher
    }
}

impl Default for Sha256Hasher {
    fn default() -> (h: Self)
        ensures
            h == Sha256Hasher,
    {
        Sha256Hasher
    }
}

impl Hasher for Sha256Hasher {
    open spec fn digest(&self, data: Seq<u8>) -> Seq<u8> {
        sha256_digest(data)
    }

    open spec fn digest_len(&self) -> nat {
        32
    }

    open spec fn label(&self) -> Seq<char> {
        "SHA-256"@
    }

    fn hash(&self, data: &[u8]) -> (out: Vec<u8>) {
        sha256_bytes(data)
    }

    fn output_size(&self) -> (n: usize) {
        32
    }

    fn name(&self) -> (s: &'static str) {
        "SHA-256"
    }
}

/// SHA3-256.
#[derive(Clone, Debug)]
pub struct Sha3Hasher;

impl Sha3Hasher {
    pub fn new() -> (h: Self)
        ensures
            h == Sha3Hasher,
    {
        Sha3Hasher
    }
}

impl Default for Sha3Hasher {
    fn default() -> (h: Self)
        ensures
            h == Sha3Hasher,
    {
        Sha3Hasher
    }
}

impl Hasher for Sha3Hasher {
    open spec fn digest(&self, data: Seq<u8>) -> Seq<u8> {
        sha3_256_digest(data)
    }

    open spec fn digest_len(&self) -> nat {
        32
    }

    open spec fn label(&self) -> Seq<char> {
        "SHA3-256"@
    }

    fn hash(&self, data: &[u8]) -> (out: Vec<u8>) {
        sha3_256_bytes(data)
    }

    fn output_size(&self) -> (n: usize) {
        32
    }

    fn name(&self) -> (s: &'static str) {
        "SHA3-256"
    }
}

/// BLAKE3.
#[derive(Clone, Debug)]
pub struct Blake3Hasher;

impl Blake3Hasher {
    pub fn new() -> (h: Self)
        ensures
            h == Blake3Hasher,
    {
        Blake3Hasher
    }
}

impl Default for Blake3Hasher {
    fn default() -> (h: Self)
        ensures
            h == Blake3Hasher,
    {
        Blake3Hasher
    }
}

impl Hasher for Blake3Hasher {
    open spec fn digest(&self, data: Seq<u8>) -> Seq<u8> {
        blake3_digest(data)
    }

    open spec fn digest_len(&self) -> nat {
        32
    }

    open spec fn label(&self) -> Seq<char> {
        "BLAKE3"@
    }

    fn hash(&self, data: &[u8]) -> (out: Vec<u8>) {
        blake3_bytes(data)
    }

    fn output_size(&self) -> (n: usize) {
        32
    }

    fn name(&self) -> (s: &'static str) {
        "BLAKE3"
    }
}

} // verus!
