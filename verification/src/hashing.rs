//! The hash algorithms that the library knows, the digest of a byte sequence
//! under each, and its rendering as lowercase hexadecimal text.
//!
//! The digests themselves are computed by the RustCrypto crates. What each
//! returns is not stated here beyond its length and its being a function of
//! the bytes hashed: it is given a name, and the contracts speak of that
//! name. A content is hashed in pieces (`HashStream`), so that a file need
//! not be held in memory as a whole.

use crate::checksums::is_plain;
use crate::text::same_text;
use digest::Digest;
use vstd::prelude::*;

verus! {

/// A hash algorithm.
#[derive(Debug, Clone, Copy, PartialEq, Eq)]
pub enum HashAlgorithm {
    Md5,
    Sha1,
    Sha224,
    Sha256,
    Sha384,
    Sha512,
    Sha3_224,
    Sha3_256,
    Sha3_384,
    Sha3_512,
    Blake2b512,
    Blake2s256,
    Whirlpool,
}

/// The MD5 digest of `data`, as `md5::Md5` computes it.
pub uninterp spec fn md5_digest_of(data: Seq<u8>) -> Seq<u8>;

/// The SHA-1 digest of `data`, as `sha1::Sha1` computes it.
pub uninterp spec fn sha1_digest_of(data: Seq<u8>) -> Seq<u8>;

/// The SHA-224 digest of `data`, as `sha2::Sha224` computes it.
pub uninterp spec fn sha224_digest_of(data: Seq<u8>) -> Seq<u8>;

/// The SHA-256 digest of `data`, as `sha2::Sha256` computes it.
pub uninterp spec fn sha256_digest_of(data: Seq<u8>) -> Seq<u8>;

/// The SHA-384 digest of `data`, as `sha2::Sha384` computes it.
pub uninterp spec fn sha384_digest_of(data: Seq<u8>) -> Seq<u8>;

/// The SHA-512 digest of `data`, as `sha2::Sha512` computes it.
pub uninterp spec fn sha512_digest_of(data: Seq<u8>) -> Seq<u8>;

/// The SHA3-224 digest of `data`, as `sha3::Sha3_224` computes it.
pub uninterp spec fn sha3_224_digest_of(data: Seq<u8>) -> Seq<u8>;

/// The SHA3-256 digest of `data`, as `sha3::Sha3_256` computes it.
pub uninterp spec fn sha3_256_digest_of(data: Seq<u8>) -> Seq<u8>;

/// The SHA3-384 digest of `data`, as `sha3::Sha3_384` computes it.
pub uninterp spec fn sha3_384_digest_of(data: Seq<u8>) -> Seq<u8>;

/// The SHA3-512 digest of `data`, as `sha3::Sha3_512` computes it.
pub uninterp spec fn sha3_512_digest_of(data: Seq<u8>) -> Seq<u8>;

/// The BLAKE2b-512 digest of `data`, as `blake2::Blake2b512` computes it.
pub uninterp spec fn blake2b512_digest_of(data: Seq<u8>) -> Seq<u8>;

/// The BLAKE2s-256 digest of `data`, as `blake2::Blake2s256` computes it.
pub uninterp spec fn blake2s256_digest_of(data: Seq<u8>) -> Seq<u8>;

/// The Whirlpool digest of `data`, as `whirlpool::Whirlpool` computes it.
pub uninterp spec fn whirlpool_digest_of(data: Seq<u8>) -> Seq<u8>;

/// A digest in the making: a hasher of one of the RustCrypto crates, held as
/// `Box<dyn digest::DynDigest>`. Trusted: Verus sees nothing of what is
/// inside; the contracts speak of the bytes that the hasher has taken so far
/// and of the algorithm that it was made for.
#[verifier::external_body]
pub struct DigestState {
    hasher: Box<dyn digest::DynDigest>,
}

/// The bytes that a hasher has taken so far, in order.
pub uninterp spec fn absorbed(state: DigestState) -> Seq<u8>;

/// The algorithm that a hasher was made for, as the number that `kind_of`
/// gives to it.
pub uninterp spec fn started_as(state: DigestState) -> int;

/// Calls `md5::Md5::new`. Trusted: the hasher is one for MD5 and has taken no
/// byte yet.
#[verifier::external_body]
fn md5_start() -> (state: DigestState)
    ensures
        absorbed(state) == Seq::<u8>::empty(),
        started_as(state) == 0,
{
    DigestState { hasher: Box::new(md5::Md5::new()) }
}

/// Calls `sha1::Sha1::new`. Trusted: the hasher is one for SHA-1 and has taken no
/// byte yet.
#[verifier::external_body]
fn sha1_start() -> (state: DigestState)
    ensures
        absorbed(state) == Seq::<u8>::empty(),
        started_as(state) == 1,
{
    DigestState { hasher: Box::new(sha1::Sha1::new()) }
}

/// Calls `sha2::Sha224::new`. Trusted: the hasher is one for SHA-224 and has taken no
/// byte yet.
#[verifier::external_body]
fn sha224_start() -> (state: DigestState)
    ensures
        absorbed(state) == Seq::<u8>::empty(),
        started_as(state) == 2,
{
    DigestState { hasher: Box::new(sha2::Sha224::new()) }
}

/// Calls `sha2::Sha256::new`. Trusted: the hasher is one for SHA-256 and has taken no
/// byte yet.
#[verifier::external_body]
fn sha256_start() -> (state: DigestState)
    ensures
        absorbed(state) == Seq::<u8>::empty(),
        started_as(state) == 3,
{
    DigestState { hasher: Box::new(sha2::Sha256::new()) }
}

/// Calls `sha2::Sha384::new`. Trusted: the hasher is one for SHA-384 and has taken no
/// byte yet.
#[verifier::external_body]
fn sha384_start() -> (state: DigestState)
    ensures
        absorbed(state) == Seq::<u8>::empty(),
        started_as(state) == 4,
{
    DigestState { hasher: Box::new(sha2::Sha384::new()) }
}

/// Calls `sha2::Sha512::new`. Trusted: the hasher is one for SHA-512 and has taken no
/// byte yet.
#[verifier::external_body]
fn sha512_start() -> (state: DigestState)
    ensures
        absorbed(state) == Seq::<u8>::empty(),
        started_as(state) == 5,
{
    DigestState { hasher: Box::new(sha2::Sha512::new()) }
}

/// Calls `sha3::Sha3_224::new`. Trusted: the hasher is one for SHA3-224 and has taken no
/// byte yet.
#[verifier::external_body]
fn sha3_224_start() -> (state: DigestState)
    ensures
        absorbed(state) == Seq::<u8>::empty(),
        started_as(state) == 6,
{
    DigestState { hasher: Box::new(sha3::Sha3_224::new()) }
}

/// Calls `sha3::Sha3_256::new`. Trusted: the hasher is one for SHA3-256 and has taken no
/// byte yet.
#[verifier::external_body]
fn sha3_256_start() -> (state: DigestState)
    ensures
        absorbed(state) == Seq::<u8>::empty(),
        started_as(state) == 7,
{
    DigestState { hasher: Box::new(sha3::Sha3_256::new()) }
}

/// Calls `sha3::Sha3_384::new`. Trusted: the hasher is one for SHA3-384 and has taken no
/// byte yet.
#[verifier::external_body]
fn sha3_384_start() -> (state: DigestState)
    ensures
        absorbed(state) == Seq::<u8>::empty(),
        started_as(state) == 8,
{
    DigestState { hasher: Box::new(sha3::Sha3_384::new()) }
}

/// Calls `sha3::Sha3_512::new`. Trusted: the hasher is one for SHA3-512 and has taken no
/// byte yet.
#[verifier::external_body]
fn sha3_512_start() -> (state: DigestState)
    ensures
        absorbed(state) == Seq::<u8>::empty(),
        started_as(state) == 9,
{
    DigestState { hasher: Box::new(sha3::Sha3_512::new()) }
}

/// Calls `blake2::Blake2b512::new`. Trusted: the hasher is one for BLAKE2b-512 and has taken no
/// byte yet.
#[verifier::external_body]
fn blake2b512_start() -> (state: DigestState)
    ensures
        absorbed(state) == Seq::<u8>::empty(),
        started_as(state) == 10,
{
    DigestState { hasher: Box::new(blake2::Blake2b512::new()) }
}

/// Calls `blake2::Blake2s256::new`. Trusted: the hasher is one for BLAKE2s-256 and has taken no
/// byte yet.
#[verifier::external_body]
fn blake2s256_start() -> (state: DigestState)
    ensures
        absorbed(state) == Seq::<u8>::empty(),
        started_as(state) == 11,
{
    DigestState { hasher: Box::new(blake2::Blake2s256::new()) }
}

/// Calls `whirlpool::Whirlpool::new`. Trusted: the hasher is one for Whirlpool and has taken no
/// byte yet.
#[verifier::external_body]
fn whirlpool_start() -> (state: DigestState)
    ensures
        absorbed(state) == Seq::<u8>::empty(),
        started_as(state) == 12,
{
    DigestState { hasher: Box::new(whirlpool::Whirlpool::new()) }
}

/// Calls `digest::DynDigest::update`. Trusted: the hasher takes the bytes of
/// `data` behind those that it has taken, and stays a hasher for the same
/// algorithm.
#[verifier::external_body]
fn digest_update(state: &mut DigestState, data: &[u8])
    ensures
        absorbed(*final(state)) == absorbed(*old(state)) + data@,
        started_as(*final(state)) == started_as(*old(state)),
{
    digest::DynDigest::update(state.hasher.as_mut(), data)
}

/// Calls `digest::DynDigest::finalize`. Trusted: the result is the digest,
/// under the algorithm that the hasher was made for, of the bytes that it has
/// taken, whatever the pieces in which they came; it is a function of those
/// bytes alone and has the length that the algorithm fixes.
#[verifier::external_body]
fn digest_finish(state: DigestState) -> (out: Vec<u8>)
    ensures
        started_as(state) == 0 ==> out@ == md5_digest_of(absorbed(state)) && out@.len() == 16,
        started_as(state) == 1 ==> out@ == sha1_digest_of(absorbed(state)) && out@.len() == 20,
        started_as(state) == 2 ==> out@ == sha224_digest_of(absorbed(state)) && out@.len() == 28,
        started_as(state) == 3 ==> out@ == sha256_digest_of(absorbed(state)) && out@.len() == 32,
        started_as(state) == 4 ==> out@ == sha384_digest_of(absorbed(state)) && out@.len() == 48,
        started_as(state) == 5 ==> out@ == sha512_digest_of(absorbed(state)) && out@.len() == 64,
        started_as(state) == 6 ==> out@ == sha3_224_digest_of(absorbed(state)) && out@.len() == 28,
        started_as(state) == 7 ==> out@ == sha3_256_digest_of(absorbed(state)) && out@.len() == 32,
        started_as(state) == 8 ==> out@ == sha3_384_digest_of(absorbed(state)) && out@.len() == 48,
        started_as(state) == 9 ==> out@ == sha3_512_digest_of(absorbed(state)) && out@.len() == 64,
        started_as(state) == 10 ==> out@ == blake2b512_digest_of(absorbed(state)) && out@.len() == 64,
        started_as(state) == 11 ==> out@ == blake2s256_digest_of(absorbed(state)) && out@.len() == 32,
        started_as(state) == 12 ==> out@ == whirlpool_digest_of(absorbed(state)) && out@.len() == 64,
{
    digest::DynDigest::finalize(state.hasher).to_vec()
}

/// The sixteen lowercase hexadecimal digits.
pub open spec fn hex_digits() -> Seq<char> {
    seq!['0', '1', '2', '3', '4', '5', '6', '7', '8', '9', 'a', 'b', 'c', 'd', 'e', 'f']
}

/// `bytes` in lowercase hexadecimal: two digits for each byte, the high half
/// first.
pub open spec fn hex_text(bytes: Seq<u8>) -> Seq<char> {
    Seq::new(
        2 * bytes.len(),
        |i: int|
            if i % 2 == 0 {
                hex_digits()[bytes[i / 2] as int / 16]
            } else {
                hex_digits()[bytes[i / 2] as int % 16]
            },
    )
}

/// Calls `hex::encode`. Trusted: the result holds, for each byte in turn, the
/// digit of its high four bits and then that of its low four bits, out of
/// `0123456789abcdef`.
#[verifier::external_body]
fn hex_encode(bytes: &[u8]) -> (out: String)
    ensures
        out@ == hex_text(bytes@),
{
    hex::encode(bytes)
}

/// The algorithm that `name` identifies, if any. Identifiers are matched
/// exactly, letter case included.
pub open spec fn algorithm_named(name: Seq<char>) -> Option<HashAlgorithm> {
    if name == "md5"@ {
        Some(HashAlgorithm::Md5)
    } else if name == "sha1"@ {
        Some(HashAlgorithm::Sha1)
    } else if name == "sha224"@ {
        Some(HashAlgorithm::Sha224)
    } else if name == "sha256"@ {
        Some(HashAlgorithm::Sha256)
    } else if name == "sha384"@ {
        Some(HashAlgorithm::Sha384)
    } else if name == "sha512"@ {
        Some(HashAlgorithm::Sha512)
    } else if name == "sha3-224"@ {
        Some(HashAlgorithm::Sha3_224)
    } else if name == "sha3-256"@ {
        Some(HashAlgorithm::Sha3_256)
    } else if name == "sha3-384"@ {
        Some(HashAlgorithm::Sha3_384)
    } else if name == "sha3-512"@ {
        Some(HashAlgorithm::Sha3_512)
    } else if name == "blake2b-512"@ {
        Some(HashAlgorithm::Blake2b512)
    } else if name == "blake2s-256"@ {
        Some(HashAlgorithm::Blake2s256)
    } else if name == "whirlpool"@ {
        Some(HashAlgorithm::Whirlpool)
    } else {
        None
    }
}

/// A digest in hexadecimal holds no character but the sixteen digits: in
/// particular neither of the two that separate the parts of a grouping key.
pub proof fn lemma_hex_is_plain(bytes: Seq<u8>)
    ensures
        hex_text(bytes).len() == 2 * bytes.len(),
        forall|i: int|
            0 <= i < hex_text(bytes).len() ==> hex_digits().contains(#[trigger] hex_text(bytes)[i]),
        is_plain(hex_text(bytes)),
{
    let text = hex_text(bytes);
    assert forall|i: int| 0 <= i < text.len() implies hex_digits().contains(#[trigger] text[i])
        && text[i] != ':' && text[i] != '|' by {
        let byte = bytes[i / 2] as int;
        let d = if i % 2 == 0 {
            byte / 16
        } else {
            byte % 16
        };
        assert(0 <= d < 16);
        assert(text[i] == hex_digits()[d]);
    }
}

/// The identifiers of the algorithms hold neither of the two characters that
/// separate the parts of a grouping key.
pub proof fn lemma_algorithm_name_is_plain(name: Seq<char>)
    requires
        algorithm_named(name) is Some,
    ensures
        is_plain(name),
{
    reveal_strlit("md5");
    reveal_strlit("sha1");
    reveal_strlit("sha224");
    reveal_strlit("sha256");
    reveal_strlit("sha384");
    reveal_strlit("sha512");
    reveal_strlit("sha3-224");
    reveal_strlit("sha3-256");
    reveal_strlit("sha3-384");
    reveal_strlit("sha3-512");
    reveal_strlit("blake2b-512");
    reveal_strlit("blake2s-256");
    reveal_strlit("whirlpool");
}

/// The digest of `data` under `algorithm`, as bytes.
pub open spec fn digest_of(algorithm: HashAlgorithm, data: Seq<u8>) -> Seq<u8> {
    match algorithm {
        HashAlgorithm::Md5 => md5_digest_of(data),
        HashAlgorithm::Sha1 => sha1_digest_of(data),
        HashAlgorithm::Sha224 => sha224_digest_of(data),
        HashAlgorithm::Sha256 => sha256_digest_of(data),
        HashAlgorithm::Sha384 => sha384_digest_of(data),
        HashAlgorithm::Sha512 => sha512_digest_of(data),
        HashAlgorithm::Sha3_224 => sha3_224_digest_of(data),
        HashAlgorithm::Sha3_256 => sha3_256_digest_of(data),
        HashAlgorithm::Sha3_384 => sha3_384_digest_of(data),
        HashAlgorithm::Sha3_512 => sha3_512_digest_of(data),
        HashAlgorithm::Blake2b512 => blake2b512_digest_of(data),
        HashAlgorithm::Blake2s256 => blake2s256_digest_of(data),
        HashAlgorithm::Whirlpool => whirlpool_digest_of(data),
    }
}

/// The number that stands for `algorithm` in the state of a hasher.
pub open spec fn kind_of(algorithm: HashAlgorithm) -> int {
    match algorithm {
        HashAlgorithm::Md5 => 0,
        HashAlgorithm::Sha1 => 1,
        HashAlgorithm::Sha224 => 2,
        HashAlgorithm::Sha256 => 3,
        HashAlgorithm::Sha384 => 4,
        HashAlgorithm::Sha512 => 5,
        HashAlgorithm::Sha3_224 => 6,
        HashAlgorithm::Sha3_256 => 7,
        HashAlgorithm::Sha3_384 => 8,
        HashAlgorithm::Sha3_512 => 9,
        HashAlgorithm::Blake2b512 => 10,
        HashAlgorithm::Blake2s256 => 11,
        HashAlgorithm::Whirlpool => 12,
    }
}

/// The number of bytes of a digest under `algorithm`.
pub open spec fn digest_length(algorithm: HashAlgorithm) -> nat {
    match algorithm {
        HashAlgorithm::Md5 => 16,
        HashAlgorithm::Sha1 => 20,
        HashAlgorithm::Sha224 => 28,
        HashAlgorithm::Sha256 => 32,
        HashAlgorithm::Sha384 => 48,
        HashAlgorithm::Sha512 => 64,
        HashAlgorithm::Sha3_224 => 28,
        HashAlgorithm::Sha3_256 => 32,
        HashAlgorithm::Sha3_384 => 48,
        HashAlgorithm::Sha3_512 => 64,
        HashAlgorithm::Blake2b512 => 64,
        HashAlgorithm::Blake2s256 => 32,
        HashAlgorithm::Whirlpool => 64,
    }
}

/// The digest of `data` under `algorithm`, as lowercase hexadecimal text.
pub open spec fn digest_text(algorithm: HashAlgorithm, data: Seq<u8>) -> Seq<char> {
    hex_text(digest_of(algorithm, data))
}

impl HashAlgorithm {
    /// The algorithm that `name` identifies, if any.
    pub fn from_name(name: &str) -> (out: Option<HashAlgorithm>)
        ensures
            out == algorithm_named(name@),
    {
        if same_text(name, "md5") {
            Some(HashAlgorithm::Md5)
        } else if same_text(name, "sha1") {
            Some(HashAlgorithm::Sha1)
        } else if same_text(name, "sha224") {
            Some(HashAlgorithm::Sha224)
        } else if same_text(name, "sha256") {
            Some(HashAlgorithm::Sha256)
        } else if same_text(name, "sha384") {
            Some(HashAlgorithm::Sha384)
        } else if same_text(name, "sha512") {
            Some(HashAlgorithm::Sha512)
        } else if same_text(name, "sha3-224") {
            Some(HashAlgorithm::Sha3_224)
        } else if same_text(name, "sha3-256") {
            Some(HashAlgorithm::Sha3_256)
        } else if same_text(name, "sha3-384") {
            Some(HashAlgorithm::Sha3_384)
        } else if same_text(name, "sha3-512") {
            Some(HashAlgorithm::Sha3_512)
        } else if same_text(name, "blake2b-512") {
            Some(HashAlgorithm::Blake2b512)
        } else if same_text(name, "blake2s-256") {
            Some(HashAlgorithm::Blake2s256)
        } else if same_text(name, "whirlpool") {
            Some(HashAlgorithm::Whirlpool)
        } else {
            None
        }
    }

    /// The digest of `data` under this algorithm, as bytes.
    pub fn digest(self, data: &[u8]) -> (out: Vec<u8>)
        ensures
            out@ == digest_of(self, data@),
            out@.len() == digest_length(self),
    {
        let stream: HashStream = HashStream::new(self).update(data);
        assert(stream.content() =~= data@);
        stream.finish()
    }

    /// The digest of `data` under this algorithm, as lowercase hexadecimal text.
    pub fn hex_digest(self, data: &[u8]) -> (out: String)
        ensures
            out@ == digest_text(self, data@),
            out@.len() == 2 * digest_length(self),
    {
        let bytes: Vec<u8> = self.digest(data);
        render_digest(bytes.as_slice())
    }
}

/// The hashing of one content that comes in pieces: the algorithm, and the
/// bytes taken so far. The memory that it needs does not grow with the
/// content.
pub struct HashStream {
    algorithm: HashAlgorithm,
    state: DigestState,
}

impl HashStream {
    #[verifier::type_invariant]
    spec fn matched(self) -> bool {
        started_as(self.state) == kind_of(self.algorithm)
    }

    /// The algorithm under which the content is hashed.
    pub closed spec fn algorithm(self) -> HashAlgorithm {
        self.algorithm
    }

    /// The bytes taken so far.
    pub closed spec fn content(self) -> Seq<u8> {
        absorbed(self.state)
    }

    /// Starts the hashing of a content under `algorithm`.
    pub fn new(algorithm: HashAlgorithm) -> (out: HashStream)
        ensures
            out.algorithm() == algorithm,
            out.content() == Seq::<u8>::empty(),
    {
        let state: DigestState = match algorithm {
            HashAlgorithm::Md5 => md5_start(),
            HashAlgorithm::Sha1 => sha1_start(),
            HashAlgorithm::Sha224 => sha224_start(),
            HashAlgorithm::Sha256 => sha256_start(),
            HashAlgorithm::Sha384 => sha384_start(),
            HashAlgorithm::Sha512 => sha512_start(),
            HashAlgorithm::Sha3_224 => sha3_224_start(),
            HashAlgorithm::Sha3_256 => sha3_256_start(),
            HashAlgorithm::Sha3_384 => sha3_384_start(),
            HashAlgorithm::Sha3_512 => sha3_512_start(),
            HashAlgorithm::Blake2b512 => blake2b512_start(),
            HashAlgorithm::Blake2s256 => blake2s256_start(),
            HashAlgorithm::Whirlpool => whirlpool_start(),
        };
        HashStream { algorithm, state }
    }

    /// Takes the next piece of the content.
    pub fn update(self, data: &[u8]) -> (out: HashStream)
        ensures
            out.algorithm() == self.algorithm(),
            out.content() == self.content() + data@,
    {
        proof {
            use_type_invariant(&self);
        }
        let HashStream { algorithm, state } = self;
        let mut state: DigestState = state;
        digest_update(&mut state, data);
        HashStream { algorithm, state }
    }

    /// Ends the hashing: the digest of the whole content, as bytes.
    pub fn finish(self) -> (out: Vec<u8>)
        ensures
            out@ == digest_of(self.algorithm(), self.content()),
            out@.len() == digest_length(self.algorithm()),
    {
        proof {
            use_type_invariant(&self);
        }
        let HashStream { algorithm, state } = self;
        digest_finish(state)
    }

    /// Ends the hashing: the digest of the whole content, as lowercase
    /// hexadecimal text.
    pub fn finish_hex(self) -> (out: String)
        ensures
            out@ == digest_text(self.algorithm(), self.content()),
            out@.len() == 2 * digest_length(self.algorithm()),
    {
        let bytes: Vec<u8> = self.finish();
        render_digest(bytes.as_slice())
    }
}

/// A digest as lowercase hexadecimal text.
pub fn render_digest(bytes: &[u8]) -> (out: String)
    ensures
        out@ == hex_text(bytes@),
{
    hex_encode(bytes)
}

} // verus!
