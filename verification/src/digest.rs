//! SHA-256 digests of files and their hexadecimal text.

use vstd::prelude::*;

use sha2::{Digest, Sha256};

verus! {

/// The SHA-256 digest of `data`.
pub uninterp spec fn sha256_of(data: Seq<u8>) -> Seq<u8>;

/// Hashes `data` with `sha2::Sha256::digest`; the contract claims only that
/// the result is the SHA-256 digest of the bytes given, by name.
#[verifier::external_body]
pub(crate) fn sha256(data: &[u8]) -> (h: [u8; 32])
    ensures
        h@ == sha256_of(data@),
{
    Sha256::digest(data).into()
}

/// A SHA-256 computation over bytes that arrive in pieces
/// (`sha2::Sha256`).
#[verifier::external_body]
pub struct StreamDigest {
    inner: Sha256,
}

/// The bytes given to a digest so far, in order.
pub uninterp spec fn digest_input(d: StreamDigest) -> Seq<u8>;

impl StreamDigest {
    /// A digest that has seen nothing (`Sha256::new`); the contract claims
    /// only that its input is empty.
    #[verifier::external_body]
    pub fn start() -> (d: StreamDigest)
        ensures
            digest_input(d) == Seq::<u8>::empty(),
    {
        StreamDigest { inner: Sha256::new() }
    }

    /// Feeds `chunk` to the digest (`Digest::update`); the contract claims
    /// that its input grows by the chunk, at the end.
    #[verifier::external_body]
    pub fn absorb(&mut self, chunk: &[u8])
        ensures
            digest_input(*final(self)) == digest_input(*old(self)) + chunk@,
    {
        self.inner.update(chunk);
    }

    /// The digest of all that was fed (`Digest::finalize`); the contract
    /// claims that it is the SHA-256 digest, by name, of the input.
    #[verifier::external_body]
    pub fn finish(self) -> (h: [u8; 32])
        ensures
            h@ == sha256_of(digest_input(self)),
    {
        self.inner.finalize().into()
    }
}

/// The lower-case hexadecimal digit of `d`, `0` to `9` then `a` to `f`.
pub open spec fn hex_digit(d: int) -> char {
    if d < 10 {
        (d + 48) as char
    } else {
        (d + 87) as char
    }
}

/// Two lower-case hexadecimal digits per byte, the high half first.
pub open spec fn hex_text(bytes: Seq<u8>) -> Seq<char>
    decreases bytes.len(),
{
    if bytes.len() == 0 {
        Seq::empty()
    } else {
        seq![hex_digit((bytes[0] / 16) as int), hex_digit((bytes[0] % 16) as int)] + hex_text(bytes.drop_first())
    }
}

/// Encodes `data` with `hex::encode`; the contract claims that the result is
/// two lower-case hexadecimal digits per byte, the high half first, as the
/// crate's source builds it from its table `0123456789abcdef`.
#[verifier::external_body]
pub(crate) fn hex_encode(data: &[u8]) -> (s: String)
    ensures
        s@ == hex_text(data@),
{
    hex::encode(data)
}

/// The first `n` bytes of `data`.
pub(crate) fn prefix(data: &[u8], n: usize) -> (r: Vec<u8>)
    requires
        n <= data@.len(),
    ensures
        r@ == data@.take(n as int),
{
    let mut r: Vec<u8> = Vec::new();
    let mut i: usize = 0;
    while i < n
        invariant
            0 <= i <= n <= data@.len(),
            r@ =~= data@.take(i as int),
        decreases n - i,
    {
        r.push(data[i]);
        i += 1;
    }
    r
}

} // verus!
