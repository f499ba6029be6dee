//! Authenticated secret-key encryption (XSalsa20-Poly1305), as sodiumoxide provides it.
//!
//! Sealing yields the 16-byte tag followed by a ciphertext as long as the message.
use vstd::prelude::*;
use sodiumoxide::crypto::secretbox;

verus! {

/// Number of bytes in an authentication tag.
pub const TAG_BYTES: usize = 16;

/// A 32-byte secret key.
pub struct Key {
    pub bytes: [u8; 32],
}

impl Key {
    pub open spec fn view(&self) -> Seq<u8> {
        self.bytes@
    }

    /// Makes a key from its 32 bytes.
    pub fn new(bytes: [u8; 32]) -> (r: Key)
        ensures
            r.view() == bytes@,
    {
        Key { bytes }
    }
}

/// What sealing `msg` under nonce `n` and key `k` yields: tag followed by ciphertext.
pub uninterp spec fn secretbox_sealed(msg: Seq<u8>, n: Seq<u8>, k: Seq<u8>) -> Seq<u8>;

/// What opening `sealed` (tag followed by ciphertext) under nonce `n` and key `k` yields.
pub uninterp spec fn secretbox_opened(sealed: Seq<u8>, n: Seq<u8>, k: Seq<u8>) -> Option<Seq<u8>>;

/// Relies on sodiumoxide's `secretbox::seal`: the combined output is the 16-byte tag
/// followed by a ciphertext of the message's length, and `secretbox::open` under the
/// same nonce and key gives the message back.
#[verifier::external_body]
pub(crate) fn seal(msg: &[u8], n: &[u8; 24], k: &[u8; 32]) -> (r: Vec<u8>)
    ensures
        r@ == secretbox_sealed(msg@, n@, k@),
        r@.len() == msg@.len() + 16,
        secretbox_opened(r@, n@, k@) == Some(msg@),
{
    secretbox::seal(msg, &secretbox::Nonce(*n), &secretbox::Key(*k))
}

/// Relies on sodiumoxide's `secretbox::open`: it verifies the tag and returns the
/// message, `c.len() - 16` bytes long, that seals to exactly `c`; it fails when no
/// message does.
#[verifier::external_body]
pub(crate) fn open(c: &[u8], n: &[u8; 24], k: &[u8; 32]) -> (r: Result<Vec<u8>, ()>)
    ensures
        match r {
            Ok(m) => {
                &&& secretbox_opened(c@, n@, k@) == Some(m@)
                &&& m@.len() + 16 == c@.len()
                &&& secretbox_sealed(m@, n@, k@) == c@
            },
            Err(_) => secretbox_opened(c@, n@, k@) is None,
        },
{
    secretbox::open(c, &secretbox::Nonce(*n), &secretbox::Key(*k))
}

} // verus!
