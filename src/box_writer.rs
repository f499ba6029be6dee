//! `BoxWriter`: a transport paired with the encryptor that writes to it.
use vstd::prelude::*;
use crate::encryptor::Encryptor;
use crate::frame::{frame_bytes, goodbye_bytes};
use crate::nonce::{advance, Nonce};
use crate::secretbox::Key;

verus! {

/// Wraps a writer, encrypting all writes.
///
/// The caller drives it: it writes `pending_bytes()` to the transport (`get_mut`) and
/// reports what was taken with `consume`; `write` takes plaintext once nothing is
/// pending, and `shutdown` queues the goodbye header.
pub struct BoxWriter<W> {
    inner: W,
    encryptor: Encryptor,
}

impl<W> BoxWriter<W> {
    /// The wrapped writer.
    pub closed spec fn inner(&self) -> W {
        self.inner
    }

    /// The encryptor's state.
    pub closed spec fn encryptor(&self) -> Encryptor {
        self.encryptor
    }

    pub open spec fn wf(&self) -> bool {
        self.encryptor().wf()
    }

    /// Creates a new writer, wrapping `inner` and using `key` and `nonce` for encryption.
    pub fn new(inner: W, key: Key, nonce: Nonce) -> (r: BoxWriter<W>)
        ensures
            r.wf(),
            r.inner() == inner,
            r.encryptor().key() == key@,
            r.encryptor().start() == nonce@,
            r.encryptor().nonce() == nonce@,
            r.encryptor().chunks() == Seq::<Seq<u8>>::empty(),
            !r.encryptor().closed(),
            r.encryptor().pending() == Seq::<u8>::empty(),
    {
        BoxWriter { inner, encryptor: Encryptor::new(key, nonce) }
    }

    /// Gets a reference to the underlying writer.
    pub fn get_ref(&self) -> (r: &W)
        ensures
            *r == self.inner(),
    {
        &self.inner
    }

    /// Gets a mutable reference to the underlying writer.
    ///
    /// It is inadvisable to write to it directly: such bytes break the cipherstream.
    pub fn get_mut(&mut self) -> (r: &mut W)
        ensures
            *r == old(self).inner(),
            final(self).inner() == *final(r),
            final(self).encryptor() == old(self).encryptor(),
    {
        &mut self.inner
    }

    /// Unwraps this `BoxWriter`, returning the underlying writer.
    pub fn into_inner(self) -> (r: W)
        ensures
            r == self.inner(),
    {
        self.inner
    }

    /// The wire bytes the transport still has to take.
    pub fn pending_bytes(&self) -> (r: &[u8])
        requires
            self.wf(),
        ensures
            r@ == self.encryptor().pending(),
    {
        self.encryptor.pending_bytes()
    }

    /// Records that the transport took the first `n` pending bytes.
    pub fn consume(&mut self, n: usize)
        requires
            old(self).wf(),
            n <= old(self).encryptor().pending().len(),
        ensures
            final(self).wf(),
            final(self).inner() == old(self).inner(),
            final(self).encryptor().pending() == old(self).encryptor().pending().skip(n as int),
            final(self).encryptor().key() == old(self).encryptor().key(),
            final(self).encryptor().start() == old(self).encryptor().start(),
            final(self).encryptor().nonce() == old(self).encryptor().nonce(),
            final(self).encryptor().chunks() == old(self).encryptor().chunks(),
            final(self).encryptor().closed() == old(self).encryptor().closed(),
    {
        self.encryptor.consume(n)
    }

    /// Whether the last frame has been fully taken by the transport.
    pub fn is_flushed(&self) -> (r: bool)
        requires
            self.wf(),
        ensures
            r == (self.encryptor().pending().len() == 0),
    {
        self.encryptor.pending_bytes().len() == 0
    }

    /// Encrypts up to 4096 bytes of `buf` (see `Encryptor::write`).
    pub fn write(&mut self, buf: &[u8]) -> (r: Option<usize>)
        requires
            old(self).wf(),
            !old(self).encryptor().closed(),
        ensures
            final(self).wf(),
            final(self).inner() == old(self).inner(),
            final(self).encryptor().key() == old(self).encryptor().key(),
            final(self).encryptor().start() == old(self).encryptor().start(),
            !final(self).encryptor().closed(),
            buf@.len() == 0 ==> r == Some(0usize) && final(self).encryptor() == old(self).encryptor(),
            buf@.len() > 0 && old(self).encryptor().pending().len() > 0 ==> r is None
                && final(self).encryptor() == old(self).encryptor(),
            buf@.len() > 0 && old(self).encryptor().pending().len() == 0 ==> {
                let n = vstd::math::min(buf@.len() as int, 4096);
                let p = buf@.take(n);
                let e = old(self).encryptor();
                &&& r == Some(n as usize)
                &&& final(self).encryptor().chunks() == e.chunks().push(p)
                &&& final(self).encryptor().pending() == frame_bytes(p, e.nonce(), e.key())
                &&& final(self).encryptor().pending().len() == 34 + n
                &&& final(self).encryptor().nonce() == advance(e.nonce(), 2)
            },
    {
        self.encryptor.write(buf)
    }

    /// Queues the goodbye header once the last frame is flushed (see
    /// `Encryptor::shutdown`).
    pub fn shutdown(&mut self) -> (r: bool)
        requires
            old(self).wf(),
        ensures
            final(self).wf(),
            final(self).inner() == old(self).inner(),
            final(self).encryptor().key() == old(self).encryptor().key(),
            final(self).encryptor().start() == old(self).encryptor().start(),
            final(self).encryptor().chunks() == old(self).encryptor().chunks(),
            r == (old(self).encryptor().closed() || old(self).encryptor().pending().len() == 0),
            !r ==> final(self).encryptor() == old(self).encryptor(),
            old(self).encryptor().closed() ==> final(self).encryptor() == old(self).encryptor(),
            r ==> final(self).encryptor().closed(),
            r ==> final(self).encryptor().nonce() == advance(
                final(self).encryptor().start(),
                2 * (final(self).encryptor().chunks().len() + 1),
            ),
            r && !old(self).encryptor().closed() ==> final(self).encryptor().pending() == goodbye_bytes(
                old(self).encryptor().nonce(),
                old(self).encryptor().key(),
            ),
            r && !old(self).encryptor().closed() ==> final(self).encryptor().pending().len() == 34,
    {
        self.encryptor.shutdown()
    }

    /// The nonce the next frame will be sealed with.
    pub fn current_nonce(&self) -> (r: [u8; 24])
        ensures
            r@ == self.encryptor().nonce(),
    {
        self.encryptor.current_nonce()
    }

    /// Whether the goodbye header was queued; no write is accepted after it.
    pub fn is_shut_down(&self) -> (r: bool)
        ensures
            r == self.encryptor().closed(),
    {
        self.encryptor.is_closed()
    }
}

} // verus!
