//! `BoxReader`: a transport paired with the decryptor that reads it.
use vstd::prelude::*;
use crate::decryptor::{at_eof, initial, run, wanted_of, DecryptError, Decryptor, Phase};
use crate::nonce::Nonce;
use crate::secretbox::Key;

verus! {

/// Wraps a reader, decrypting all reads.
///
/// The caller drives it: while `read` returns `None` it reads up to `wanted()` bytes
/// from the transport (`get_mut`) and passes them to `feed`, or calls `end_of_input`
/// when the transport reports its end.
pub struct BoxReader<R> {
    inner: R,
    decryptor: Decryptor,
}

impl<R> BoxReader<R> {
    /// The wrapped reader.
    pub closed spec fn inner(&self) -> R {
        self.inner
    }

    /// The decryptor's state.
    pub closed spec fn decryptor(&self) -> Decryptor {
        self.decryptor
    }

    pub open spec fn wf(&self) -> bool {
        self.decryptor().wf()
    }

    /// Creates a new reader, wrapping `inner` and using `key` and `nonce` for decryption.
    pub fn new(inner: R, key: Key, nonce: Nonce) -> (r: BoxReader<R>)
        ensures
            r.wf(),
            r.inner() == inner,
            r.decryptor().model() == initial(nonce@),
            r.decryptor().key() == key@,
            r.decryptor().delivered() == Seq::<u8>::empty(),
            r.decryptor().taken() == Seq::<u8>::empty(),
            r.decryptor().start() == nonce@,
    {
        BoxReader { inner, decryptor: Decryptor::new(key, nonce) }
    }

    /// Gets a reference to the underlying reader.
    pub fn get_ref(&self) -> (r: &R)
        ensures
            *r == self.inner(),
    {
        &self.inner
    }

    /// Gets a mutable reference to the underlying reader.
    ///
    /// It is inadvisable to read from it directly: bytes taken that way never reach
    /// the decryptor.
    pub fn get_mut(&mut self) -> (r: &mut R)
        ensures
            *r == old(self).inner(),
            final(self).inner() == *final(r),
            final(self).decryptor() == old(self).decryptor(),
    {
        &mut self.inner
    }

    /// Unwraps this `BoxReader`, returning the underlying reader.
    pub fn into_inner(self) -> (r: R)
        ensures
            r == self.inner(),
    {
        self.inner
    }

    /// The nonce the next header or body will be opened with.
    pub fn current_nonce(&self) -> (r: [u8; 24])
        ensures
            r@ == self.decryptor().model().nonce,
    {
        self.decryptor.current_nonce()
    }

    /// How many wire bytes to read from the transport next (see `Decryptor::wanted`).
    pub fn wanted(&self) -> (r: usize)
        requires
            self.wf(),
        ensures
            r == (if self.decryptor().pending().len() > 0 { 0 } else {
                wanted_of(self.decryptor().model().phase)
            }),
    {
        self.decryptor.wanted()
    }

    /// Hands wire bytes read from the transport to the decryptor (see `Decryptor::feed`).
    pub fn feed(&mut self, data: &[u8]) -> (r: usize)
        requires
            old(self).wf(),
        ensures
            final(self).wf(),
            final(self).inner() == old(self).inner(),
            r as nat == (if old(self).decryptor().pending().len() > 0 { 0 } else {
                vstd::math::min(data@.len() as int, wanted_of(old(self).decryptor().model().phase) as int) as nat
            }),
            final(self).decryptor().model() == run(
                old(self).decryptor().model(),
                data@.take(r as int),
                old(self).decryptor().key(),
            ),
            final(self).decryptor().delivered() == old(self).decryptor().delivered(),
            final(self).decryptor().key() == old(self).decryptor().key(),
            final(self).decryptor().start() == old(self).decryptor().start(),
            final(self).decryptor().taken() == old(self).decryptor().taken() + data@.take(r as int),
    {
        self.decryptor.feed(data)
    }

    /// Records that the transport ended (see `Decryptor::end_of_input`).
    pub fn end_of_input(&mut self)
        requires
            old(self).wf(),
        ensures
            final(self).wf(),
            final(self).inner() == old(self).inner(),
            final(self).decryptor().model() == (if old(self).decryptor().pending().len() > 0 {
                old(self).decryptor().model()
            } else {
                at_eof(old(self).decryptor().model())
            }),
            final(self).decryptor().delivered() == old(self).decryptor().delivered(),
            final(self).decryptor().key() == old(self).decryptor().key(),
            final(self).decryptor().start() == old(self).decryptor().start(),
            final(self).decryptor().taken() == old(self).decryptor().taken(),
            final(self).decryptor().chunks() == old(self).decryptor().chunks(),
    {
        self.decryptor.end_of_input()
    }

    /// Reads decrypted plaintext into `buf` (see `Decryptor::read`): `Some(Ok(0))` for a
    /// nonempty `buf` is the authenticated end of the stream, and `None` asks for more
    /// wire bytes.
    pub fn read(&mut self, buf: &mut [u8]) -> (r: Option<Result<usize, DecryptError>>)
        requires
            old(self).wf(),
        ensures
            final(self).wf(),
            final(self).inner() == old(self).inner(),
            final(self).decryptor().key() == old(self).decryptor().key(),
            final(self).decryptor().model() == old(self).decryptor().model(),
            final(self).decryptor().start() == old(self).decryptor().start(),
            final(self).decryptor().taken() == old(self).decryptor().taken(),
            final(self).decryptor().chunks() == old(self).decryptor().chunks(),
            final(buf)@.len() == old(buf)@.len(),
            ({
                let p = old(self).decryptor().pending();
                let n = vstd::math::min(old(buf)@.len() as int, p.len() as int);
                if old(buf)@.len() > 0 && p.len() > 0 {
                    &&& r == Some(Ok::<usize, DecryptError>(n as usize))
                    &&& final(buf)@ == p.take(n) + old(buf)@.skip(n)
                    &&& final(self).decryptor().delivered() == old(self).decryptor().delivered() + p.take(n)
                } else {
                    &&& final(buf)@ == old(buf)@
                    &&& final(self).decryptor().delivered() == old(self).decryptor().delivered()
                    &&& r == (if old(buf)@.len() == 0 {
                        Some(Ok(0usize))
                    } else {
                        match old(self).decryptor().model().phase {
                            Phase::Done => Some(Ok(0usize)),
                            Phase::Failed { err } => Some(Err(err)),
                            _ => None,
                        }
                    })
                }
            }),
    {
        self.decryptor.read(buf)
    }
}

} // verus!
