//! The encryptor: turns writes into frames and holds the frame in flight until the
//! transport has taken all of it.
use vstd::prelude::*;
use crate::frame::{
    encrypt_goodbye, encrypt_packet, frame_bytes, frames_bytes, frames_sealed_ok,
    goodbye_bytes, goodbye_sealed_ok, valid_packet, MAX_PACKET_SIZE,
};
use crate::decryptor::{initial, run, Model, Phase};
use crate::frame::{flatten, stream_bytes};
use crate::nonce::{advance, Nonce};
use crate::secretbox::Key;

verus! {

/// Encrypts a plaintext stream. `write` turns plaintext into a frame, `pending` is the
/// part of the frame the transport has not taken yet, and `consume` records what it took.
pub struct Encryptor {
    key: Key,
    nonce: Nonce,
    frame: Vec<u8>,
    flushed: usize,
    closed: bool,
    start: Ghost<Seq<u8>>,
    chunks: Ghost<Seq<Seq<u8>>>,
}

impl Encryptor {
    /// The key the stream is written with.
    pub closed spec fn key(&self) -> Seq<u8> {
        self.key@
    }

    /// The nonce the stream started with.
    pub closed spec fn start(&self) -> Seq<u8> {
        self.start@
    }

    /// The nonce the next frame will use.
    pub closed spec fn nonce(&self) -> Seq<u8> {
        self.nonce@
    }

    /// The packets accepted so far, in order.
    pub closed spec fn chunks(&self) -> Seq<Seq<u8>> {
        self.chunks@
    }

    /// Whether the goodbye header was produced.
    pub closed spec fn closed(&self) -> bool {
        self.closed
    }

    /// Every wire byte produced so far, taken by the transport or not.
    pub open spec fn output(&self) -> Seq<u8> {
        frames_bytes(self.chunks(), self.start(), self.key()) + if self.closed() {
            goodbye_bytes(advance(self.start(), 2 * self.chunks().len()), self.key())
        } else {
            Seq::empty()
        }
    }

    /// The wire bytes of the last frame that the transport has not taken yet.
    pub closed spec fn pending(&self) -> Seq<u8> {
        self.frame@.skip(self.flushed as int)
    }

    pub closed spec fn wf(&self) -> bool {
        &&& self.nonce@.len() == 24
        &&& self.start@.len() == 24
        &&& self.flushed <= self.frame@.len()
        &&& self.frame@.len() <= self.output().len()
        &&& self.output().skip(self.output().len() - self.frame@.len()) == self.frame@
        &&& self.nonce@ == advance(self.start@, 2 * self.chunks@.len() + if self.closed { 2nat } else { 0nat })
        &&& frames_sealed_ok(self.chunks@, self.start@, self.key@)
        &&& forall|i: int| 0 <= i < self.chunks@.len() ==> valid_packet(#[trigger] self.chunks@[i])
        &&& self.closed ==> goodbye_sealed_ok(advance(self.start@, 2 * self.chunks@.len()), self.key@)
    }

    /// Once shut down, what the encryptor wrote is the stream of the packets it took and
    /// decodes to exactly their concatenation, followed by the authenticated end; the
    /// reader's nonce then equals the writer's.
    pub proof fn lemma_output_decodes(&self)
        requires
            self.wf(),
            self.closed(),
        ensures
            self.output() == stream_bytes(self.chunks(), self.start(), self.key()),
            run(initial(self.start()), self.output(), self.key()) == (Model {
                phase: Phase::Done,
                out: flatten(self.chunks()),
                nonce: self.nonce(),
            }),
    {
        crate::laws::lemma_round_trip(self.chunks(), self.start(), self.key());
    }

    /// An encryptor at the start of a stream written with `key` and `nonce`.
    pub fn new(key: Key, nonce: Nonce) -> (r: Encryptor)
        requires
            nonce@.len() == 24,
        ensures
            r.wf(),
            r.key() == key@,
            r.start() == nonce@,
            r.nonce() == nonce@,
            r.chunks() == Seq::<Seq<u8>>::empty(),
            !r.closed(),
            r.pending() == Seq::<u8>::empty(),
    {
        let ghost start = nonce@;
        let r = Encryptor {
            key,
            nonce,
            frame: Vec::new(),
            flushed: 0,
            closed: false,
            start: Ghost(start),
            chunks: Ghost(Seq::empty()),
        };
        assert(r.output() =~= Seq::<u8>::empty());
        assert(r.output().skip(0) =~= r.frame@);
        assert(r.pending() =~= Seq::<u8>::empty());
        r
    }

    /// The nonce the next frame will be sealed with.
    pub fn current_nonce(&self) -> (r: [u8; 24])
        ensures
            r@ == self.nonce(),
    {
        self.nonce.bytes
    }

    /// Whether the goodbye header was produced.
    pub fn is_closed(&self) -> (r: bool)
        ensures
            r == self.closed(),
    {
        self.closed
    }

    /// The wire bytes the transport still has to take.
    pub fn pending_bytes(&self) -> (r: &[u8])
        requires
            self.wf(),
        ensures
            r@ == self.pending(),
    {
        vstd::slice::slice_subrange(self.frame.as_slice(), self.flushed, self.frame.len())
    }

    /// Records that the transport took the first `n` pending bytes.
    pub fn consume(&mut self, n: usize)
        requires
            old(self).wf(),
            n <= old(self).pending().len(),
        ensures
            final(self).wf(),
            final(self).pending() == old(self).pending().skip(n as int),
            final(self).key() == old(self).key(),
            final(self).start() == old(self).start(),
            final(self).nonce() == old(self).nonce(),
            final(self).chunks() == old(self).chunks(),
            final(self).closed() == old(self).closed(),
    {
        let len = self.frame.len();
        assert(self.pending().len() == len - self.flushed);
        self.flushed = self.flushed + n;
        assert(self.pending() =~= old(self).pending().skip(n as int));
    }

    /// Encrypts the first `min(buf.len(), 4096)` bytes of `buf` as one packet and returns
    /// how many it took. An empty `buf` takes nothing and produces no frame. While the
    /// previous frame is still pending nothing is taken and `None` is returned.
    pub fn write(&mut self, buf: &[u8]) -> (r: Option<usize>)
        requires
            old(self).wf(),
            !old(self).closed(),
        ensures
            final(self).wf(),
            final(self).key() == old(self).key(),
            final(self).start() == old(self).start(),
            !final(self).closed(),
            buf@.len() == 0 ==> r == Some(0usize) && *final(self) == *old(self),
            buf@.len() > 0 && old(self).pending().len() > 0 ==> r is None && *final(self) == *old(self),
            buf@.len() > 0 && old(self).pending().len() == 0 ==> {
                let n = vstd::math::min(buf@.len() as int, 4096);
                let p = buf@.take(n);
                &&& r == Some(n as usize)
                &&& final(self).chunks() == old(self).chunks().push(p)
                &&& final(self).pending() == frame_bytes(p, old(self).nonce(), old(self).key())
                &&& final(self).pending().len() == 34 + n
                &&& final(self).nonce() == advance(old(self).nonce(), 2)
            },
    {
        if buf.len() == 0 {
            return Some(0);
        }
        if self.flushed < self.frame.len() {
            return None;
        }
        let n: usize = if buf.len() < MAX_PACKET_SIZE { buf.len() } else { MAX_PACKET_SIZE };
        let p = vstd::slice::slice_subrange(buf, 0, n);
        assert(p@ =~= buf@.take(n as int));
        let ghost old_nonce = self.nonce@;
        let ghost old_out = self.output();
        let ghost old_chunks = self.chunks@;
        let frame = encrypt_packet(p, &self.key, &mut self.nonce);
        self.frame = frame;
        self.flushed = 0;
        self.chunks = Ghost(old_chunks.push(p@));
        proof {
            let k = self.key@;
            let cs = self.chunks@;
            assert(cs.drop_last() =~= old_chunks);
            assert(old_nonce == advance(self.start@, 2 * (cs.len() - 1) as nat));
            assert(self.output() =~= old_out + frame@);
            assert(self.output().skip(self.output().len() - self.frame@.len()) =~= self.frame@);
            crate::nonce::lemma_advance_add(self.start@, 2 * old_chunks.len(), 2);
            assert forall|i: int| 0 <= i < cs.len() implies
                #[trigger] crate::frame::frame_sealed_ok(cs[i], advance(self.start@, 2 * i as nat), k) by {
                if i < old_chunks.len() {
                    assert(cs[i] == old_chunks[i]);
                }
            }
            assert forall|i: int| 0 <= i < cs.len() implies valid_packet(#[trigger] cs[i]) by {
                if i < old_chunks.len() {
                    assert(cs[i] == old_chunks[i]);
                }
            }
            assert(self.pending() =~= frame@);
        }
        Some(n)
    }

    /// Produces the goodbye header once the last frame is fully taken, and returns
    /// whether it was produced (or already had been). When it returns `true` and
    /// `pending` is empty again, the transport can be closed.
    pub fn shutdown(&mut self) -> (r: bool)
        requires
            old(self).wf(),
        ensures
            final(self).wf(),
            final(self).key() == old(self).key(),
            final(self).start() == old(self).start(),
            final(self).chunks() == old(self).chunks(),
            r == (old(self).closed() || old(self).pending().len() == 0),
            !r ==> *final(self) == *old(self),
            old(self).closed() ==> *final(self) == *old(self),
            r ==> final(self).closed(),
            r ==> final(self).nonce() == advance(final(self).start(), 2 * (final(self).chunks().len() + 1)),
            r && !old(self).closed() ==> final(self).pending() == goodbye_bytes(old(self).nonce(), old(self).key()),
            r && !old(self).closed() ==> final(self).pending().len() == 34,
    {
        if self.closed {
            return true;
        }
        if self.flushed < self.frame.len() {
            return false;
        }
        let ghost old_out = self.output();
        let frame = encrypt_goodbye(&self.key, &mut self.nonce);
        self.frame = frame;
        self.flushed = 0;
        self.closed = true;
        proof {
            crate::nonce::lemma_advance_add(self.start@, 2 * self.chunks@.len(), 2);
            assert(self.output() =~= old_out + frame@);
            assert(self.output().skip(self.output().len() - self.frame@.len()) =~= self.frame@);
            assert(self.pending() =~= frame@);
        }
        true
    }
}

} // verus!
