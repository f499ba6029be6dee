//! The decryptor: a state machine that turns cipherstream bytes into plaintext.
//!
//! It is specified byte by byte: `run` gives the state reached after any sequence of
//! wire bytes, so how the bytes were split into calls of `feed` does not matter.
use vstd::prelude::*;
use crate::bytes::append_range;
use crate::frame::{
    classify_header, declared_len, flatten, frame_bytes, frames_bytes, goodbye_bytes, header_plain,
    lemma_header_plain_of, stream_bytes, valid_packet, HeaderKind, HEADER_BYTES,
};
use crate::nonce::{Nonce, advance, lemma_advance_add, next_nonce, zeros};
use crate::secretbox::{Key, open, secretbox_opened, secretbox_sealed};

verus! {

/// The fatal errors of a decryptor. Each one is sticky.
#[derive(PartialEq, Eq, Structural, Clone, Copy, Debug)]
pub enum DecryptError {
    /// A header opened, was not the goodbye, and declared a length of 0 or over 4096.
    InvalidLength,
    /// A header's tag did not verify.
    UnauthenticatedHeader,
    /// A body's tag did not verify.
    UnauthenticatedPacket,
    /// The transport ended before a goodbye header was read.
    UnauthenticatedEof,
}

/// Where the decryptor stands in the cipherstream, with the bytes gathered so far.
pub enum Phase {
    /// Gathering a 34-byte header.
    Header { got: Seq<u8> },
    /// Gathering a body of `len` bytes whose tag is `tag`.
    Body { len: nat, tag: Seq<u8>, got: Seq<u8> },
    /// The goodbye header was read: the stream ended with authentication.
    Done,
    /// A fatal error occurred.
    Failed { err: DecryptError },
}

/// The abstract state of a decryptor: its phase, all plaintext decrypted so far, and
/// the nonce it will use next.
pub struct Model {
    pub phase: Phase,
    pub out: Seq<u8>,
    pub nonce: Seq<u8>,
}

/// The state at the start of a stream read with nonce `n`.
pub open spec fn initial(n: Seq<u8>) -> Model {
    Model { phase: Phase::Header { got: Seq::empty() }, out: Seq::empty(), nonce: n }
}

/// The state after a complete header `h` was read.
pub open spec fn after_header(m: Model, h: Seq<u8>, k: Seq<u8>) -> Model {
    match secretbox_opened(h, m.nonce, k) {
        None => Model { phase: Phase::Failed { err: DecryptError::UnauthenticatedHeader }, ..m },
        Some(hp) => if hp == zeros(18) {
            Model { phase: Phase::Done, nonce: advance(m.nonce, 2), ..m }
        } else if declared_len(hp) == 0 || declared_len(hp) > 4096 {
            Model { phase: Phase::Failed { err: DecryptError::InvalidLength }, ..m }
        } else {
            Model {
                phase: Phase::Body { len: declared_len(hp), tag: hp.skip(2), got: Seq::empty() },
                nonce: next_nonce(m.nonce),
                ..m
            }
        },
    }
}

/// The state after a complete body `b` with tag `tag` was read.
pub open spec fn after_body(m: Model, tag: Seq<u8>, b: Seq<u8>, k: Seq<u8>) -> Model {
    match secretbox_opened(tag + b, m.nonce, k) {
        None => Model { phase: Phase::Failed { err: DecryptError::UnauthenticatedPacket }, ..m },
        Some(p) => Model {
            phase: Phase::Header { got: Seq::empty() },
            out: m.out + p,
            nonce: next_nonce(m.nonce),
        },
    }
}

/// The state after one more wire byte `b`.
pub open spec fn step(m: Model, b: u8, k: Seq<u8>) -> Model {
    match m.phase {
        Phase::Header { got } => if got.len() + 1 == 34 {
            after_header(m, got.push(b), k)
        } else {
            Model { phase: Phase::Header { got: got.push(b) }, ..m }
        },
        Phase::Body { len, tag, got } => if got.len() + 1 == len {
            after_body(m, tag, got.push(b), k)
        } else {
            Model { phase: Phase::Body { len, tag, got: got.push(b) }, ..m }
        },
        _ => m,
    }
}

/// The state after the wire bytes `w`, one by one.
pub open spec fn run(m: Model, w: Seq<u8>, k: Seq<u8>) -> Model
    decreases w.len(),
{
    if w.len() == 0 {
        m
    } else {
        step(run(m, w.drop_last(), k), w.last(), k)
    }
}

/// The state after the transport ends: mid-stream, that is an unauthenticated end.
pub open spec fn at_eof(m: Model) -> Model {
    match m.phase {
        Phase::Header { .. } => Model { phase: Phase::Failed { err: DecryptError::UnauthenticatedEof }, ..m },
        Phase::Body { .. } => Model { phase: Phase::Failed { err: DecryptError::UnauthenticatedEof }, ..m },
        _ => m,
    }
}

/// How many wire bytes complete the header or body being gathered.
pub open spec fn wanted_of(p: Phase) -> nat {
    match p {
        Phase::Header { got } => (34 - got.len()) as nat,
        Phase::Body { len, got, .. } => (len - got.len()) as nat,
        _ => 0,
    }
}

/// The phase is one the decryptor can be in.
pub open spec fn phase_ok(p: Phase) -> bool {
    match p {
        Phase::Header { got } => got.len() < 34,
        Phase::Body { len, tag, got } => 0 < len <= 4096 && got.len() < len && tag.len() == 16,
        _ => true,
    }
}

/// Bytes that only gather (without completing a header or body) are appended.
pub proof fn lemma_run_gathers(m: Model, w: Seq<u8>, k: Seq<u8>)
    requires
        phase_ok(m.phase),
        w.len() < wanted_of(m.phase),
    ensures
        run(m, w, k) == (match m.phase {
            Phase::Header { got } => Model { phase: Phase::Header { got: got + w }, ..m },
            Phase::Body { len, tag, got } => Model { phase: Phase::Body { len, tag, got: got + w }, ..m },
            _ => m,
        }),
    decreases w.len(),
{
    if w.len() > 0 {
        lemma_run_gathers(m, w.drop_last(), k);
        match m.phase {
            Phase::Header { got } => {
                assert(got + w.drop_last() + seq![w.last()] =~= got + w);
                assert((got + w.drop_last()).push(w.last()) =~= got + w);
            },
            Phase::Body { len, tag, got } => {
                assert((got + w.drop_last()).push(w.last()) =~= got + w);
            },
            _ => {},
        }
    } else {
        match m.phase {
            Phase::Header { got } => {
                assert(got + w =~= got);
            },
            Phase::Body { len, tag, got } => {
                assert(got + w =~= got);
            },
            _ => {},
        }
    }
}

/// After the authenticated end or a fatal error, further wire bytes change nothing:
/// the end stays the end and the error stays the same error, no more bytes are asked
/// for, and the transport ending changes nothing either.
pub proof fn lemma_run_final(m: Model, w: Seq<u8>, k: Seq<u8>)
    requires
        m.phase is Done || m.phase is Failed,
    ensures
        run(m, w, k) == m,
        at_eof(m) == m,
        wanted_of(m.phase) == 0,
    decreases w.len(),
{
    if w.len() > 0 {
        lemma_run_final(m, w.drop_last(), k);
    }
}

/// Running over `a + b` is running over `a`, then over `b`.
pub proof fn lemma_run_concat(m: Model, a: Seq<u8>, b: Seq<u8>, k: Seq<u8>)
    ensures
        run(m, a + b, k) == run(run(m, a, k), b, k),
    decreases b.len(),
{
    if b.len() == 0 {
        assert(a + b =~= a);
    } else {
        lemma_run_concat(m, a, b.drop_last(), k);
        assert((a + b).drop_last() =~= a + b.drop_last());
        assert((a + b).last() == b.last());
    }
}

enum State {
    ReadingHeader,
    ReadingBody { len: usize },
    Buffering { offset: usize },
    Done,
    Errored { err: DecryptError },
}

/// Decrypts a cipherstream. The caller hands it the wire bytes it asks for, with
/// `feed`, and takes plaintext out with `read`.
pub struct Decryptor {
    key: Key,
    nonce: Nonce,
    state: State,
    /// The header gathered so far.
    header: Vec<u8>,
    /// The body's tag followed by the body gathered so far.
    body: Vec<u8>,
    /// The last decrypted packet.
    plain: Vec<u8>,
    delivered: Ghost<Seq<u8>>,
    /// The nonce the stream started with.
    start: Ghost<Seq<u8>>,
    /// Every wire byte taken so far.
    taken: Ghost<Seq<u8>>,
    /// The packets decrypted so far.
    chunks: Ghost<Seq<Seq<u8>>>,
    /// The last complete header, while its body is gathered.
    hdr: Ghost<Seq<u8>>,
}

impl Decryptor {
    /// The key the stream is read with.
    pub closed spec fn key(&self) -> Seq<u8> {
        self.key@
    }

    /// The plaintext already handed out by `read`.
    pub closed spec fn delivered(&self) -> Seq<u8> {
        self.delivered@
    }

    /// The abstract state.
    pub closed spec fn model(&self) -> Model {
        Model {
            phase: match self.state {
                State::ReadingHeader => Phase::Header { got: self.header@ },
                State::ReadingBody { len } => Phase::Body {
                    len: len as nat,
                    tag: self.body@.take(16),
                    got: self.body@.skip(16),
                },
                State::Buffering { .. } => Phase::Header { got: Seq::empty() },
                State::Done => Phase::Done,
                State::Errored { err } => Phase::Failed { err },
            },
            out: match self.state {
                State::Buffering { offset } => self.delivered@ + self.plain@.skip(offset as int),
                _ => self.delivered@,
            },
            nonce: self.nonce@,
        }
    }

    /// Decrypted plaintext not yet handed out.
    pub open spec fn pending(&self) -> Seq<u8> {
        self.model().out.skip(self.delivered().len() as int)
    }

    /// The nonce the stream started with.
    pub closed spec fn start(&self) -> Seq<u8> {
        self.start@
    }

    /// Every wire byte taken by `feed` so far.
    pub closed spec fn taken(&self) -> Seq<u8> {
        self.taken@
    }

    /// The packets decrypted so far, in order.
    pub closed spec fn chunks(&self) -> Seq<Seq<u8>> {
        self.chunks@
    }

    /// What was taken is the genuine encoding of the packets decrypted so far, followed by
    /// the part of the frame being gathered.
    closed spec fn sound(&self) -> bool {
        let k = self.key@;
        let c = self.chunks@;
        let f = frames_bytes(c, self.start@, k);
        let nh = advance(self.start@, 2 * c.len());
        &&& self.start@.len() == 24
        &&& forall|i: int| 0 <= i < c.len() ==> valid_packet(#[trigger] c[i])
        &&& match self.state {
            State::ReadingHeader => {
                &&& self.taken@ == f + self.header@
                &&& self.nonce@ == nh
                &&& self.delivered@ == flatten(c)
            },
            State::ReadingBody { len } => {
                &&& self.taken@ == f + self.hdr@ + self.body@.skip(16)
                &&& self.nonce@ == next_nonce(nh)
                &&& secretbox_sealed(header_plain(len as nat, self.body@.take(16)), nh, k) == self.hdr@
                &&& self.delivered@ == flatten(c)
            },
            State::Buffering { offset } => {
                &&& self.taken@ == f
                &&& self.nonce@ == nh
                &&& self.delivered@ + self.plain@.skip(offset as int) == flatten(c)
            },
            State::Done => {
                &&& self.taken@ == f + goodbye_bytes(nh, k)
                &&& self.nonce@ == advance(nh, 2)
                &&& self.delivered@ == flatten(c)
            },
            _ => true,
        }
    }

    pub closed spec fn wf(&self) -> bool {
        &&& self.nonce@.len() == 24
        &&& self.sound()
        &&& match self.state {
            State::ReadingHeader => self.header@.len() < 34,
            State::ReadingBody { len } => {
                &&& 0 < len <= 4096
                &&& 16 <= self.body@.len() < 16 + len
                &&& self.header@.len() == 0
            },
            State::Buffering { offset } => offset < self.plain@.len() && self.header@.len() == 0,
            _ => true,
        }
    }

    proof fn lemma_wf_facts(&self)
        requires
            self.wf(),
        ensures
            phase_ok(self.model().phase),
            self.model().out.take(self.delivered().len() as int) == self.delivered(),
            self.model().nonce.len() == 24,
            self.pending().len() > 0 <==> self.state is Buffering,
    {
        assert(self.model().out.take(self.delivered().len() as int) =~= self.delivered());
    }

    /// Only genuine frames yield plaintext: unless it has failed, the decryptor has taken
    /// the exact encoding (under its key, from its start nonce) of the packets it
    /// decrypted, and its plaintext is their concatenation. Once the goodbye header is
    /// read, what it took is exactly the whole stream an encryptor writes for them. So a
    /// stream altered in any bit is only accepted if the altered bytes are themselves a
    /// genuine encoding, which would take a forgery against the cipher.
    pub proof fn lemma_accepted_is_genuine(&self)
        requires
            self.wf(),
            !(self.model().phase is Failed),
        ensures
            forall|i: int| 0 <= i < self.chunks().len() ==> valid_packet(#[trigger] self.chunks()[i]),
            self.model().out == flatten(self.chunks()),
            self.taken().take(frames_bytes(self.chunks(), self.start(), self.key()).len() as int)
                == frames_bytes(self.chunks(), self.start(), self.key()),
            self.model().phase is Done ==> {
                &&& self.taken() == stream_bytes(self.chunks(), self.start(), self.key())
                &&& self.model().nonce == advance(self.start(), 2 * (self.chunks().len() + 1))
            },
    {
        let f = frames_bytes(self.chunks@, self.start@, self.key@);
        assert(self.taken@.take(f.len() as int) =~= f);
        if self.state is Done {
            lemma_advance_add(self.start@, 2 * self.chunks@.len(), 2);
        }
        if let State::Buffering { offset } = self.state {
            assert(self.model().out == self.delivered@ + self.plain@.skip(offset as int));
        }
    }

    /// A decryptor at the start of a stream read with `key` and `nonce`.
    pub fn new(key: Key, nonce: Nonce) -> (r: Decryptor)
        ensures
            r.wf(),
            r.model() == initial(nonce@),
            r.key() == key@,
            r.delivered() == Seq::<u8>::empty(),
            r.taken() == Seq::<u8>::empty(),
            r.start() == nonce@,
    {
        let r = Decryptor {
            key,
            nonce,
            state: State::ReadingHeader,
            header: Vec::new(),
            body: Vec::new(),
            plain: Vec::new(),
            delivered: Ghost(Seq::empty()),
            start: Ghost(nonce@),
            taken: Ghost(Seq::empty()),
            chunks: Ghost(Seq::empty()),
            hdr: Ghost(Seq::empty()),
        };
        assert(r.taken@ =~= frames_bytes(r.chunks@, r.start@, r.key@) + r.header@);
        assert(flatten(r.chunks@) =~= Seq::<u8>::empty());
        assert(r.model().phase == (Phase::Header { got: Seq::empty() }));
        r
    }

    /// The nonce the next header or body will be opened with.
    pub fn current_nonce(&self) -> (r: [u8; 24])
        ensures
            r@ == self.model().nonce,
    {
        self.nonce.bytes
    }

    /// How many wire bytes the decryptor takes next: none while plaintext waits to be
    /// read or once the stream has ended or failed.
    pub fn wanted(&self) -> (r: usize)
        requires
            self.wf(),
        ensures
            r == (if self.pending().len() > 0 { 0 } else { wanted_of(self.model().phase) }),
    {
        proof { self.lemma_wf_facts(); }
        match self.state {
            State::ReadingHeader => HEADER_BYTES - self.header.len(),
            State::ReadingBody { len } => len + 16 - self.body.len(),
            _ => 0,
        }
    }

    /// Opens the complete header and moves on as `after_header` says.
    fn finish_header(&mut self)
        requires
            old(self).state is ReadingHeader,
            old(self).header@.len() == 34,
            old(self).nonce@.len() == 24,
            old(self).sound(),
        ensures
            final(self).wf(),
            final(self).taken() == old(self).taken(),
            final(self).start() == old(self).start(),
            final(self).model() == after_header(
                Model { phase: Phase::Header { got: Seq::empty() }, ..old(self).model() },
                old(self).header@,
                old(self).key(),
            ),
            final(self).delivered() == old(self).delivered(),
            final(self).key() == old(self).key(),
    {
        let r = open(self.header.as_slice(), &self.nonce.bytes, &self.key.bytes);
        self.hdr = Ghost(self.header@);
        self.header.clear();
        let ghost k = self.key@;
        let ghost c = self.chunks@;
        let ghost f = frames_bytes(c, self.start@, k);
        match r {
            Err(_) => {
                self.state = State::Errored { err: DecryptError::UnauthenticatedHeader };
            },
            Ok(hp) => {
                match classify_header(hp.as_slice()) {
                    HeaderKind::Goodbye => {
                        self.nonce.increment();
                        self.nonce.increment();
                        assert(advance(old(self).nonce@, 2) == next_nonce(next_nonce(old(self).nonce@))) by {
                            reveal_with_fuel(advance, 3);
                        }
                        self.state = State::Done;
                        assert(hp@ =~= zeros(18));
                        assert(self.taken@ =~= f + old(self).header@);
                    },
                    HeaderKind::InvalidLength => {
                        self.state = State::Errored { err: DecryptError::InvalidLength };
                    },
                    HeaderKind::Packet { len } => {
                        self.nonce.increment();
                        self.body.clear();
                        append_range(&mut self.body, hp.as_slice(), 2, 18);
                        assert(self.body@ =~= hp@.skip(2));
                        assert(self.body@.take(16) =~= hp@.skip(2));
                        assert(self.body@.skip(16) =~= Seq::<u8>::empty());
                        self.state = State::ReadingBody { len };
                        proof { lemma_header_plain_of(hp@); }
                        assert(self.taken@ =~= f + self.hdr@ + self.body@.skip(16));
                    },
                }
            },
        }
    }

    /// Opens the complete body and moves on as `after_body` says.
    fn finish_body(&mut self)
        requires
            old(self).nonce@.len() == 24,
            old(self).header@.len() == 0,
            old(self).state matches State::ReadingBody { len } && old(self).body@.len() == 16 + len
                && 0 < len <= 4096,
            old(self).sound(),
        ensures
            final(self).wf(),
            final(self).taken() == old(self).taken(),
            final(self).start() == old(self).start(),
            final(self).model() == after_body(
                Model { phase: Phase::Header { got: Seq::empty() }, ..old(self).model() },
                old(self).body@.take(16),
                old(self).body@.skip(16),
                old(self).key(),
            ),
            final(self).delivered() == old(self).delivered(),
            final(self).key() == old(self).key(),
    {
        assert(old(self).body@ =~= old(self).body@.take(16) + old(self).body@.skip(16));
        let r = open(self.body.as_slice(), &self.nonce.bytes, &self.key.bytes);
        match r {
            Err(_) => {
                self.state = State::Errored { err: DecryptError::UnauthenticatedPacket };
            },
            Ok(p) => {
                let ghost k = self.key@;
                let ghost c = self.chunks@;
                let ghost nh = advance(self.start@, 2 * c.len());
                self.nonce.increment();
                self.plain = p;
                self.state = State::Buffering { offset: 0 };
                assert(self.plain@.skip(0) =~= self.plain@);
                self.chunks = Ghost(c.push(p@));
                proof {
                    let c2 = self.chunks@;
                    assert(c2.drop_last() =~= c);
                    assert(flatten(c2) == flatten(c) + p@);
                    assert(crate::frame::sealed_body(p@, nh, k) == old(self).body@);
                    assert(crate::frame::packet_header_plain(p@, nh, k) == header_plain(p@.len(), old(self).body@.take(16)));
                    assert(frame_bytes(p@, nh, k) =~= old(self).hdr@ + old(self).body@.skip(16));
                    assert(self.taken@ =~= frames_bytes(c2, self.start@, k));
                    lemma_advance_add(self.start@, 2 * c.len(), 2);
                    assert(advance(nh, 2) == next_nonce(next_nonce(nh))) by {
                        reveal_with_fuel(advance, 3);
                    }
                    assert forall|i: int| 0 <= i < c2.len() implies valid_packet(#[trigger] c2[i]) by {
                        if i < c.len() {
                            assert(c2[i] == c[i]);
                        }
                    }
                }
            },
        }
    }

    /// Takes up to `wanted()` bytes of `data` as the next wire bytes and returns how many
    /// it took. A header or body that these bytes complete is opened at once.
    #[verifier::rlimit(40)]
    pub fn feed(&mut self, data: &[u8]) -> (r: usize)
        requires
            old(self).wf(),
        ensures
            final(self).wf(),
            r as nat == (if old(self).pending().len() > 0 { 0 } else {
                vstd::math::min(data@.len() as int, wanted_of(old(self).model().phase) as int) as nat
            }),
            final(self).model() == run(old(self).model(), data@.take(r as int), old(self).key()),
            final(self).delivered() == old(self).delivered(),
            final(self).key() == old(self).key(),
            final(self).start() == old(self).start(),
            final(self).taken() == old(self).taken() + data@.take(r as int),
    {
        proof { self.lemma_wf_facts(); }
        let ghost m = self.model();
        let ghost k = self.key();
        let want = self.wanted();
        let n: usize = if data.len() < want { data.len() } else { want };
        if n == 0 {
            assert(data@.take(0) =~= Seq::<u8>::empty());
            assert(self.taken@ + data@.take(0) =~= self.taken@);
            return 0;
        }
        let ghost w = data@.take(n as int);
        self.taken = Ghost(self.taken@ + w);
        match self.state {
            State::ReadingHeader => {
                if n < want {
                    proof { lemma_run_gathers(m, w, k); }
                    append_range(&mut self.header, data, 0, n);
                    assert(data@.subrange(0, n as int) =~= w);
                    assert(self.taken@ =~= frames_bytes(self.chunks@, self.start@, self.key@) + self.header@);
                } else {
                    proof { lemma_run_gathers(m, w.drop_last(), k); }
                    append_range(&mut self.header, data, 0, n);
                    assert(data@.subrange(0, n as int) =~= w);
                    assert(self.taken@ =~= frames_bytes(self.chunks@, self.start@, self.key@) + self.header@);
                    assert(self.header@ =~= (old(self).header@ + w.drop_last()).push(w.last()));
                    self.finish_header();
                }
            },
            State::ReadingBody { len } => {
                if n < want {
                    proof { lemma_run_gathers(m, w, k); }
                    append_range(&mut self.body, data, 0, n);
                    assert(data@.subrange(0, n as int) =~= w);
                    assert(self.body@.take(16) =~= old(self).body@.take(16));
                    assert(self.body@.skip(16) =~= old(self).body@.skip(16) + w);
                    assert(self.taken@ =~= frames_bytes(self.chunks@, self.start@, self.key@) + self.hdr@ + self.body@.skip(16));
                    assert(self.body@.skip(16) =~= old(self).body@.skip(16) + w);
                } else {
                    proof { lemma_run_gathers(m, w.drop_last(), k); }
                    append_range(&mut self.body, data, 0, n);
                    assert(data@.subrange(0, n as int) =~= w);
                    assert(self.body@.take(16) =~= old(self).body@.take(16));
                    assert(self.body@.skip(16) =~= old(self).body@.skip(16) + w);
                    assert(self.taken@ =~= frames_bytes(self.chunks@, self.start@, self.key@) + self.hdr@ + self.body@.skip(16));
                    assert(self.body@.skip(16) =~= (old(self).body@.skip(16) + w.drop_last()).push(w.last()));
                    self.finish_body();
                }
            },
            _ => {},
        }
        n
    }

    /// Records that the transport ended. While a header or body is awaited (that is,
    /// before the goodbye header), this is the fatal error `UnauthenticatedEof`.
    pub fn end_of_input(&mut self)
        requires
            old(self).wf(),
        ensures
            final(self).wf(),
            final(self).model() == (if old(self).pending().len() > 0 { old(self).model() } else {
                at_eof(old(self).model())
            }),
            final(self).delivered() == old(self).delivered(),
            final(self).key() == old(self).key(),
            final(self).start() == old(self).start(),
            final(self).taken() == old(self).taken(),
            final(self).chunks() == old(self).chunks(),
    {
        proof { self.lemma_wf_facts(); }
        match self.state {
            State::ReadingHeader => {
                self.state = State::Errored { err: DecryptError::UnauthenticatedEof };
            },
            State::ReadingBody { .. } => {
                self.state = State::Errored { err: DecryptError::UnauthenticatedEof };
            },
            _ => {},
        }
    }

    /// Hands out decrypted plaintext into `buf`.
    ///
    /// An empty `buf` gets `Some(Ok(0))`. Otherwise: waiting plaintext is copied, as much
    /// as fits; after the goodbye header, `Some(Ok(0))` (the authenticated end), again on
    /// every call; after a fatal error, that error, again on every call. `None` means
    /// that the decryptor needs more wire bytes first (see `wanted` and `feed`).
    pub fn read(&mut self, buf: &mut [u8]) -> (r: Option<Result<usize, DecryptError>>)
        requires
            old(self).wf(),
        ensures
            final(self).wf(),
            final(self).key() == old(self).key(),
            final(self).model() == old(self).model(),
            final(self).start() == old(self).start(),
            final(self).taken() == old(self).taken(),
            final(self).chunks() == old(self).chunks(),
            final(buf)@.len() == old(buf)@.len(),
            ({
                let p = old(self).pending();
                let n = vstd::math::min(old(buf)@.len() as int, p.len() as int);
                if old(buf)@.len() > 0 && p.len() > 0 {
                    &&& r == Some(Ok::<usize, DecryptError>(n as usize))
                    &&& final(buf)@ == p.take(n) + old(buf)@.skip(n)
                    &&& final(self).delivered() == old(self).delivered() + p.take(n)
                } else {
                    &&& final(buf)@ == old(buf)@
                    &&& final(self).delivered() == old(self).delivered()
                    &&& r == (if old(buf)@.len() == 0 {
                        Some(Ok(0usize))
                    } else {
                        match old(self).model().phase {
                            Phase::Done => Some(Ok(0usize)),
                            Phase::Failed { err } => Some(Err(err)),
                            _ => None,
                        }
                    })
                }
            }),
    {
        proof { self.lemma_wf_facts(); }
        if buf.len() == 0 {
            return Some(Ok(0));
        }
        match self.state {
            State::Buffering { offset } => {
                let avail = self.plain.len() - offset;
                let n: usize = if buf.len() < avail { buf.len() } else { avail };
                let ghost p = self.plain@.skip(offset as int);
                assert(old(self).pending() =~= p);
                let mut i: usize = 0;
                while i < n
                    invariant
                        0 <= i <= n <= buf@.len(),
                        n <= avail,
                        offset + avail == self.plain@.len(),
                        self.plain@.len() <= usize::MAX,
                        p == self.plain@.skip(offset as int),
                        buf@.len() == old(buf)@.len(),
                        buf@ == p.take(i as int) + old(buf)@.skip(i as int),
                    decreases n - i,
                {
                    buf[i] = self.plain[offset + i];
                    assert(buf@ =~= p.take(i + 1) + old(buf)@.skip(i + 1));
                    i = i + 1;
                }
                self.delivered = Ghost(self.delivered@ + p.take(n as int));
                if offset + n == self.plain.len() {
                    self.state = State::ReadingHeader;
                    assert(p.take(n as int) =~= p);
                    assert(self.header@ =~= Seq::<u8>::empty());
                } else {
                    self.state = State::Buffering { offset: offset + n };
                    assert(self.plain@.skip(offset + n) =~= p.skip(n as int));
                    assert(old(self).delivered() + p =~= old(self).delivered() + p.take(n as int) + p.skip(n as int));
                }
                Some(Ok(n))
            },
            State::Done => Some(Ok(0)),
            State::Errored { err } => Some(Err(err)),
            _ => None,
        }
    }
}

} // verus!
