//! What holds of the encoder and decoder together.
use vstd::prelude::*;
use crate::decryptor::{
    after_body, at_eof, initial, lemma_run_concat, lemma_run_gathers, run, DecryptError, Model,
    Phase,
};
use crate::frame::{
    flatten, frame_bytes, frame_sealed_ok, frames_bytes, frames_sealed_ok, goodbye_bytes,
    goodbye_sealed_ok, header_plain, packet_header_plain, sealed_body, stream_bytes, valid_packet,
};
use crate::nonce::{advance, be_value, lemma_advance_add, lemma_advance_value, next_nonce, pow256, zeros};
use crate::secretbox::secretbox_sealed;

verus! {

proof fn lemma_header_plain_len(p: Seq<u8>, tag: Seq<u8>)
    requires
        valid_packet(p),
        tag.len() == 16,
    ensures
        header_plain(p.len(), tag) != zeros(18),
        crate::frame::declared_len(header_plain(p.len(), tag)) == p.len(),
        header_plain(p.len(), tag).skip(2) == tag,
{
    let hp = header_plain(p.len(), tag);
    let l = p.len();
    assert(hp[0] == (l / 256) as u8);
    assert(hp[1] == (l % 256) as u8);
    assert(hp.skip(2) =~= tag);
    if hp == zeros(18) {
        assert(hp[0] == zeros(18)[0]);
        assert(hp[1] == zeros(18)[1]);
    }
}

/// A state waiting for a header, fed a whole frame of packet `p`, appends `p` to the
/// plaintext and is waiting for the next header, two nonces on.
pub proof fn lemma_frame_decodes(m: Model, p: Seq<u8>, k: Seq<u8>)
    requires
        m.phase == (Phase::Header { got: Seq::empty() }),
        valid_packet(p),
        frame_sealed_ok(p, m.nonce, k),
    ensures
        run(m, frame_bytes(p, m.nonce, k), k) == (Model {
            phase: Phase::Header { got: Seq::empty() },
            out: m.out + p,
            nonce: advance(m.nonce, 2),
        }),
{
    let n = m.nonce;
    let body = sealed_body(p, n, k);
    let hp = packet_header_plain(p, n, k);
    let h = secretbox_sealed(hp, n, k);
    let b = body.skip(16);
    lemma_header_plain_len(p, body.take(16));
    lemma_run_concat(m, h, b, k);
    lemma_run_gathers(m, h.drop_last(), k);
    assert(Seq::<u8>::empty() + h.drop_last() =~= h.drop_last());
    assert(h.drop_last().push(h.last()) =~= h);
    let m1 = Model {
        phase: Phase::Body { len: p.len(), tag: body.take(16), got: Seq::empty() },
        nonce: next_nonce(n),
        ..m
    };
    assert(run(m, h, k) == m1);
    lemma_run_gathers(m1, b.drop_last(), k);
    assert(Seq::<u8>::empty() + b.drop_last() =~= b.drop_last());
    assert(b.drop_last().push(b.last()) =~= b);
    assert(body.take(16) + b =~= body);
    assert(run(m1, b, k) == after_body(m1, body.take(16), b, k));
    assert(advance(n, 2) == next_nonce(next_nonce(n))) by {
        reveal_with_fuel(advance, 3);
    }
}

/// A state waiting for a header, fed the goodbye header, has ended with authentication,
/// two nonces on.
pub proof fn lemma_goodbye_decodes(m: Model, k: Seq<u8>)
    requires
        m.phase == (Phase::Header { got: Seq::empty() }),
        goodbye_sealed_ok(m.nonce, k),
    ensures
        run(m, goodbye_bytes(m.nonce, k), k) == (Model { phase: Phase::Done, nonce: advance(m.nonce, 2), ..m }),
{
    let h = goodbye_bytes(m.nonce, k);
    lemma_run_gathers(m, h.drop_last(), k);
    assert(Seq::<u8>::empty() + h.drop_last() =~= h.drop_last());
    assert(h.drop_last().push(h.last()) =~= h);
}

/// The packets `chunks`, sealed from nonce `n` on, decode to their concatenation, and the
/// decoder then waits for the next header with the nonce `2 * chunks.len()` further on.
pub proof fn lemma_frames_decode(chunks: Seq<Seq<u8>>, n: Seq<u8>, k: Seq<u8>)
    requires
        forall|i: int| 0 <= i < chunks.len() ==> valid_packet(#[trigger] chunks[i]),
        frames_sealed_ok(chunks, n, k),
    ensures
        run(initial(n), frames_bytes(chunks, n, k), k) == (Model {
            phase: Phase::Header { got: Seq::empty() },
            out: flatten(chunks),
            nonce: advance(n, 2 * chunks.len()),
        }),
    decreases chunks.len(),
{
    if chunks.len() > 0 {
        let prev = chunks.drop_last();
        let last_n = advance(n, 2 * (chunks.len() - 1) as nat);
        assert forall|i: int| 0 <= i < prev.len() implies valid_packet(#[trigger] prev[i]) by {
            assert(prev[i] == chunks[i]);
        }
        assert forall|i: int| 0 <= i < prev.len() implies
            #[trigger] frame_sealed_ok(prev[i], advance(n, 2 * i as nat), k) by {
            assert(prev[i] == chunks[i]);
            assert(frame_sealed_ok(chunks[i], advance(n, 2 * i as nat), k));
        }
        lemma_frames_decode(prev, n, k);
        lemma_run_concat(initial(n), frames_bytes(prev, n, k), frame_bytes(chunks.last(), last_n, k), k);
        assert(valid_packet(chunks[chunks.len() - 1]));
        assert(frame_sealed_ok(chunks[chunks.len() - 1], advance(n, 2 * (chunks.len() - 1) as nat), k));
        lemma_frame_decodes(run(initial(n), frames_bytes(prev, n, k), k), chunks.last(), k);
        lemma_advance_add(n, 2 * (chunks.len() - 1) as nat, 2);
    } else {
        assert(flatten(chunks) =~= Seq::<u8>::empty());
    }
}

/// Round trip: the stream written as the packets `chunks` from nonce `n` decodes to the
/// concatenation of the packets, however the plaintext was cut into packets, followed by
/// the authenticated end; the reader's nonce has then moved on by two for each packet
/// and two for the goodbye header. The cipher must have sealed each frame as it promises,
/// which `Encryptor` guarantees of everything it writes.
pub proof fn lemma_round_trip(chunks: Seq<Seq<u8>>, n: Seq<u8>, k: Seq<u8>)
    requires
        forall|i: int| 0 <= i < chunks.len() ==> valid_packet(#[trigger] chunks[i]),
        frames_sealed_ok(chunks, n, k),
        goodbye_sealed_ok(advance(n, 2 * chunks.len()), k),
    ensures
        run(initial(n), stream_bytes(chunks, n, k), k) == (Model {
            phase: Phase::Done,
            out: flatten(chunks),
            nonce: advance(n, 2 * (chunks.len() + 1)),
        }),
{
    lemma_frames_decode(chunks, n, k);
    let m = run(initial(n), frames_bytes(chunks, n, k), k);
    lemma_run_concat(initial(n), frames_bytes(chunks, n, k), goodbye_bytes(advance(n, 2 * chunks.len()), k), k);
    lemma_goodbye_decodes(m, k);
    lemma_advance_add(n, 2 * chunks.len(), 2);
}

/// Nonce discipline: after `frames` packets and the goodbye header, the nonce (of the
/// writer, and of a reader that consumed the whole stream) read as a number has moved
/// from its start value on by `2 * (frames + 1)`, modulo 2^192.
pub proof fn lemma_nonce_discipline(n: Seq<u8>, frames: nat)
    requires
        n.len() == 24,
    ensures
        be_value(advance(n, 2 * (frames + 1))) == (be_value(n) + 2 * (frames + 1)) % pow256(24),
{
    lemma_advance_value(n, 2 * (frames + 1));
}

/// A stream of whole packets that the transport ends without a goodbye header decodes
/// every packet and then fails with `UnauthenticatedEof`.
pub proof fn lemma_goodbye_mandatory(chunks: Seq<Seq<u8>>, n: Seq<u8>, k: Seq<u8>)
    requires
        forall|i: int| 0 <= i < chunks.len() ==> valid_packet(#[trigger] chunks[i]),
        frames_sealed_ok(chunks, n, k),
    ensures
        run(initial(n), frames_bytes(chunks, n, k), k).out == flatten(chunks),
        at_eof(run(initial(n), frames_bytes(chunks, n, k), k)).phase
            == (Phase::Failed { err: DecryptError::UnauthenticatedEof }),
{
    lemma_frames_decode(chunks, n, k);
}

/// The decoder is still gathering a header or a body.
pub open spec fn in_progress(m: Model) -> bool {
    m.phase is Header || m.phase is Body
}

proof fn lemma_frame_prefix(m: Model, p: Seq<u8>, k: Seq<u8>, d: int)
    requires
        m.phase == (Phase::Header { got: Seq::empty() }),
        valid_packet(p),
        frame_sealed_ok(p, m.nonce, k),
        0 <= d < frame_bytes(p, m.nonce, k).len(),
    ensures
        in_progress(run(m, frame_bytes(p, m.nonce, k).take(d), k)),
{
    let n = m.nonce;
    let body = sealed_body(p, n, k);
    let hp = packet_header_plain(p, n, k);
    let h = secretbox_sealed(hp, n, k);
    let b = body.skip(16);
    let f = frame_bytes(p, n, k);
    if d < 34 {
        lemma_run_gathers(m, f.take(d), k);
    } else {
        lemma_header_plain_len(p, body.take(16));
        assert(f.take(d) =~= h + b.take(d - 34));
        lemma_run_concat(m, h, b.take(d - 34), k);
        lemma_run_gathers(m, h.drop_last(), k);
        assert(Seq::<u8>::empty() + h.drop_last() =~= h.drop_last());
        assert(h.drop_last().push(h.last()) =~= h);
        let m1 = Model {
            phase: Phase::Body { len: p.len(), tag: body.take(16), got: Seq::empty() },
            nonce: next_nonce(n),
            ..m
        };
        assert(run(m, h, k) == m1);
        lemma_run_gathers(m1, b.take(d - 34), k);
    }
}

proof fn lemma_frames_prefix(chunks: Seq<Seq<u8>>, n: Seq<u8>, k: Seq<u8>, j: int)
    requires
        forall|i: int| 0 <= i < chunks.len() ==> valid_packet(#[trigger] chunks[i]),
        frames_sealed_ok(chunks, n, k),
        0 <= j <= frames_bytes(chunks, n, k).len(),
    ensures
        in_progress(run(initial(n), frames_bytes(chunks, n, k).take(j), k)),
    decreases chunks.len(),
{
    if chunks.len() == 0 {
        assert(frames_bytes(chunks, n, k).take(j) =~= Seq::<u8>::empty());
    } else {
        let prev = chunks.drop_last();
        let last_n = advance(n, 2 * (chunks.len() - 1) as nat);
        let fp = frames_bytes(prev, n, k);
        let fl = frame_bytes(chunks.last(), last_n, k);
        assert forall|i: int| 0 <= i < prev.len() implies valid_packet(#[trigger] prev[i]) by {
            assert(prev[i] == chunks[i]);
        }
        assert forall|i: int| 0 <= i < prev.len() implies
            #[trigger] frame_sealed_ok(prev[i], advance(n, 2 * i as nat), k) by {
            assert(prev[i] == chunks[i]);
            assert(frame_sealed_ok(chunks[i], advance(n, 2 * i as nat), k));
        }
        if j <= fp.len() {
            assert(frames_bytes(chunks, n, k).take(j) =~= fp.take(j));
            lemma_frames_prefix(prev, n, k, j);
        } else if j == frames_bytes(chunks, n, k).len() {
            assert(frames_bytes(chunks, n, k).take(j) =~= frames_bytes(chunks, n, k));
            lemma_frames_decode(chunks, n, k);
        } else {
            assert(frames_bytes(chunks, n, k).take(j) =~= fp + fl.take(j - fp.len()));
            lemma_frames_decode(prev, n, k);
            lemma_run_concat(initial(n), fp, fl.take(j - fp.len()), k);
            assert(valid_packet(chunks[chunks.len() - 1]));
            assert(frame_sealed_ok(chunks[chunks.len() - 1], last_n, k));
            lemma_frame_prefix(run(initial(n), fp, k), chunks.last(), k, j - fp.len());
        }
    }
}

/// Truncation detection: a stream cut short anywhere (the goodbye header included)
/// and then ended by the transport fails with `UnauthenticatedEof`.
pub proof fn lemma_truncation_detected(chunks: Seq<Seq<u8>>, n: Seq<u8>, k: Seq<u8>, j: int)
    requires
        forall|i: int| 0 <= i < chunks.len() ==> valid_packet(#[trigger] chunks[i]),
        frames_sealed_ok(chunks, n, k),
        goodbye_sealed_ok(advance(n, 2 * chunks.len()), k),
        0 <= j < stream_bytes(chunks, n, k).len(),
    ensures
        at_eof(run(initial(n), stream_bytes(chunks, n, k).take(j), k)).phase
            == (Phase::Failed { err: DecryptError::UnauthenticatedEof }),
{
    let f = frames_bytes(chunks, n, k);
    let g = goodbye_bytes(advance(n, 2 * chunks.len()), k);
    if j <= f.len() {
        assert(stream_bytes(chunks, n, k).take(j) =~= f.take(j));
        lemma_frames_prefix(chunks, n, k, j);
    } else {
        assert(stream_bytes(chunks, n, k).take(j) =~= f + g.take(j - f.len()));
        lemma_frames_decode(chunks, n, k);
        lemma_run_concat(initial(n), f, g.take(j - f.len()), k);
        lemma_run_gathers(run(initial(n), f, k), g.take(j - f.len()), k);
    }
}

/// The state after the transport chunks `parts`, delivered one after another.
pub open spec fn run_parts(m: Model, parts: Seq<Seq<u8>>, k: Seq<u8>) -> Model
    decreases parts.len(),
{
    if parts.len() == 0 {
        m
    } else {
        run(run_parts(m, parts.drop_last(), k), parts.last(), k)
    }
}

/// Chunking transparency: however the wire bytes are cut into transport chunks (empty
/// chunks, that is reads that found nothing yet, included), the decoder ends in the
/// same state as when it is handed all of them at once.
pub proof fn lemma_split_invariance(m: Model, parts: Seq<Seq<u8>>, k: Seq<u8>)
    ensures
        run_parts(m, parts, k) == run(m, flatten(parts), k),
    decreases parts.len(),
{
    if parts.len() > 0 {
        lemma_split_invariance(m, parts.drop_last(), k);
        lemma_run_concat(m, flatten(parts.drop_last()), parts.last(), k);
    }
}

} // verus!
