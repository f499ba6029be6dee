//! The wire format and the encryption of packets and of the goodbye header.
use vstd::prelude::*;
use crate::bytes::append_range;
use crate::nonce::{Nonce, next_nonce, advance, zeros};
use crate::secretbox::{Key, seal, secretbox_sealed, secretbox_opened};

verus! {

/// Largest plaintext carried by one packet.
pub const MAX_PACKET_SIZE: usize = 4096;

/// Number of bytes of an encrypted header on the wire.
pub const HEADER_BYTES: usize = 34;

/// A header's plaintext: the body length as two big-endian bytes, then the body's tag.
pub open spec fn header_plain(len: nat, body_tag: Seq<u8>) -> Seq<u8> {
    seq![(len / 256) as u8, (len % 256) as u8] + body_tag
}

/// The body length that a header's plaintext declares.
pub open spec fn declared_len(hp: Seq<u8>) -> nat {
    hp[0] as nat * 256 + hp[1] as nat
}

/// An 18-byte header plaintext is the header plaintext of the length it declares and
/// the tag it carries.
pub proof fn lemma_header_plain_of(hp: Seq<u8>)
    requires
        hp.len() == 18,
    ensures
        header_plain(declared_len(hp), hp.skip(2)) == hp,
{
    let l = declared_len(hp);
    let a = hp[0] as int;
    let b = hp[1] as int;
    vstd::arithmetic::div_mod::lemma_fundamental_div_mod_converse(l as int, 256, a, b);
    assert(header_plain(l, hp.skip(2)) =~= hp);
}

/// The sealed body of packet `p` whose header uses nonce `n`: it is sealed under `n + 1`.
pub open spec fn sealed_body(p: Seq<u8>, n: Seq<u8>, k: Seq<u8>) -> Seq<u8> {
    secretbox_sealed(p, next_nonce(n), k)
}

/// The header plaintext of packet `p` whose header uses nonce `n`.
pub open spec fn packet_header_plain(p: Seq<u8>, n: Seq<u8>, k: Seq<u8>) -> Seq<u8> {
    header_plain(p.len(), sealed_body(p, n, k).take(16))
}

/// The wire bytes of packet `p` sent with nonce `n`: the sealed header, then the body's
/// ciphertext without its tag (which travels inside the header).
pub open spec fn frame_bytes(p: Seq<u8>, n: Seq<u8>, k: Seq<u8>) -> Seq<u8> {
    secretbox_sealed(packet_header_plain(p, n, k), n, k) + sealed_body(p, n, k).skip(16)
}

/// The wire bytes of the goodbye header sent with nonce `n`.
pub open spec fn goodbye_bytes(n: Seq<u8>, k: Seq<u8>) -> Seq<u8> {
    secretbox_sealed(zeros(18), n, k)
}

/// The wire bytes of the packets `chunks`, in order, starting with nonce `n`.
pub open spec fn frames_bytes(chunks: Seq<Seq<u8>>, n: Seq<u8>, k: Seq<u8>) -> Seq<u8>
    decreases chunks.len(),
{
    if chunks.len() == 0 {
        Seq::empty()
    } else {
        frames_bytes(chunks.drop_last(), n, k) + frame_bytes(
            chunks.last(),
            advance(n, 2 * (chunks.len() - 1) as nat),
            k,
        )
    }
}

/// The wire bytes of a whole stream: the packets `chunks`, then the goodbye header.
pub open spec fn stream_bytes(chunks: Seq<Seq<u8>>, n: Seq<u8>, k: Seq<u8>) -> Seq<u8> {
    frames_bytes(chunks, n, k) + goodbye_bytes(advance(n, 2 * chunks.len()), k)
}

/// The concatenation of `chunks`.
pub open spec fn flatten(chunks: Seq<Seq<u8>>) -> Seq<u8>
    decreases chunks.len(),
{
    if chunks.len() == 0 {
        Seq::empty()
    } else {
        flatten(chunks.drop_last()) + chunks.last()
    }
}

/// A packet size the wire format can carry.
pub open spec fn valid_packet(p: Seq<u8>) -> bool {
    0 < p.len() <= 4096
}

/// Sealing packet `p` with nonce `n` behaved as the cipher promises: the header and
/// body have their lengths and open again to what was sealed.
pub open spec fn frame_sealed_ok(p: Seq<u8>, n: Seq<u8>, k: Seq<u8>) -> bool {
    let body = sealed_body(p, n, k);
    let hp = packet_header_plain(p, n, k);
    &&& body.len() == p.len() + 16
    &&& secretbox_sealed(hp, n, k).len() == 34
    &&& secretbox_opened(body, next_nonce(n), k) == Some(p)
    &&& secretbox_opened(secretbox_sealed(hp, n, k), n, k) == Some(hp)
}

/// Sealing the goodbye header with nonce `n` behaved as the cipher promises.
pub open spec fn goodbye_sealed_ok(n: Seq<u8>, k: Seq<u8>) -> bool {
    &&& goodbye_bytes(n, k).len() == 34
    &&& secretbox_opened(goodbye_bytes(n, k), n, k) == Some(zeros(18))
}

/// Every packet of `chunks`, sent from nonce `n` on, was sealed as the cipher promises.
pub open spec fn frames_sealed_ok(chunks: Seq<Seq<u8>>, n: Seq<u8>, k: Seq<u8>) -> bool {
    forall|i: int|
        0 <= i < chunks.len() ==> #[trigger] frame_sealed_ok(chunks[i], advance(n, 2 * i as nat), k)
}

/// What an opened header announces.
#[derive(PartialEq, Eq, Structural, Clone, Copy, Debug)]
pub enum HeaderKind {
    /// The all-zero plaintext: the authenticated end of the stream.
    Goodbye,
    /// A body of `len` bytes follows; its tag is bytes 2..18 of the header plaintext.
    Packet { len: usize },
    /// A declared length of 0 or over 4096.
    InvalidLength,
}

/// What the header plaintext `hp` announces.
pub open spec fn header_kind(hp: Seq<u8>) -> HeaderKind {
    if hp == zeros(18) {
        HeaderKind::Goodbye
    } else if declared_len(hp) == 0 || declared_len(hp) > 4096 {
        HeaderKind::InvalidLength
    } else {
        HeaderKind::Packet { len: declared_len(hp) as usize }
    }
}

/// Classifies an opened 18-byte header plaintext. The goodbye is recognised by its
/// all-zero plaintext before the length is checked.
pub fn classify_header(hp: &[u8]) -> (r: HeaderKind)
    requires
        hp@.len() == 18,
    ensures
        r == header_kind(hp@),
{
    let mut i: usize = 0;
    let mut zero = true;
    while i < 18
        invariant
            i <= 18,
            hp@.len() == 18,
            zero == (forall|j: int| 0 <= j < i ==> hp@[j] == 0u8),
        decreases 18 - i,
    {
        if hp[i] != 0u8 {
            zero = false;
        }
        i = i + 1;
    }
    if zero {
        assert(hp@ =~= zeros(18));
        return HeaderKind::Goodbye;
    }
    assert(hp@ != zeros(18)) by {
        let j = choose|j: int| 0 <= j < 18 && hp@[j] != 0u8;
        assert(zeros(18)[j] == 0u8);
    }
    let len: usize = hp[0] as usize * 256 + hp[1] as usize;
    if len == 0 || len > MAX_PACKET_SIZE {
        HeaderKind::InvalidLength
    } else {
        HeaderKind::Packet { len }
    }
}

/// Encrypts one packet under `nonce` (header) and `nonce + 1` (body) and advances the
/// nonce by two. Returns the frame's wire bytes.
pub fn encrypt_packet(plain: &[u8], key: &Key, nonce: &mut Nonce) -> (r: Vec<u8>)
    requires
        valid_packet(plain@),
    ensures
        r@ == frame_bytes(plain@, old(nonce)@, key@),
        r@.len() == 34 + plain@.len(),
        final(nonce)@ == advance(old(nonce)@, 2),
        frame_sealed_ok(plain@, old(nonce)@, key@),
{
    let header_nonce: [u8; 24] = nonce.bytes;
    nonce.increment();
    let body = seal(plain, &nonce.bytes, &key.bytes);
    let len: usize = plain.len();
    let mut hp: Vec<u8> = Vec::new();
    hp.push((len / 256) as u8);
    hp.push((len % 256) as u8);
    append_range(&mut hp, body.as_slice(), 0, 16);
    assert(hp@ =~= packet_header_plain(plain@, old(nonce)@, key@));
    let header = seal(hp.as_slice(), &header_nonce, &key.bytes);
    nonce.increment();
    let mut r = header;
    append_range(&mut r, body.as_slice(), 16, body.len());
    assert(body@.subrange(16, body@.len() as int) =~= body@.skip(16));
    assert(advance(old(nonce)@, 2) == next_nonce(next_nonce(old(nonce)@))) by {
        reveal_with_fuel(advance, 3);
    }
    r
}

/// Encrypts the goodbye header under `nonce` and advances the nonce by two, so that it,
/// like every frame, uses up two nonce values. Returns its wire bytes.
pub fn encrypt_goodbye(key: &Key, nonce: &mut Nonce) -> (r: Vec<u8>)
    ensures
        r@ == goodbye_bytes(old(nonce)@, key@),
        final(nonce)@ == advance(old(nonce)@, 2),
        goodbye_sealed_ok(old(nonce)@, key@),
{
    let zero: [u8; 18] = [0u8; 18];
    assert(zero@ =~= zeros(18));
    let r = seal(zero.as_slice(), &nonce.bytes, &key.bytes);
    nonce.increment();
    nonce.increment();
    assert(advance(old(nonce)@, 2) == next_nonce(next_nonce(old(nonce)@))) by {
        reveal_with_fuel(advance, 3);
    }
    r
}

} // verus!
