use box_stream::{
    classify_header, encrypt_goodbye, encrypt_packet, BoxReader, BoxWriter, DecryptError, HeaderKind, Key,
    Nonce, MAX_PACKET_SIZE,
};
use sodiumoxide::crypto::secretbox;

fn key() -> Key {
    Key::new([0u8; 32])
}

fn nonce0() -> Nonce {
    Nonce::new([0u8; 24])
}

fn nonce_plus(k: u64) -> [u8; 24] {
    let mut n = [0u8; 24];
    n[16..].copy_from_slice(&k.to_be_bytes());
    n
}

fn flush(w: &mut BoxWriter<Vec<u8>>) {
    let p = w.pending_bytes().to_vec();
    w.get_mut().extend_from_slice(&p);
    w.consume(p.len());
}

/// Writes each of `writes` fully, then shuts down; returns the wire bytes, the counts
/// that each `write` call reported, and the writer's final nonce.
fn encrypt(writes: &[&[u8]], goodbye: bool) -> (Vec<u8>, Vec<usize>, [u8; 24]) {
    let mut w = BoxWriter::new(Vec::<u8>::new(), key(), nonce0());
    let mut counts = Vec::new();
    for data in writes {
        let mut off = 0;
        loop {
            match w.write(&data[off..]) {
                Some(n) => {
                    counts.push(n);
                    off += n;
                    if off == data.len() {
                        break;
                    }
                }
                None => flush(&mut w),
            }
        }
    }
    flush(&mut w);
    if goodbye {
        assert!(w.shutdown());
        flush(&mut w);
        assert!(w.is_shut_down());
    }
    let nonce = w.current_nonce();
    (w.into_inner(), counts, nonce)
}

struct Outcome {
    plain: Vec<u8>,
    end: Result<(), DecryptError>,
    nonce: [u8; 24],
}

/// Reads `wire` through a `BoxReader`; `chunk(i)` bounds the i-th transport read (0 is a
/// read that found nothing yet), and `read_len` is the size of the caller's buffer.
fn decrypt(wire: &[u8], chunk: &dyn Fn(usize) -> usize, read_len: usize) -> Outcome {
    let mut r = BoxReader::new((), key(), nonce0());
    let mut plain = Vec::new();
    let mut pos = 0;
    let mut step = 0;
    loop {
        let mut buf = vec![0u8; read_len];
        match r.read(&mut buf) {
            Some(Ok(0)) => return Outcome { plain, end: Ok(()), nonce: r.current_nonce() },
            Some(Ok(n)) => plain.extend_from_slice(&buf[..n]),
            Some(Err(e)) => return Outcome { plain, end: Err(e), nonce: r.current_nonce() },
            None => {
                let want = r.wanted();
                assert!(want > 0);
                if pos == wire.len() {
                    r.end_of_input();
                    continue;
                }
                let n = want.min(wire.len() - pos).min(chunk(step));
                step += 1;
                let took = r.feed(&wire[pos..pos + n]);
                assert_eq!(took, n);
                pos += n;
            }
        }
    }
}

fn whole(_: usize) -> usize {
    usize::MAX
}

fn hello_wire() -> Vec<u8> {
    encrypt(&[b"hello"], true).0
}

#[test]
fn empty_stream_is_one_goodbye() {
    let (wire, counts, nonce) = encrypt(&[], true);
    assert_eq!(wire.len(), 34);
    assert!(counts.is_empty());
    assert_eq!(nonce, nonce_plus(2));
    let out = decrypt(&wire, &whole, 100);
    assert!(out.plain.is_empty());
    assert_eq!(out.end, Ok(()));
    assert_eq!(out.nonce, nonce_plus(2));
}

#[test]
fn single_small_packet() {
    let wire = hello_wire();
    assert_eq!(wire.len(), 34 + 5 + 34);
    assert_ne!(&wire[34..39], b"hello");
    let out = decrypt(&wire, &whole, 100);
    assert_eq!(out.plain, b"hello");
    assert_eq!(out.end, Ok(()));
}

#[test]
fn boundary_packet() {
    let data = vec![0x41u8; 4096];
    let (wire, counts, _) = encrypt(&[&data], true);
    assert_eq!(counts, vec![4096]);
    assert_eq!(wire.len(), 34 + 4096 + 34);
    let out = decrypt(&wire, &whole, 10000);
    assert_eq!(out.plain, data);
    assert_eq!(out.end, Ok(()));
}

#[test]
fn over_limit_write() {
    let data: Vec<u8> = (0..5000u32).map(|i| (i % 251) as u8).collect();
    let mut w = BoxWriter::new(Vec::<u8>::new(), key(), nonce0());
    assert_eq!(w.write(&data), Some(MAX_PACKET_SIZE));
    assert_eq!(w.write(&data[4096..]), None);
    flush(&mut w);
    assert!(w.is_flushed());
    assert_eq!(w.write(&data[4096..]), Some(904));
    flush(&mut w);
    assert!(w.shutdown());
    flush(&mut w);
    let wire = w.into_inner();
    assert_eq!(wire.len(), 34 + 4096 + 34 + 904 + 34);
    let out = decrypt(&wire, &whole, 7000);
    assert_eq!(out.plain, data);
    assert_eq!(out.end, Ok(()));
}

#[test]
fn zero_length_write_emits_nothing() {
    let mut w = BoxWriter::new(Vec::<u8>::new(), key(), nonce0());
    assert_eq!(w.write(&[]), Some(0));
    assert!(w.pending_bytes().is_empty());
    assert_eq!(w.current_nonce(), [0u8; 24]);
}

#[test]
fn bit_flip_in_body() {
    let wire = hello_wire();
    for byte in 34..39 {
        for bit in 0..8 {
            let mut bad = wire.clone();
            bad[byte] ^= 1 << bit;
            let out = decrypt(&bad, &whole, 100);
            assert!(out.plain.is_empty());
            assert_eq!(out.end, Err(DecryptError::UnauthenticatedPacket));
        }
    }
}

#[test]
fn bit_flip_in_header() {
    let wire = hello_wire();
    for byte in 0..34 {
        for bit in 0..8 {
            let mut bad = wire.clone();
            bad[byte] ^= 1 << bit;
            let out = decrypt(&bad, &whole, 100);
            assert!(out.plain.is_empty());
            assert_eq!(out.end, Err(DecryptError::UnauthenticatedHeader));
        }
    }
}

#[test]
fn bit_flip_in_goodbye() {
    let wire = hello_wire();
    for byte in 39..73 {
        for bit in 0..8 {
            let mut bad = wire.clone();
            bad[byte] ^= 1 << bit;
            let out = decrypt(&bad, &whole, 100);
            assert_eq!(out.plain, b"hello");
            assert_eq!(out.end, Err(DecryptError::UnauthenticatedHeader));
        }
    }
}

#[test]
fn early_eof() {
    let wire = hello_wire();
    for len in 1..=72 {
        let out = decrypt(&wire[..len], &whole, 100);
        assert_eq!(out.end, Err(DecryptError::UnauthenticatedEof));
        if len >= 39 {
            assert_eq!(out.plain, b"hello");
        } else {
            assert!(out.plain.is_empty());
        }
    }
}

#[test]
fn empty_transport_is_unauthenticated_eof() {
    let out = decrypt(&[], &whole, 100);
    assert_eq!(out.end, Err(DecryptError::UnauthenticatedEof));
}

#[test]
fn adversarial_transport_partitioning() {
    let data = vec![0x41u8; 4096];
    let (wire, _, _) = encrypt(&[&data], true);
    let one_chunk = decrypt(&wire, &whole, 4096);
    let byte_by_byte = decrypt(&wire, &|i| if i % 3 == 1 { 0 } else { 1 }, 4096);
    assert_eq!(one_chunk.plain, data);
    assert_eq!(byte_by_byte.plain, data);
    assert_eq!(one_chunk.end, Ok(()));
    assert_eq!(byte_by_byte.end, Ok(()));
    assert_eq!(one_chunk.nonce, byte_by_byte.nonce);
    assert_eq!(byte_by_byte.nonce, nonce_plus(4));
}

#[test]
fn round_trip_under_any_partitioning() {
    let data: Vec<u8> = (0..10000u32).map(|i| (i * 7 % 256) as u8).collect();
    let cuts: [&[usize]; 4] = [&[10000], &[1, 2, 3, 9994], &[4096, 4096, 1808], &[5000, 5000]];
    for cut in cuts.iter() {
        let mut writes: Vec<&[u8]> = Vec::new();
        let mut off = 0;
        for &len in cut.iter() {
            writes.push(&data[off..off + len]);
            off += len;
        }
        let (wire, _, _) = encrypt(&writes, true);
        for &(chunk, read_len) in [(usize::MAX, 10000), (1, 1), (7, 13), (34, 4096)].iter() {
            let out = decrypt(&wire, &move |_| chunk, read_len);
            assert_eq!(out.plain, data);
            assert_eq!(out.end, Ok(()));
        }
    }
}

#[test]
fn nonce_discipline() {
    let a = vec![1u8; 10];
    let b = vec![2u8; 4096];
    let c = vec![3u8; 1];
    let (wire, counts, write_nonce) = encrypt(&[&a, &b, &c], true);
    assert_eq!(counts, vec![10, 4096, 1]);
    assert_eq!(write_nonce, nonce_plus(2 * (3 + 1)));
    let out = decrypt(&wire, &whole, 5000);
    assert_eq!(out.nonce, nonce_plus(2 * (3 + 1)));
}

#[test]
fn goodbye_mandatory() {
    let (wire, _, _) = encrypt(&[b"abc", b"defg"], false);
    assert_eq!(wire.len(), 34 + 3 + 34 + 4);
    let out = decrypt(&wire, &whole, 100);
    assert_eq!(out.plain, b"abcdefg");
    assert_eq!(out.end, Err(DecryptError::UnauthenticatedEof));
}

#[test]
fn idempotent_eof() {
    let wire = hello_wire();
    let mut r = BoxReader::new((), key(), nonce0());
    assert_eq!(r.feed(&wire), 34);
    assert_eq!(r.feed(&wire[34..]), 5);
    let mut buf = [0u8; 16];
    assert_eq!(r.read(&mut buf), Some(Ok(5)));
    assert_eq!(&buf[..5], b"hello");
    assert_eq!(r.read(&mut buf), None);
    assert_eq!(r.feed(&wire[39..]), 34);
    for _ in 0..5 {
        assert_eq!(r.read(&mut buf), Some(Ok(0)));
        assert_eq!(r.wanted(), 0);
        assert_eq!(r.feed(b"more"), 0);
        r.end_of_input();
    }
}

#[test]
fn sticky_errors() {
    let mut wire = hello_wire();
    wire[3] ^= 0x10;
    let mut r = BoxReader::new((), key(), nonce0());
    assert_eq!(r.feed(&wire), 34);
    let mut buf = [0u8; 16];
    for _ in 0..5 {
        assert_eq!(r.read(&mut buf), Some(Err(DecryptError::UnauthenticatedHeader)));
        assert_eq!(r.feed(&wire[34..]), 0);
        r.end_of_input();
    }
}

#[test]
fn empty_read_buffer_returns_zero() {
    let wire = hello_wire();
    let mut r = BoxReader::new((), key(), nonce0());
    assert_eq!(r.read(&mut []), Some(Ok(0)));
    assert_eq!(r.feed(&wire[..39]), 34);
    assert_eq!(r.feed(&wire[34..39]), 5);
    assert_eq!(r.read(&mut []), Some(Ok(0)));
    let mut buf = [0u8; 2];
    assert_eq!(r.read(&mut buf), Some(Ok(2)));
    assert_eq!(&buf, b"he");
}

fn sealed_header(plain: &[u8; 18]) -> Vec<u8> {
    secretbox::seal(plain, &secretbox::Nonce([0u8; 24]), &secretbox::Key([0u8; 32]))
}

#[test]
fn invalid_length_zero() {
    let mut hp = [0u8; 18];
    hp[5] = 9;
    let out = decrypt(&sealed_header(&hp), &whole, 100);
    assert_eq!(out.end, Err(DecryptError::InvalidLength));
}

#[test]
fn invalid_length_too_large() {
    let mut hp = [0u8; 18];
    hp[0] = 0x10;
    hp[1] = 0x01;
    let out = decrypt(&sealed_header(&hp), &whole, 100);
    assert_eq!(out.end, Err(DecryptError::InvalidLength));
}

#[test]
fn all_zero_ciphertext_is_not_goodbye() {
    let out = decrypt(&[0u8; 34], &whole, 100);
    assert_eq!(out.end, Err(DecryptError::UnauthenticatedHeader));
}

#[test]
fn wrong_key_fails_header() {
    let wire = hello_wire();
    let mut r = BoxReader::new((), Key::new([1u8; 32]), nonce0());
    r.feed(&wire);
    let mut buf = [0u8; 8];
    assert_eq!(r.read(&mut buf), Some(Err(DecryptError::UnauthenticatedHeader)));
}

#[test]
fn nonce_increment_carries_and_wraps() {
    let mut n = Nonce::new([0u8; 24]);
    n.increment();
    assert_eq!(n.bytes, nonce_plus(1));
    let mut b = [0u8; 24];
    b[23] = 0xff;
    b[22] = 0x01;
    let mut n = Nonce::new(b);
    n.increment();
    let mut e = [0u8; 24];
    e[22] = 0x02;
    assert_eq!(n.bytes, e);
    let mut n = Nonce::new([0xffu8; 24]);
    n.increment();
    assert_eq!(n.bytes, [0u8; 24]);
}

#[test]
fn reader_accessors() {
    let mut r = BoxReader::new(vec![1u8, 2], key(), nonce0());
    assert_eq!(r.get_ref(), &vec![1u8, 2]);
    r.get_mut().push(3);
    assert_eq!(r.into_inner(), vec![1u8, 2, 3]);
}

#[test]
fn classify_header_kinds() {
    assert_eq!(classify_header(&[0u8; 18]), HeaderKind::Goodbye);
    let mut hp = [7u8; 18];
    hp[0] = 0;
    hp[1] = 5;
    assert_eq!(classify_header(&hp), HeaderKind::Packet { len: 5 });
    hp[0] = 0x10;
    hp[1] = 0x00;
    assert_eq!(classify_header(&hp), HeaderKind::Packet { len: 4096 });
    hp[1] = 0x01;
    assert_eq!(classify_header(&hp), HeaderKind::InvalidLength);
    let mut zero_len = [0u8; 18];
    zero_len[17] = 1;
    assert_eq!(classify_header(&zero_len), HeaderKind::InvalidLength);
}

#[test]
fn packet_frame_layout() {
    let k = secretbox::Key([0u8; 32]);
    let mut n = nonce0();
    let frame = encrypt_packet(b"hello", &key(), &mut n);
    assert_eq!(frame.len(), 39);
    assert_eq!(n.bytes, nonce_plus(2));
    let body = secretbox::seal(b"hello", &secretbox::Nonce(nonce_plus(1)), &k);
    assert_eq!(&frame[34..], &body[16..]);
    let hp = secretbox::open(&frame[..34], &secretbox::Nonce(nonce_plus(0)), &k).unwrap();
    assert_eq!(&hp[..2], &[0u8, 5]);
    assert_eq!(&hp[2..], &body[..16]);
    let goodbye = encrypt_goodbye(&key(), &mut n);
    assert_eq!(n.bytes, nonce_plus(4));
    let gp = secretbox::open(&goodbye, &secretbox::Nonce(nonce_plus(2)), &k).unwrap();
    assert_eq!(gp, vec![0u8; 18]);
    assert_ne!(goodbye, vec![0u8; 34]);
}
