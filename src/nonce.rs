//! The 24-byte nonce, a big-endian counter.
use vstd::prelude::*;

verus! {

/// Number of bytes in a nonce.
pub const NONCE_BYTES: usize = 24;

/// The value of a big-endian byte string.
pub open spec fn be_value(s: Seq<u8>) -> nat
    decreases s.len(),
{
    if s.len() == 0 {
        0
    } else {
        be_value(s.drop_last()) * 256 + s.last() as nat
    }
}

/// The byte string after adding one to it as a big-endian counter, wrapping on overflow.
pub open spec fn next_nonce(s: Seq<u8>) -> Seq<u8>
    decreases s.len(),
{
    if s.len() == 0 {
        s
    } else if s.last() == 255u8 {
        next_nonce(s.drop_last()).push(0u8)
    } else {
        s.drop_last().push((s.last() + 1) as u8)
    }
}

/// The byte string after `count` increments.
pub open spec fn advance(s: Seq<u8>, count: nat) -> Seq<u8>
    decreases count,
{
    if count == 0 {
        s
    } else {
        next_nonce(advance(s, (count - 1) as nat))
    }
}

pub open spec fn zeros(len: nat) -> Seq<u8> {
    Seq::new(len, |i: int| 0u8)
}

proof fn lemma_next_len(s: Seq<u8>)
    ensures
        next_nonce(s).len() == s.len(),
    decreases s.len(),
{
    if s.len() > 0 && s.last() == 255u8 {
        lemma_next_len(s.drop_last());
    }
}

/// Incrementing keeps the length.
pub proof fn lemma_advance_len(s: Seq<u8>, count: nat)
    ensures
        advance(s, count).len() == s.len(),
    decreases count,
{
    if count > 0 {
        lemma_advance_len(s, (count - 1) as nat);
        lemma_next_len(advance(s, (count - 1) as nat));
    }
}

/// Advancing by `a` then by `b` is advancing by `a + b`.
pub proof fn lemma_advance_add(s: Seq<u8>, a: nat, b: nat)
    ensures
        advance(advance(s, a), b) == advance(s, a + b),
    decreases b,
{
    if b > 0 {
        lemma_advance_add(s, a, (b - 1) as nat);
    }
}

/// Incrementing adds one to the big-endian value, modulo the counter's range.
pub proof fn lemma_next_value(s: Seq<u8>)
    ensures
        be_value(next_nonce(s)) == (be_value(s) + 1) % pow256(s.len()),
    decreases s.len(),
{
    lemma_value_bound(s);
    if s.len() == 0 {
    } else {
        let p = s.drop_last();
        lemma_value_bound(p);
        assert(next_nonce(s).drop_last() == if s.last() == 255u8 { next_nonce(p) } else { p });
        if s.last() == 255u8 {
            lemma_next_value(p);
            let v = be_value(p);
            let m = pow256(p.len());
            assert(pow256(s.len()) == m * 256);
            if v + 1 == m {
                assert(be_value(next_nonce(s)) == 0) by {
                    assert(be_value(next_nonce(p)) == 0) by {
                        vstd::arithmetic::div_mod::lemma_mod_self_0(m as int);
                    }
                }
                assert(be_value(s) == m * 256 - 1) by (nonlinear_arith)
                    requires be_value(s) == v * 256 + 255, v + 1 == m;
                vstd::arithmetic::div_mod::lemma_mod_self_0((m * 256) as int);
            } else {
                vstd::arithmetic::div_mod::lemma_small_mod((v + 1) as nat, m);
                assert(be_value(next_nonce(s)) == (v + 1) * 256);
                assert((v + 1) * 256 < m * 256) by (nonlinear_arith)
                    requires v + 1 < m;
                vstd::arithmetic::div_mod::lemma_small_mod(((v + 1) * 256) as nat, m * 256);
            }
        } else {
            let v = be_value(p);
            let m = pow256(p.len());
            assert(be_value(next_nonce(s)) == v * 256 + s.last() + 1);
            assert(v * 256 + s.last() + 1 < m * 256) by (nonlinear_arith)
                requires v < m, s.last() < 255;
            assert(pow256(s.len()) == m * 256);
            vstd::arithmetic::div_mod::lemma_small_mod((v * 256 + s.last() + 1) as nat, m * 256);
        }
    }
}

/// `256` raised to `n`.
pub open spec fn pow256(n: nat) -> nat
    decreases n,
{
    if n == 0 {
        1
    } else {
        pow256((n - 1) as nat) * 256
    }
}

proof fn lemma_value_bound(s: Seq<u8>)
    ensures
        be_value(s) < pow256(s.len()),
    decreases s.len(),
{
    if s.len() > 0 {
        let p = s.drop_last();
        lemma_value_bound(p);
        let v = be_value(p);
        let m = pow256(p.len());
        assert(v * 256 + s.last() < m * 256) by (nonlinear_arith)
            requires v < m, s.last() < 256;
    }
}

/// Advancing by `count` adds `count` to the big-endian value, modulo the counter's range.
pub proof fn lemma_advance_value(s: Seq<u8>, count: nat)
    ensures
        be_value(advance(s, count)) == (be_value(s) + count) % pow256(s.len()),
    decreases count,
{
    lemma_value_bound(s);
    if count == 0 {
        vstd::arithmetic::div_mod::lemma_small_mod(be_value(s), pow256(s.len()));
    } else {
        let prev = advance(s, (count - 1) as nat);
        lemma_advance_value(s, (count - 1) as nat);
        lemma_advance_len(s, (count - 1) as nat);
        lemma_next_value(prev);
        let m = pow256(s.len()) as int;
        vstd::arithmetic::div_mod::lemma_add_mod_noop((be_value(s) + count - 1) as int, 1, m);
        vstd::arithmetic::div_mod::lemma_mod_twice((be_value(s) + count - 1) as int, m);
        lemma_pow256_pos(s.len());
        if m > 1 {
            vstd::arithmetic::div_mod::lemma_small_mod(1, m as nat);
        }
    }
}

proof fn lemma_pow256_pos(n: nat)
    ensures
        pow256(n) >= 1,
    decreases n,
{
    if n > 0 {
        lemma_pow256_pos((n - 1) as nat);
    }
}

/// A session nonce: 24 bytes read as a big-endian counter.
pub struct Nonce {
    pub bytes: [u8; 24],
}

impl Nonce {
    pub open spec fn view(&self) -> Seq<u8> {
        self.bytes@
    }

    /// Makes a nonce from its 24 bytes.
    pub fn new(bytes: [u8; 24]) -> (r: Nonce)
        ensures
            r.view() == bytes@,
    {
        Nonce { bytes }
    }

    /// Adds one to the nonce as a big-endian counter, wrapping on overflow.
    pub fn increment(&mut self)
        ensures
            final(self).view() == next_nonce(old(self).view()),
    {
        let ghost start = self.bytes@;
        let mut i: usize = NONCE_BYTES;
        assert(start.take(24) =~= start);
        assert(next_nonce(start) + zeros(0) =~= next_nonce(start));
        assert(self.bytes@.skip(24) =~= zeros(0));
        while i > 0
            invariant
                i <= 24,
                self.bytes@.len() == 24,
                start.len() == 24,
                start == old(self).bytes@,
                self.bytes@.take(i as int) == start.take(i as int),
                self.bytes@.skip(i as int) == zeros((24 - i) as nat),
                next_nonce(start) == next_nonce(start.take(i as int)) + zeros((24 - i) as nat),
                forall|j: int| i <= j < 24 ==> start[j] == 255u8,
            decreases i,
        {
            let b = self.bytes[i - 1];
            let ghost p = start.take(i as int);
            assert(p.drop_last() == start.take(i - 1));
            assert(p.last() == b);
            if b == 255u8 {
                self.bytes[i - 1] = 0u8;
                assert(next_nonce(p) == next_nonce(start.take(i - 1)).push(0u8));
                assert(zeros(1) + zeros((24 - i) as nat) =~= zeros((24 - i + 1) as nat));
                assert(next_nonce(start.take(i - 1)).push(0u8) + zeros((24 - i) as nat)
                    =~= next_nonce(start.take(i - 1)) + zeros((24 - i + 1) as nat));
                assert(self.bytes@.skip(i - 1) =~= zeros((24 - i + 1) as nat));
                assert(self.bytes@.take(i - 1) =~= start.take(i - 1));
                i = i - 1;
            } else {
                self.bytes[i - 1] = b + 1;
                assert(next_nonce(p) == p.drop_last().push((b + 1) as u8));
                assert(self.bytes@.take(i as int) =~= p.drop_last().push((b + 1) as u8));
                assert(self.bytes@.skip(i as int) =~= zeros((24 - i) as nat));
                assert(self.bytes@ =~= self.bytes@.take(i as int) + self.bytes@.skip(i as int));
                assert(self.bytes@ =~= next_nonce(start));
                return;
            }
        }
        assert(next_nonce(start.take(0)) =~= start.take(0));
        assert(self.bytes@ =~= self.bytes@.skip(0));
        assert(next_nonce(start) =~= zeros(24));
    }
}

} // verus!
