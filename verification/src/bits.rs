//! Mathematical model of bit streams.
//!
//! A stream is a `Seq<bool>`, least significant bit of each byte first.
//! Numbers are written least significant bit first.
use vstd::prelude::*;
use vstd::arithmetic::power2::*;
use vstd::arithmetic::div_mod::*;
use vstd::arithmetic::mul::*;

verus! {

/// Bit `i` of a byte.
pub open spec fn byte_bit(b: u8, i: nat) -> bool {
    ((b >> (i as u8)) & 1u8) == 1u8
}

/// The first `n` bits of a byte, lowest first.
pub open spec fn byte_bits(b: u8, n: nat) -> Seq<bool> {
    Seq::new(n, |i: int| byte_bit(b, i as nat))
}

/// The bits of a byte sequence, each byte lowest bit first.
pub open spec fn bytes_bits(s: Seq<u8>) -> Seq<bool> {
    Seq::new(8 * s.len(), |i: int| byte_bit(s[i / 8], (i % 8) as nat))
}

/// The low `n` bits of `v`, lowest first.
pub open spec fn nat_bits(v: nat, n: nat) -> Seq<bool> {
    Seq::new(n, |i: int| (v / pow2(i as nat)) % 2 == 1)
}

/// The number whose binary digits, lowest first, are `s`.
pub open spec fn bits_value(s: Seq<bool>) -> nat
    decreases s.len(),
{
    if s.len() == 0 {
        0
    } else {
        bits_value(s.drop_last()) + if s.last() {
            pow2((s.len() - 1) as nat)
        } else {
            0
        }
    }
}

/// The bits of a byte sequence, each byte written as eight bits.
pub open spec fn bytes_as_bits(s: Seq<u8>) -> Seq<bool>
    decreases s.len(),
{
    if s.len() == 0 {
        Seq::empty()
    } else {
        bytes_as_bits(s.drop_last()) + nat_bits(s.last() as nat, 8)
    }
}

/// Bit `i` of an infinite stream that continues `bits` with zeros.
pub open spec fn stream_bit(bits: Seq<bool>, i: int) -> bool {
    if 0 <= i < bits.len() {
        bits[i]
    } else {
        false
    }
}

/// `n` bits of the zero-extended stream from position `pos`.
pub open spec fn window(bits: Seq<bool>, pos: int, n: nat) -> Seq<bool> {
    Seq::new(n, |j: int| stream_bit(bits, pos + j))
}

/// `bits` padded with zeros to a whole number of bytes.
pub open spec fn pad_to_byte(bits: Seq<bool>) -> Seq<bool> {
    bits + Seq::new(((8 - bits.len() % 8) % 8) as nat, |i: int| false)
}

pub proof fn lemma_byte_bit_arith(b: u8, i: nat)
    requires
        i < 8,
    ensures
        byte_bit(b, i) == ((b as nat / pow2(i)) % 2 == 1),
{
    let k = i as u8;
    vstd::bits::lemma_u8_shr_is_div(b, k);
    let s = b >> k;
    assert((s & 1u8) == s % 2) by (bit_vector);
}

/// A byte's eight bits as a stream equal its value's low eight bits.
pub proof fn lemma_byte_bits_nat(b: u8)
    ensures
        byte_bits(b, 8) == nat_bits(b as nat, 8),
{
    assert forall|i: int| 0 <= i < 8 implies byte_bits(b, 8)[i] == nat_bits(b as nat, 8)[i] by {
        lemma_byte_bit_arith(b, i as nat);
    }
    assert(byte_bits(b, 8) =~= nat_bits(b as nat, 8));
}

pub proof fn lemma_bytes_bits_push(s: Seq<u8>, b: u8)
    ensures
        bytes_bits(s.push(b)) == bytes_bits(s) + byte_bits(b, 8),
{
    let l = bytes_bits(s.push(b));
    let r = bytes_bits(s) + byte_bits(b, 8);
    assert forall|i: int| 0 <= i < l.len() implies l[i] == r[i] by {
        if i < 8 * s.len() {
            assert(i / 8 < s.len()) by (nonlinear_arith)
                requires
                    0 <= i < 8 * s.len(),
            ;
        } else {
            assert(i / 8 == s.len() && i % 8 == i - 8 * s.len()) by (nonlinear_arith)
                requires
                    8 * s.len() <= i < 8 * s.len() + 8,
            ;
        }
    }
    assert(l =~= r);
}

pub proof fn lemma_bytes_bits_empty()
    ensures
        bytes_bits(Seq::<u8>::empty()) == Seq::<bool>::empty(),
{
    assert(bytes_bits(Seq::<u8>::empty()) =~= Seq::<bool>::empty());
}

/// `bytes_bits` and `bytes_as_bits` agree.
pub proof fn lemma_bytes_bits_as_bits(s: Seq<u8>)
    ensures
        bytes_bits(s) == bytes_as_bits(s),
    decreases s.len(),
{
    if s.len() == 0 {
        lemma_bytes_bits_empty();
    } else {
        lemma_bytes_bits_as_bits(s.drop_last());
        lemma_bytes_bits_push(s.drop_last(), s.last());
        lemma_byte_bits_nat(s.last());
        assert(s.drop_last().push(s.last()) =~= s);
    }
}

pub proof fn lemma_nat_bits_push(v: nat, n: nat)
    ensures
        nat_bits(v, n + 1) == nat_bits(v, n).push((v / pow2(n)) % 2 == 1),
{
    assert(nat_bits(v, n + 1) =~= nat_bits(v, n).push((v / pow2(n)) % 2 == 1));
}

/// Reading back the low `n` bits of `v` gives `v` modulo `2^n`.
pub proof fn lemma_bits_value_nat_bits(v: nat, n: nat)
    ensures
        bits_value(nat_bits(v, n)) == v % pow2(n),
    decreases n,
{
    if n == 0 {
        lemma2_to64();
        assert(v % 1 == 0) by (nonlinear_arith);
    } else {
        let m = (n - 1) as nat;
        lemma_bits_value_nat_bits(v, m);
        assert(nat_bits(v, n).drop_last() =~= nat_bits(v, m));
        lemma_pow2_unfold(n);
        lemma_pow2_pos(m);
        let p = pow2(m);
        lemma_mod_breakdown(v as int, p as int, 2);
        lemma_mul_is_commutative(p as int, 2);
        let d = (v / p) % 2;
        assert(d == 0 || d == 1) by (nonlinear_arith)
            requires
                d == (v / p) % 2,
        ;
    }
}

pub proof fn lemma_bits_value_one(s: Seq<bool>)
    requires
        s.len() == 1,
    ensures
        bits_value(s) == if s[0] { 1nat } else { 0nat },
{
    lemma2_to64();
    assert(s.drop_last() =~= Seq::<bool>::empty());
    assert(bits_value(Seq::<bool>::empty()) == 0);
    assert(s.last() == s[0]);
}

pub proof fn lemma_bits_value_bound(s: Seq<bool>)
    ensures
        bits_value(s) < pow2(s.len()),
    decreases s.len(),
{
    if s.len() == 0 {
        lemma2_to64();
    } else {
        lemma_bits_value_bound(s.drop_last());
        lemma_pow2_unfold(s.len());
    }
}

/// The value of a concatenation.
pub proof fn lemma_bits_value_concat(a: Seq<bool>, b: Seq<bool>)
    ensures
        bits_value(a + b) == bits_value(a) + pow2(a.len()) * bits_value(b),
    decreases b.len(),
{
    let x0 = pow2(a.len());
    if b.len() == 0 {
        assert(a + b =~= a);
        assert(x0 * 0 == 0) by (nonlinear_arith);
    } else {
        lemma_bits_value_concat(a, b.drop_last());
        assert((a + b).drop_last() =~= a + b.drop_last());
        assert((a + b).last() == b.last());
        lemma_pow2_adds(a.len(), (b.len() - 1) as nat);
        let x = pow2(a.len());
        let y = pow2((b.len() - 1) as nat);
        let bv = bits_value(b.drop_last());
        if b.last() {
            assert(x * (bv + y) == x * bv + x * y) by (nonlinear_arith);
        } else {
            assert(x * (bv + 0) == x * bv) by (nonlinear_arith);
        }
    }
}

/// Values below `2^n` survive a write of `n` bits.
pub proof fn lemma_nat_bits_roundtrip(v: nat, n: nat)
    requires
        v < pow2(n),
    ensures
        bits_value(nat_bits(v, n)) == v,
{
    lemma_bits_value_nat_bits(v, n);
    lemma_small_mod(v, pow2(n));
}

/// The window over a stream that holds `w` at `pos` is `w`.
pub proof fn lemma_window_of(bits: Seq<bool>, pos: int, w: Seq<bool>)
    requires
        0 <= pos,
        pos + w.len() <= bits.len(),
        bits.subrange(pos, pos + w.len()) == w,
    ensures
        window(bits, pos, w.len()) == w,
{
    assert forall|j: int| 0 <= j < w.len() implies window(bits, pos, w.len())[j] == w[j] by {
        assert(bits.subrange(pos, pos + w.len())[j] == bits[pos + j]);
    }
    assert(window(bits, pos, w.len()) =~= w);
}

} // verus!

verus! {

/// A position in a bit stream that reads zeros past its end.
///
/// A read that runs past the end stops the position at the end and sets
/// `overrun`.
pub struct BitCursor {
    pub bits: Seq<bool>,
    pub pos: int,
    pub overrun: bool,
}

impl BitCursor {
    pub open spec fn wf(self) -> bool {
        0 <= self.pos <= self.bits.len()
    }

    /// The cursor after consuming `n` bits.
    pub open spec fn advance(self, n: nat) -> BitCursor {
        if self.pos + n <= self.bits.len() {
            BitCursor { bits: self.bits, pos: self.pos + n, overrun: self.overrun }
        } else {
            BitCursor { bits: self.bits, pos: self.bits.len() as int, overrun: true }
        }
    }

    /// The value of the next `n` bits, lowest first.
    pub open spec fn peek(self, n: nat) -> nat {
        bits_value(window(self.bits, self.pos, n))
    }

    /// Whole bytes left after the position.
    pub open spec fn remaining_bytes(self) -> nat {
        ((self.bits.len() - self.pos) / 8) as nat
    }
}

pub proof fn lemma_advance_advance(c: BitCursor, a: nat, b: nat)
    requires
        c.wf(),
    ensures
        c.advance(a).wf(),
        c.advance(a).advance(b) == c.advance(a + b),
{
}

pub proof fn lemma_window_after(c: BitCursor, a: nat, n: nat)
    requires
        c.wf(),
    ensures
        window(c.bits, c.advance(a).pos, n) == window(c.bits, c.pos + a, n),
{
    assert(window(c.bits, c.advance(a).pos, n) =~= window(c.bits, c.pos + a, n));
}

/// A window splits into its first part and the rest.
pub proof fn lemma_window_split(bits: Seq<bool>, pos: int, a: nat, b: nat)
    ensures
        window(bits, pos, a + b) == window(bits, pos, a) + window(bits, pos + a, b),
{
    assert(window(bits, pos, a + b) =~= window(bits, pos, a) + window(bits, pos + a, b));
}

/// Peeking `a + b` bits is peeking `a` bits, then `b` more above them.
pub proof fn lemma_peek_split(c: BitCursor, a: nat, b: nat)
    requires
        c.wf(),
    ensures
        c.peek(a + b) == c.peek(a) + pow2(a) * c.advance(a).peek(b),
{
    lemma_window_split(c.bits, c.pos, a, b);
    lemma_bits_value_concat(window(c.bits, c.pos, a), window(c.bits, c.pos + a, b));
    lemma_window_after(c, a, b);
}

} // verus!
