//! Bit-level stream reader over a byte slice.
use vstd::prelude::*;
use vstd::arithmetic::power2::*;
use vstd::arithmetic::div_mod::*;
use crate::bits::{
    bits_value, byte_bit, bytes_bits, lemma_advance_advance, lemma_bits_value_bound,
    lemma_peek_split, lemma_window_after, stream_bit, window, BitCursor,
};

verus! {

/// Reads one `ubit var`: six header bits, then 0, 4, 8 or 28 more.
pub open spec fn spec_ubit_var(c: BitCursor) -> (u32, BitCursor) {
    let idx = c.peek(6);
    let c1 = c.advance(6);
    if idx / 16 == 1 {
        ((idx % 16 + 16 * c1.peek(4)) as u32, c1.advance(4))
    } else if idx / 16 == 2 {
        ((idx % 16 + 16 * c1.peek(8)) as u32, c1.advance(8))
    } else if idx / 16 == 3 {
        ((idx % 16 + 16 * c1.peek(28)) as u32, c1.advance(28))
    } else {
        (idx as u32, c1)
    }
}

/// Reads base-128 varint bytes, accumulating seven bits per byte above
/// `shift`, until a byte without its high bit or until `shift` reaches `cap`.
pub open spec fn spec_var_from(c: BitCursor, acc: nat, shift: nat, cap: nat) -> (nat, BitCursor)
    decreases cap - shift,
{
    let b = c.peek(8);
    let c1 = c.advance(8);
    let acc1 = acc + (b % 128) * pow2(shift);
    if b < 128 || shift + 7 >= cap {
        (acc1, c1)
    } else {
        spec_var_from(c1, acc1, shift + 7, cap)
    }
}

/// Reads a base-128 varint of at most five bytes, modulo `2^32`.
pub open spec fn spec_var_u32(c: BitCursor) -> (u32, BitCursor) {
    let (v, c1) = spec_var_from(c, 0, 0, 35);
    ((v % pow2(32)) as u32, c1)
}

/// Reads a base-128 varint of at most ten bytes, modulo `2^64`.
pub open spec fn spec_var_u64(c: BitCursor) -> (u64, BitCursor) {
    let (v, c1) = spec_var_from(c, 0, 0, 70);
    ((v % pow2(64)) as u64, c1)
}

/// Reads `n` whole bytes.
pub open spec fn spec_bytes(c: BitCursor, n: nat) -> (Seq<u8>, BitCursor) {
    (Seq::new(n, |k: int| bits_value(window(c.bits, c.pos + 8 * k, 8)) as u8), c.advance(8 * n))
}

/// Reads `n` bits as bytes: whole bytes, then the remaining low bits of one
/// more byte.
pub open spec fn spec_bits_as_bytes(c: BitCursor, n: nat) -> (Seq<u8>, BitCursor) {
    let count = if n % 8 == 0 { n / 8 } else { n / 8 + 1 };
    (
        Seq::new(
            count,
            |k: int|
                bits_value(window(c.bits, c.pos + 8 * k, if n - 8 * k >= 8 { 8 } else { (n - 8 * k) as nat })) as u8,
        ),
        c.advance(n),
    )
}

/// Reads bytes up to and including a zero byte; returns the bytes before it.
pub open spec fn spec_cstring_bytes(c: BitCursor) -> (Seq<u8>, BitCursor)
    decreases c.bits.len() - c.pos,
{
    let b = c.peek(8);
    let c1 = c.advance(8);
    if b == 0 || !(0 <= c.pos < c.bits.len()) {
        (Seq::empty(), c1)
    } else {
        let (rest, c2) = spec_cstring_bytes(c1);
        (seq![b as u8] + rest, c2)
    }
}

/// Reads a zig-zag mapped varint.
pub open spec fn spec_var_i32(c: BitCursor) -> (i32, BitCursor) {
    let (u, c1) = spec_var_u32(c);
    (crate::varint::unzigzag(u), c1)
}

/// A reader of bits from a byte slice, lowest bit of each byte first.
///
/// Reads past the end of the slice yield zero bits and mark the reader as
/// overrun.
pub struct SliceReader<'a> {
    data: &'a [u8],
    pos: usize,
    overrun: bool,
}

impl<'a> View for SliceReader<'a> {
    type V = BitCursor;

    closed spec fn view(&self) -> BitCursor {
        BitCursor { bits: bytes_bits(self.data@), pos: self.pos as int, overrun: self.overrun }
    }
}

impl<'a> SliceReader<'a> {
    pub closed spec fn wf(&self) -> bool {
        &&& self.pos <= 8 * self.data@.len()
        &&& 8 * self.data@.len() <= usize::MAX
    }

    /// The bytes this reader reads from.
    pub closed spec fn source(&self) -> Seq<u8> {
        self.data@
    }

    /// A well-formed reader's position lies within its bits, which are the
    /// bits of its source.
    pub proof fn lemma_wf(&self)
        requires
            self.wf(),
        ensures
            self@.wf(),
            self@.bits == bytes_bits(self.source()),
            self@.bits.len() == 8 * self.source().len(),
            self@.bits.len() <= usize::MAX,
    {
    }

    /// Creates a reader at the first bit of `data`.
    pub fn new(data: &'a [u8]) -> (r: Self)
        requires
            data@.len() <= usize::MAX / 8,
        ensures
            r.wf(),
            r@ == (BitCursor { bits: bytes_bits(data@), pos: 0, overrun: false }),
            r.source() == data@,
    {
        SliceReader { data, pos: 0, overrun: false }
    }

    /// The bytes this reader reads from.
    pub fn source_buffer(&self) -> (s: &'a [u8])
        ensures
            s@ == self.source(),
    {
        self.data
    }

    /// The current bit position.
    pub fn bit_position(&self) -> (p: usize)
        ensures
            p == self@.pos,
    {
        self.pos
    }

    /// Whether a read ran past the end of the data.
    pub fn overrun(&self) -> (b: bool)
        ensures
            b == self@.overrun,
    {
        self.overrun
    }

    /// Prepares the reader for the next reads; a reader over a slice needs
    /// no buffering, so nothing changes.
    pub fn refill(&mut self)
        ensures
            final(self)@ == old(self)@,
            final(self).source() == old(self).source(),
            final(self).wf() == old(self).wf(),
    {
    }

    /// Whole bytes left to read.
    pub fn remaining_bytes(&self) -> (n: usize)
        requires
            self.wf(),
        ensures
            n == self@.remaining_bytes(),
    {
        (self.data.len() * 8 - self.pos) / 8
    }

    /// Bits left to read.
    pub fn remaining_bits(&self) -> (n: usize)
        requires
            self.wf(),
        ensures
            n == self@.bits.len() - self@.pos,
    {
        self.data.len() * 8 - self.pos
    }

    /// Moves to the start of byte `offset`.
    pub fn seek(&mut self, offset: usize)
        requires
            old(self).wf(),
            offset <= old(self).source().len(),
        ensures
            final(self).wf(),
            final(self).source() == old(self).source(),
            final(self)@ == (BitCursor { pos: 8 * offset, ..old(self)@ }),
    {
        self.pos = offset * 8;
    }

    /// Reads one bit.
    pub fn read_bool(&mut self) -> (b: bool)
        requires
            old(self).wf(),
        ensures
            final(self).wf(),
            final(self).source() == old(self).source(),
            b == stream_bit(old(self)@.bits, old(self)@.pos),
            b == (old(self)@.peek(1) == 1),
            old(self)@.peek(1) == if b { 1nat } else { 0nat },
            final(self)@ == old(self)@.advance(1),
    {
        proof {
            crate::bits::lemma_bits_value_one(window(self@.bits, self@.pos, 1));
        }
        if self.pos < self.data.len() * 8 {
            let byte = self.data[self.pos / 8];
            let k = (self.pos % 8) as u8;
            let bit = ((byte >> k) & 1u8) == 1u8;
            proof {
                assert(bit == byte_bit(self.data@[(self.pos / 8) as int], (self.pos % 8) as nat));
                assert(self@.bits[self.pos as int] == bit);
                assert(window(self@.bits, self@.pos, 1).last() == bit);
            }
            self.pos = self.pos + 1;
            bit
        } else {
            proof {
                assert(window(self@.bits, self@.pos, 1).last() == false);
            }
            self.overrun = true;
            false
        }
    }

    fn read_value(&mut self, n: u32) -> (v: u64)
        requires
            old(self).wf(),
            n <= 64,
        ensures
            final(self).wf(),
            final(self).source() == old(self).source(),
            v == old(self)@.peek(n as nat),
            final(self)@ == old(self)@.advance(n as nat),
    {
        let ghost c0 = self@;
        let mut acc: u64 = 0;
        let mut pow: u128 = 1;
        let mut i: u32 = 0;
        proof {
            lemma2_to64();
            assert(window(c0.bits, c0.pos, 0) =~= Seq::<bool>::empty());
            assert(c0.advance(0) == c0);
        }
        while i < n
            invariant
                self.wf(),
                self.source() == old(self).source(),
                c0 == old(self)@,
                c0.wf(),
                i <= n <= 64,
                pow == pow2(i as nat),
                acc == bits_value(window(c0.bits, c0.pos, i as nat)),
                self@ == c0.advance(i as nat),
            decreases n - i,
        {
            let ghost before = self@;
            let b = self.read_bool();
            proof {
                lemma_advance_advance(c0, i as nat, 1);
                lemma_window_after(c0, i as nat, 1);
                let w1 = window(c0.bits, c0.pos, (i + 1) as nat);
                assert(w1.drop_last() =~= window(c0.bits, c0.pos, i as nat));
                assert(w1.last() == stream_bit(c0.bits, c0.pos + i));
                assert(window(c0.bits, c0.pos + i, 1)[0] == stream_bit(c0.bits, c0.pos + i));
                lemma_bits_value_bound(window(c0.bits, c0.pos, i as nat));
                lemma_pow2_unfold((i + 1) as nat);
                lemma2_to64();
                if i < 63 {
                    lemma_pow2_strictly_increases(i as nat, 63);
                }
                assert(acc < pow);
                lemma2_to64_rest();
                assert(pow2(63) == 0x8000000000000000);
                assert(pow <= 0x8000000000000000);
            }
            if b {
                acc = acc + pow as u64;
            }
            pow = pow * 2;
            i = i + 1;
        }
        acc
    }

    /// Reads `n` bits, lowest first.
    pub fn read_bits(&mut self, n: u32) -> (v: u32)
        requires
            old(self).wf(),
            n <= 32,
        ensures
            final(self).wf(),
            final(self).source() == old(self).source(),
            v == old(self)@.peek(n as nat),
            final(self)@ == old(self)@.advance(n as nat),
    {
        proof {
            lemma_bits_value_bound(window(self@.bits, self@.pos, n as nat));
            lemma2_to64();
            if n < 32 {
                lemma_pow2_strictly_increases(n as nat, 32);
            }
        }
        self.read_value(n) as u32
    }

    /// The value of the next `n` bits, lowest first, without consuming them.
    pub fn peek_bits(&self, n: u32) -> (v: u32)
        requires
            self.wf(),
            n <= 32,
        ensures
            v == self@.peek(n as nat),
    {
        let mut ahead = SliceReader { data: self.data, pos: self.pos, overrun: self.overrun };
        ahead.read_bits(n)
    }

    /// Consumes `n` bits.
    pub fn skip_bits(&mut self, n: u32)
        requires
            old(self).wf(),
        ensures
            final(self).wf(),
            final(self).source() == old(self).source(),
            final(self)@ == old(self)@.advance(n as nat),
    {
        let left = self.data.len() * 8 - self.pos;
        if (n as usize) <= left {
            self.pos = self.pos + n as usize;
        } else {
            self.pos = self.data.len() * 8;
            self.overrun = true;
        }
    }

    /// Same as `read_bits`.
    pub fn read_bits_unchecked(&mut self, n: u32) -> (v: u32)
        requires
            old(self).wf(),
            n <= 32,
        ensures
            final(self).wf(),
            final(self).source() == old(self).source(),
            v == old(self)@.peek(n as nat),
            final(self)@ == old(self)@.advance(n as nat),
    {
        self.read_bits(n)
    }

    /// Reads a `ubit var`.
    pub fn read_ubit_var(&mut self) -> (v: u32)
        requires
            old(self).wf(),
        ensures
            final(self).wf(),
            final(self).source() == old(self).source(),
            (v, final(self)@) == spec_ubit_var(old(self)@),
    {
        let idx = self.read_bits(6);
        proof {
            lemma_bits_value_bound(window(old(self)@.bits, old(self)@.pos, 6));
            lemma2_to64();
        }
        let sel = idx / 16;
        if sel == 1 {
            let ghost c1 = self@;
            proof {
                lemma_bits_value_bound(window(c1.bits, c1.pos, 4));
                lemma2_to64();
            }
            let x = self.read_bits(4);
            (idx % 16) + 16 * x
        } else if sel == 2 {
            let ghost c1 = self@;
            proof {
                lemma_bits_value_bound(window(c1.bits, c1.pos, 8));
                lemma2_to64();
            }
            let x = self.read_bits(8);
            (idx % 16) + 16 * x
        } else if sel == 3 {
            let ghost c1 = self@;
            proof {
                lemma_bits_value_bound(window(c1.bits, c1.pos, 28));
                lemma2_to64();
            }
            let x = self.read_bits(28);
            (idx % 16) + 16 * x
        } else {
            idx
        }
    }

    fn read_var(&mut self, cap: u32) -> (v: u64)
        requires
            old(self).wf(),
            cap == 35 || cap == 70,
        ensures
            final(self).wf(),
            final(self).source() == old(self).source(),
            (v as nat, final(self)@) == ({
                let (x, c) = spec_var_from(old(self)@, 0, 0, cap as nat);
                ((x % pow2(64)) as nat, c)
            }),
    {
        let ghost c0 = self@;
        let mut acc: u128 = 0;
        let mut shift: u32 = 0;
        let mut p: u128 = 1;
        proof {
            lemma2_to64();
        }
        loop
            invariant_except_break
                self.wf(),
                self.source() == old(self).source(),
                shift % 7 == 0,
                shift < cap,
                cap == 35 || cap == 70,
                acc < pow2(shift as nat),
                p == pow2(shift as nat),
                spec_var_from(c0, 0, 0, cap as nat) == spec_var_from(self@, acc as nat, shift as nat, cap as nat),
            ensures
                self.wf(),
                self.source() == old(self).source(),
                acc < pow2(77),
                (acc as nat, self@) == spec_var_from(c0, 0, 0, cap as nat),
            decreases cap - shift,
        {
            let ghost before = self@;
            let b = self.read_value(8);
            proof {
                lemma_bits_value_bound(window(before.bits, before.pos, 8));
                lemma_pow2_adds(shift as nat, 7);
                lemma_pow2_strictly_increases(shift as nat, 70);
                lemma_pow2_adds(70, 7);
                assert((b % 128) * pow2(shift as nat) < 128 * pow2(shift as nat)) by (nonlinear_arith)
                    requires
                        b % 128 < 128,
                        pow2(shift as nat) > 0,
                ;
                lemma2_to64();
                lemma_pow2_adds(64, 6);
                assert(pow2(7) == 128);
                assert(pow2(70) == 0x400000000000000000);
            }
            proof {
                assert(acc + (b % 128) * p < 128 * p) by (nonlinear_arith)
                    requires
                        acc < p,
                        b % 128 < 128,
                ;
                if shift + 7 < 77 {
                    lemma_pow2_strictly_increases((shift + 7) as nat, 77);
                }
            }
            acc = acc + ((b % 128) as u128) * p;
            if b < 128 || shift + 7 >= cap {
                break;
            }
            shift = shift + 7;
            p = p * 128;
        }
        proof {
            lemma2_to64();
            vstd::arithmetic::div_mod::lemma_mod_bound(acc as int, pow2(64) as int);
        }
        (acc % 0x10000000000000000u128) as u64
    }

    /// Reads a base-128 varint of at most five bytes.
    pub fn read_var_u32(&mut self) -> (v: u32)
        requires
            old(self).wf(),
        ensures
            final(self).wf(),
            final(self).source() == old(self).source(),
            (v, final(self)@) == spec_var_u32(old(self)@),
    {
        let x = self.read_var(35);
        proof {
            lemma2_to64();
            let (s, c) = spec_var_from(old(self)@, 0, 0, 35);
            lemma_mod_mod_pow(s, 32, 64);
        }
        (x % 0x100000000u64) as u32
    }

    /// Reads a base-128 varint of at most ten bytes.
    pub fn read_var_u64(&mut self) -> (v: u64)
        requires
            old(self).wf(),
        ensures
            final(self).wf(),
            final(self).source() == old(self).source(),
            (v, final(self)@) == spec_var_u64(old(self)@),
    {
        self.read_var(70)
    }

    /// Reads a zig-zag mapped varint.
    pub fn read_var_i32(&mut self) -> (v: i32)
        requires
            old(self).wf(),
        ensures
            final(self).wf(),
            final(self).source() == old(self).source(),
            (v, final(self)@) == spec_var_i32(old(self)@),
    {
        let u = self.read_var_u32();
        if u % 2 == 0 {
            (u / 2) as i32
        } else {
            -((u / 2) as i32) - 1
        }
    }
}

impl<'a> SliceReader<'a> {
    /// Reads `n` whole bytes.
    pub fn read_bytes(&mut self, n: u32) -> (out: Vec<u8>)
        requires
            old(self).wf(),
        ensures
            final(self).wf(),
            final(self).source() == old(self).source(),
            (out@, final(self)@) == spec_bytes(old(self)@, n as nat),
    {
        let ghost c0 = self@;
        let mut out: Vec<u8> = Vec::new();
        let mut k: u32 = 0;
        proof {
            lemma_advance_zero(c0);
        }
        while k < n
            invariant
                self.wf(),
                self.source() == old(self).source(),
                c0 == old(self)@,
                c0.wf(),
                k <= n,
                self@ == c0.advance(8 * k as nat),
                out@ == spec_bytes(c0, k as nat).0,
            decreases n - k,
        {
            proof {
                lemma_window_after(c0, 8 * k as nat, 8);
                lemma_advance_advance(c0, 8 * k as nat, 8);
                lemma_bits_value_bound(window(c0.bits, c0.pos + 8 * k, 8));
                lemma2_to64();
            }
            let b = self.read_value(8);
            out.push(b as u8);
            proof {
                assert(8 * k as nat + 8 == 8 * (k + 1) as nat);
                assert(out@ =~= spec_bytes(c0, (k + 1) as nat).0);
            }
            k = k + 1;
        }
        out
    }

    /// Reads `n` bits as bytes: whole bytes, then the remaining low bits as
    /// one more byte.
    pub fn read_bits_as_bytes(&mut self, n: u32) -> (out: Vec<u8>)
        requires
            old(self).wf(),
        ensures
            final(self).wf(),
            final(self).source() == old(self).source(),
            (out@, final(self)@) == spec_bits_as_bytes(old(self)@, n as nat),
    {
        let ghost c0 = self@;
        let full = n / 8;
        let rem = n % 8;
        let mut out = self.read_bytes(full);
        proof {
            lemma_advance_advance(c0, 8 * full as nat, rem as nat);
            lemma_window_after(c0, 8 * full as nat, rem as nat);
        }
        if rem > 0 {
            proof {
                lemma_bits_value_bound(window(c0.bits, c0.pos + 8 * full, rem as nat));
                lemma2_to64();
                lemma_pow2_strictly_increases(rem as nat, 8);
            }
            let b = self.read_value(rem);
            out.push(b as u8);
        }
        proof {
            assert(8 * full as nat + rem as nat == n as nat);
            assert(out@ =~= spec_bits_as_bytes(c0, n as nat).0);
        }
        out
    }

    /// Reads bytes up to a zero byte and returns the bytes before it.
    pub fn read_cstring_bytes(&mut self) -> (out: Vec<u8>)
        requires
            old(self).wf(),
        ensures
            final(self).wf(),
            final(self).source() == old(self).source(),
            (out@, final(self)@) == spec_cstring_bytes(old(self)@),
    {
        let mut out: Vec<u8> = Vec::new();
        loop
            invariant_except_break
                self.wf(),
                self.source() == old(self).source(),
                spec_cstring_bytes(old(self)@) == (out@ + spec_cstring_bytes(self@).0, spec_cstring_bytes(self@).1),
            ensures
                self.wf(),
                self.source() == old(self).source(),
                spec_cstring_bytes(old(self)@) == (out@, self@),
            decreases self@.bits.len() - self@.pos,
        {
            let ghost c = self@;
            proof {
                lemma_bits_value_bound(window(c.bits, c.pos, 8));
                lemma2_to64();
                if c.pos >= c.bits.len() {
                    lemma_window_past_end(c.bits, c.pos, 8);
                }
            }
            let b = self.read_value(8);
            if b == 0 {
                proof {
                    assert(out@ + Seq::<u8>::empty() =~= out@);
                }
                break;
            }
            proof {
                let (rest, c2) = spec_cstring_bytes(self@);
                assert(out@ + (seq![b as u8] + rest) =~= out@.push(b as u8) + rest);
            }
            out.push(b as u8);
        }
        out
    }

    /// Reads a zero-terminated string; invalid UTF-8 is replaced as by
    /// `String::from_utf8_lossy`.
    pub fn read_cstring(&mut self) -> (s: String)
        requires
            old(self).wf(),
        ensures
            final(self).wf(),
            final(self).source() == old(self).source(),
            s@ == utf8_lossy(spec_cstring_bytes(old(self)@).0),
            final(self)@ == spec_cstring_bytes(old(self)@).1,
    {
        let bytes = self.read_cstring_bytes();
        string_from_utf8_lossy(bytes.as_slice())
    }
}

/// What `String::from_utf8_lossy` returns for bytes that are not valid UTF-8.
pub uninterp spec fn utf8_lossy_invalid(bytes: Seq<u8>) -> Seq<char>;

/// What `String::from_utf8_lossy` returns: valid UTF-8 decoded unchanged.
pub open spec fn utf8_lossy(bytes: Seq<u8>) -> Seq<char> {
    if vstd::utf8::valid_utf8(bytes) {
        vstd::utf8::decode_utf8(bytes)
    } else {
        utf8_lossy_invalid(bytes)
    }
}

/// Calls `String::from_utf8_lossy`. Its documentation says that valid
/// UTF-8 is decoded unchanged and that each invalid sequence becomes a
/// replacement character; the contract states the first part and names the
/// result for invalid input.
#[verifier::external_body]
pub(crate) fn string_from_utf8_lossy(bytes: &[u8]) -> (s: String)
    ensures
        s@ == utf8_lossy(bytes@),
        !vstd::utf8::valid_utf8(bytes@) ==> s@ == utf8_lossy_invalid(bytes@),
{
    String::from_utf8_lossy(bytes).into_owned()
}

/// Reading varint bytes never moves backwards.
pub proof fn lemma_var_from_advances(c: BitCursor, acc: nat, shift: nat, cap: nat)
    requires
        c.wf(),
    ensures
        spec_var_from(c, acc, shift, cap).1.pos >= c.pos,
        spec_var_from(c, acc, shift, cap).1.wf(),
        spec_var_from(c, acc, shift, cap).1.bits == c.bits,
        c.overrun ==> spec_var_from(c, acc, shift, cap).1.overrun,
    decreases cap - shift,
{
    let b = c.peek(8);
    let c1 = c.advance(8);
    let acc1 = acc + (b % 128) * pow2(shift);
    if !(b < 128 || shift + 7 >= cap) {
        lemma_var_from_advances(c1, acc1, shift + 7, cap);
    }
}

/// Reading a zero-terminated string never moves backwards.
pub proof fn lemma_cstring_advances(c: BitCursor)
    requires
        c.wf(),
    ensures
        spec_cstring_bytes(c).1.pos >= c.pos,
        spec_cstring_bytes(c).1.wf(),
        spec_cstring_bytes(c).1.bits == c.bits,
        c.overrun ==> spec_cstring_bytes(c).1.overrun,
    decreases c.bits.len() - c.pos,
{
    let c1 = c.advance(8);
    if !(c.peek(8) == 0 || !(0 <= c.pos < c.bits.len())) {
        lemma_cstring_advances(c1);
    }
}

/// Reading a `ubit var` never moves backwards, keeps an overrun, and
/// consumes at least six bits when it does not run past the end.
pub proof fn lemma_ubit_var_advances(c: BitCursor)
    requires
        c.wf(),
    ensures
        spec_ubit_var(c).1.pos >= c.pos,
        spec_ubit_var(c).1.wf(),
        spec_ubit_var(c).1.bits == c.bits,
        c.overrun ==> spec_ubit_var(c).1.overrun,
        !spec_ubit_var(c).1.overrun ==> spec_ubit_var(c).1.pos >= c.pos + 6,
{
}

pub proof fn lemma_advance_zero(c: BitCursor)
    requires
        c.wf(),
    ensures
        c.advance(0) == c,
        spec_bytes(c, 0).0 == Seq::<u8>::empty(),
{
    assert(spec_bytes(c, 0).0 =~= Seq::<u8>::empty());
}

/// Past the end of the data every window reads zero.
pub proof fn lemma_window_past_end(bits: Seq<bool>, pos: int, n: nat)
    requires
        pos >= bits.len(),
    ensures
        bits_value(window(bits, pos, n)) == 0,
    decreases n,
{
    if n > 0 {
        lemma_window_past_end(bits, pos, (n - 1) as nat);
        assert(window(bits, pos, n).drop_last() =~= window(bits, pos, (n - 1) as nat));
    }
}

/// Reducing modulo `2^a` after `2^b`, with `a <= b`, is reducing modulo `2^a`.
pub proof fn lemma_mod_mod_pow(x: nat, a: nat, b: nat)
    requires
        a <= b,
    ensures
        (x % pow2(b)) % pow2(a) == x % pow2(a),
{
    lemma_pow2_adds(a, (b - a) as nat);
    lemma_pow2_pos(a);
    lemma_pow2_pos((b - a) as nat);
    vstd::arithmetic::div_mod::lemma_mod_mod(x as int, pow2(a) as int, pow2((b - a) as nat) as int);
}

} // verus!
