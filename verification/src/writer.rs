//! Bit-level stream writer.
use vstd::prelude::*;
use vstd::string::StringSliceAdditionalSpecFns;
use vstd::arithmetic::power2::*;
use vstd::arithmetic::div_mod::*;
use crate::bits::{
    byte_bit, byte_bits, bytes_as_bits, bytes_bits, lemma_bytes_bits_empty, lemma_bytes_bits_push,
    lemma_nat_bits_push, nat_bits, pad_to_byte,
};
use crate::error::ParserError;
use crate::varint::{
    leb128_bytes, lemma_bytes_as_bits_concat, lemma_bytes_as_bits_len, lemma_bytes_as_bits_single,
    ubit_var_bits, write_var_u64_to_vec, zigzag,
};

verus! {

/// A writer that packs bits into bytes, lowest bit of each byte first.
pub struct BitstreamWriter {
    bytes: Vec<u8>,
    cur: u8,
    nbits: u8,
}

impl View for BitstreamWriter {
    type V = Seq<bool>;

    /// Every bit written so far, in order.
    closed spec fn view(&self) -> Seq<bool> {
        bytes_bits(self.bytes@) + byte_bits(self.cur, self.nbits as nat)
    }
}

impl BitstreamWriter {
    /// The writer's internal state is consistent.
    pub closed spec fn wf(&self) -> bool {
        &&& self.nbits < 8
        &&& (self.cur >> self.nbits) == 0u8
    }

    /// Creates an empty writer.
    pub fn new() -> (w: Self)
        ensures
            w.wf(),
            w@ == Seq::<bool>::empty(),
    {
        let w = BitstreamWriter { bytes: Vec::new(), cur: 0, nbits: 0 };
        proof {
            lemma_bytes_bits_empty();
            assert(0u8 >> 0u8 == 0u8) by (bit_vector);
            assert(w@ =~= Seq::<bool>::empty());
        }
        w
    }

    /// Number of bits written so far.
    pub fn bit_len(&self) -> (n: usize)
        requires
            self.wf(),
            self@.len() <= usize::MAX,
        ensures
            n == self@.len(),
    {
        proof {
            assert(self@.len() == 8 * self.bytes@.len() + self.nbits);
        }
        self.bytes.len() * 8 + self.nbits as usize
    }

    fn push_bit(&mut self, bit: bool)
        requires
            old(self).wf(),
        ensures
            final(self).wf(),
            final(self)@ == old(self)@.push(bit),
    {
        let ghost old_bits = self@;
        let k = self.nbits;
        let c = self.cur;
        let c2: u8 = if bit { c | (1u8 << k) } else { c };
        proof {
            assert(c >> k == 0u8 && k < 8 ==> forall|i: u8| i < k ==> #[trigger] ((c2 >> i) & 1u8) == ((c >> i) & 1u8))
                by (bit_vector)
                requires
                    c2 == (if bit { c | (1u8 << k) } else { c }),
            ;
            assert(c >> k == 0u8 && k < 8 ==> (((c2 >> k) & 1u8) == 1u8) == bit && (c2 >> ((k + 1) as u8)) == 0u8)
                by (bit_vector)
                requires
                    c2 == (if bit { c | (1u8 << k) } else { c }),
            ;
            assert(byte_bits(c2, (k + 1) as nat) =~= byte_bits(c, k as nat).push(bit)) by {
                assert forall|i: int| 0 <= i < k implies #[trigger] byte_bit(c2, i as nat) == byte_bit(c, i as nat) by {
                    let ii = i as u8;
                    assert(((c2 >> ii) & 1u8) == ((c >> ii) & 1u8));
                }
            }
        }
        if k == 7 {
            self.bytes.push(c2);
            self.cur = 0;
            self.nbits = 0;
            proof {
                lemma_bytes_bits_push(self.bytes@.drop_last(), c2);
                assert(self.bytes@.drop_last() =~= old(self).bytes@);
                assert(byte_bits(0u8, 0) =~= Seq::<bool>::empty());
                assert(0u8 >> 0u8 == 0u8) by (bit_vector);
                assert(self@ =~= old_bits.push(bit));
            }
        } else {
            self.cur = c2;
            self.nbits = k + 1;
            proof {
                assert(self@ =~= old_bits.push(bit));
            }
        }
    }

    /// Writes one bit.
    pub fn write_bit(&mut self, bit: bool) -> (r: Result<(), ParserError>)
        requires
            old(self).wf(),
        ensures
            final(self).wf(),
            r is Ok,
            final(self)@ == old(self)@.push(bit),
    {
        self.push_bit(bit);
        Ok(())
    }

    fn push_value(&mut self, bit_count: u32, value: u64)
        requires
            old(self).wf(),
            bit_count <= 64,
        ensures
            final(self).wf(),
            final(self)@ == old(self)@ + nat_bits(value as nat, bit_count as nat),
    {
        let ghost start = self@;
        let mut cur: u64 = value;
        let mut i: u32 = 0;
        proof {
            lemma2_to64();
            assert(start + nat_bits(value as nat, 0) =~= start);
        }
        while i < bit_count
            invariant
                self.wf(),
                i <= bit_count <= 64,
                cur == value as nat / pow2(i as nat),
                self@ == start + nat_bits(value as nat, i as nat),
            decreases bit_count - i,
        {
            let bit = cur % 2 == 1;
            self.push_bit(bit);
            proof {
                lemma_nat_bits_push(value as nat, i as nat);
                assert(self@ =~= start + nat_bits(value as nat, (i + 1) as nat));
                lemma_pow2_unfold((i + 1) as nat);
                lemma_pow2_pos(i as nat);
                lemma_div_denominator(value as int, pow2(i as nat) as int, 2);
            }
            cur = cur / 2;
            i = i + 1;
        }
    }

    /// Writes the low `bit_count` bits of `value`, lowest first.
    ///
    /// Fails when `bit_count` exceeds 64.
    pub fn write_bits(&mut self, bit_count: u32, value: u64) -> (r: Result<(), ParserError>)
        requires
            old(self).wf(),
        ensures
            final(self).wf(),
            r is Ok <==> bit_count <= 64,
            r is Ok ==> final(self)@ == old(self)@ + nat_bits(value as nat, bit_count as nat),
            r is Err ==> final(self)@ == old(self)@,
    {
        if bit_count > 64 {
            return Err(ParserError::IoError("bit count exceeds 64".to_owned()));
        }
        self.push_value(bit_count, value);
        Ok(())
    }

    fn push_byte(&mut self, b: u8)
        requires
            old(self).wf(),
        ensures
            final(self).wf(),
            final(self)@ == old(self)@ + nat_bits(b as nat, 8),
    {
        self.push_value(8, b as u64);
    }

    /// Writes whole bytes, eight bits each.
    pub fn write_bytes(&mut self, bytes: &[u8]) -> (r: Result<(), ParserError>)
        requires
            old(self).wf(),
        ensures
            final(self).wf(),
            r is Ok,
            final(self)@ == old(self)@ + bytes_as_bits(bytes@),
    {
        let ghost start = self@;
        let mut i: usize = 0;
        proof {
            assert(bytes@.take(0) =~= Seq::<u8>::empty());
            assert(start + bytes_as_bits(Seq::<u8>::empty()) =~= start);
        }
        while i < bytes.len()
            invariant
                self.wf(),
                i <= bytes.len(),
                self@ == start + bytes_as_bits(bytes@.take(i as int)),
            decreases bytes.len() - i,
        {
            self.push_byte(bytes[i]);
            proof {
                assert(bytes@.take(i + 1).drop_last() =~= bytes@.take(i as int));
                assert(self@ =~= start + bytes_as_bits(bytes@.take(i + 1)));
            }
            i = i + 1;
        }
        proof {
            assert(bytes@.take(bytes.len() as int) =~= bytes@);
        }
        Ok(())
    }

    /// Pads the last byte with zero bits.
    pub fn flush(&mut self) -> (r: Result<(), ParserError>)
        requires
            old(self).wf(),
        ensures
            final(self).wf(),
            r is Ok,
            final(self)@ == pad_to_byte(old(self)@),
            final(self)@.len() % 8 == 0,
    {
        let ghost start = self@;
        proof {
            assert(start.len() % 8 == self.nbits as nat) by (nonlinear_arith)
                requires
                    start.len() == 8 * self.bytes@.len() + self.nbits,
                    self.nbits < 8,
            ;
        }
        if self.nbits > 0 {
            let missing: u8 = 8 - self.nbits;
            let mut i: u8 = 0;
            while i < missing
                invariant
                    self.wf(),
                    i <= missing,
                    missing == 8 - start.len() % 8,
                    self@ == start + Seq::new(i as nat, |j: int| false),
                decreases missing - i,
            {
                self.push_bit(false);
                proof {
                    assert(self@ =~= start + Seq::new((i + 1) as nat, |j: int| false));
                }
                i = i + 1;
            }
            proof {
                assert(pad_to_byte(start) =~= self@);
            }
        } else {
            proof {
                assert(pad_to_byte(start) =~= start);
            }
        }
        proof {
            assert(self@.len() % 8 == 0) by (nonlinear_arith)
                requires
                    self@.len() == pad_to_byte(start).len(),
                    pad_to_byte(start).len() == start.len() + (8 - start.len() % 8) % 8,
            ;
        }
        Ok(())
    }

    /// Finishes the stream, padding the last byte with zero bits, and
    /// returns the bytes.
    pub fn into_inner(self) -> (out: Vec<u8>)
        requires
            self.wf(),
        ensures
            bytes_bits(out@) == pad_to_byte(self@),
    {
        let mut w = self;
        let _ = w.flush();
        proof {
            assert(w.nbits == 0) by {
                assert(w@.len() == 8 * w.bytes@.len() + w.nbits);
                assert(w@.len() % 8 == 0);
                assert(w.nbits as int == w@.len() % 8) by (nonlinear_arith)
                    requires
                        w@.len() == 8 * w.bytes@.len() + w.nbits,
                        w.nbits < 8,
                ;
            }
            assert(w@ =~= bytes_bits(w.bytes@));
        }
        w.bytes
    }
}


impl BitstreamWriter {
    /// Writes `value` as a base-128 varint, one byte per eight bits.
    pub fn write_var_u64(&mut self, value: u64) -> (r: Result<(), ParserError>)
        requires
            old(self).wf(),
        ensures
            final(self).wf(),
            r is Ok,
            final(self)@ == old(self)@ + bytes_as_bits(leb128_bytes(value as nat)),
    {
        let bytes = write_var_u64_to_vec(value);
        self.write_bytes(bytes.as_slice())
    }

    /// Writes `value` as a base-128 varint, one byte per eight bits.
    pub fn write_var_u32(&mut self, value: u32) -> (r: Result<(), ParserError>)
        requires
            old(self).wf(),
        ensures
            final(self).wf(),
            r is Ok,
            final(self)@ == old(self)@ + bytes_as_bits(leb128_bytes(value as nat)),
    {
        self.write_var_u64(value as u64)
    }

    /// Writes `value` zig-zag mapped, then as a base-128 varint.
    pub fn write_var_i32(&mut self, value: i32) -> (r: Result<(), ParserError>)
        requires
            old(self).wf(),
        ensures
            final(self).wf(),
            r is Ok,
            final(self)@ == old(self)@ + bytes_as_bits(leb128_bytes(zigzag(value) as nat)),
    {
        let u: u32 = if value >= 0 {
            (value as u32) * 2
        } else {
            ((-(value + 1)) as u32) * 2 + 1
        };
        assert(u == zigzag(value));
        self.write_var_u32(u)
    }

    /// Writes `value` in the "ubit var" form: six header bits, then 0, 4, 8
    /// or 28 more bits.
    pub fn write_ubit_var(&mut self, value: u32) -> (r: Result<(), ParserError>)
        requires
            old(self).wf(),
        ensures
            final(self).wf(),
            r is Ok,
            final(self)@ == old(self)@ + ubit_var_bits(value),
    {
        let ghost start = self@;
        if value < 16 {
            self.push_value(6, value as u64);
        } else if value < 256 {
            self.push_value(6, (value % 16 + 16) as u64);
            self.push_value(4, (value / 16) as u64);
        } else if value < 4096 {
            self.push_value(6, (value % 16 + 32) as u64);
            self.push_value(8, (value / 16) as u64);
        } else {
            self.push_value(6, (value % 16 + 48) as u64);
            self.push_value(28, (value / 16) as u64);
        }
        proof {
            assert(self@ =~= start + ubit_var_bits(value));
        }
        Ok(())
    }

    /// Writes the bytes of `s` followed by a zero byte.
    pub fn write_cstring(&mut self, s: &str) -> (r: Result<(), ParserError>)
        requires
            old(self).wf(),
        ensures
            final(self).wf(),
            r is Ok,
            final(self)@ == old(self)@ + bytes_as_bits(s.spec_bytes().push(0u8)),
    {
        let ghost start = self@;
        let bytes = s.as_bytes();
        let _ = self.write_bytes(bytes);
        self.push_byte(0);
        proof {
            lemma_bytes_as_bits_concat(s.spec_bytes(), seq![0u8]);
            lemma_bytes_as_bits_single(0u8);
            assert(s.spec_bytes() + seq![0u8] =~= s.spec_bytes().push(0u8));
            assert(self@ =~= start + bytes_as_bits(s.spec_bytes().push(0u8)));
        }
        Ok(())
    }

    /// Writes the first `bit_count` bits of `value`: its whole bytes, then
    /// the low bits of the next byte.
    ///
    /// Fails when `value` holds fewer than `bit_count` bits.
    pub fn write_bits_as_bytes(&mut self, value: &[u8], bit_count: u32) -> (r: Result<(), ParserError>)
        requires
            old(self).wf(),
        ensures
            final(self).wf(),
            r is Ok <==> bit_count <= 8 * value@.len(),
            r is Ok ==> final(self)@ == old(self)@ + bytes_as_bits(value@).take(bit_count as int),
            r is Err ==> final(self)@ == old(self)@,
    {
        if value.len() < (bit_count / 8) as usize || (value.len() == (bit_count / 8) as usize && bit_count % 8 != 0) {
            return Err(ParserError::IoError("not enough bytes for the requested bit count".to_owned()));
        }
        let ghost start = self@;
        let full = (bit_count / 8) as usize;
        let rem = bit_count % 8;
        let mut i: usize = 0;
        proof {
            assert(bytes_as_bits(value@.take(0)) =~= Seq::<bool>::empty()) by {
                assert(value@.take(0) =~= Seq::<u8>::empty());
            }
            assert(start + Seq::<bool>::empty() =~= start);
        }
        while i < full
            invariant
                self.wf(),
                i <= full <= value.len(),
                self@ == start + bytes_as_bits(value@.take(i as int)),
            decreases full - i,
        {
            self.push_byte(value[i]);
            proof {
                assert(value@.take(i + 1).drop_last() =~= value@.take(i as int));
                assert(self@ =~= start + bytes_as_bits(value@.take(i + 1)));
            }
            i = i + 1;
        }
        proof {
            lemma_bytes_as_bits_len(value@.take(full as int));
            lemma_bytes_as_bits_len(value@);
            lemma_bytes_as_bits_concat(value@.take(full as int), value@.skip(full as int));
            assert(value@.take(full as int) + value@.skip(full as int) =~= value@);
        }
        if rem > 0 {
            let b = value[full];
            self.push_value(rem, b as u64);
            proof {
                let rest = value@.skip(full as int);
                assert(rest =~= seq![b] + rest.skip(1));
                lemma_bytes_as_bits_concat(seq![b], rest.skip(1));
                lemma_bytes_as_bits_single(b);
                assert(nat_bits(b as nat, 8).take(rem as int) =~= nat_bits(b as nat, rem as nat));
                assert(bytes_as_bits(value@).take(bit_count as int) =~= bytes_as_bits(value@.take(full as int)) + nat_bits(b as nat, rem as nat));
                assert(self@ =~= start + bytes_as_bits(value@).take(bit_count as int));
            }
        } else {
            proof {
                assert(bytes_as_bits(value@).take(bit_count as int) =~= bytes_as_bits(value@.take(full as int)));
            }
        }
        Ok(())
    }
}

} // verus!
