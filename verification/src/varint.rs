//! Variable-length integer encodings.
use vstd::prelude::*;
use vstd::arithmetic::power2::*;
use vstd::arithmetic::div_mod::*;
use crate::bits::{bytes_as_bits, nat_bits};

verus! {

/// Base-128 little-endian encoding: seven value bits per byte, the high bit
/// set on every byte but the last.
pub open spec fn leb128_bytes(v: nat) -> Seq<u8>
    decreases v,
{
    if v < 128 {
        seq![v as u8]
    } else {
        seq![((v % 128) + 128) as u8] + leb128_bytes(v / 128)
    }
}

/// Zig-zag mapping of a signed value to an unsigned one:
/// 0, -1, 1, -2, ... become 0, 1, 2, 3, ...
pub open spec fn zigzag(v: i32) -> u32 {
    if v >= 0 {
        (2 * v) as u32
    } else {
        (-2 * v - 1) as u32
    }
}

/// Inverse of `zigzag`.
pub open spec fn unzigzag(u: u32) -> i32 {
    if u % 2 == 0 {
        (u / 2) as i32
    } else {
        (-((u / 2) as int) - 1) as i32
    }
}

/// The bit-level "ubit var" encoding: six header bits whose top two select
/// how many more bits follow (none, 4, 8 or 28), the low four header bits
/// holding the value's low four bits.
pub open spec fn ubit_var_bits(v: u32) -> Seq<bool> {
    if v < 16 {
        nat_bits(v as nat, 6)
    } else if v < 256 {
        nat_bits((v % 16 + 16) as nat, 6) + nat_bits((v / 16) as nat, 4)
    } else if v < 4096 {
        nat_bits((v % 16 + 32) as nat, 6) + nat_bits((v / 16) as nat, 8)
    } else {
        nat_bits((v % 16 + 48) as nat, 6) + nat_bits((v / 16) as nat, 28)
    }
}

pub proof fn lemma_leb128_len(v: nat)
    ensures
        1 <= leb128_bytes(v).len(),
        v < pow2(7 * leb128_bytes(v).len() as nat),
        v >= 128 ==> leb128_bytes(v).len() >= 2,
    decreases v,
{
    lemma2_to64();
    if v >= 128 {
        lemma_leb128_len(v / 128);
        let n = leb128_bytes(v / 128).len();
        lemma_pow2_adds(7, 7 * n as nat);
        assert(7 * (n + 1) == 7 + 7 * n);
        assert(v < pow2(7) * pow2(7 * n as nat)) by (nonlinear_arith)
            requires
                v / 128 < pow2(7 * n as nat),
                pow2(7) == 128,
        ;
    }
}

/// Every byte but the last has its high bit set; the last has it clear.
pub proof fn lemma_leb128_len_le(v: nat, k: nat)
    requires
        k >= 1,
        v < pow2(7 * k),
    ensures
        leb128_bytes(v).len() <= k,
    decreases v,
{
    lemma2_to64();
    if v >= 128 {
        if k == 1 {
            assert(false);
        } else {
            lemma_pow2_adds(7, 7 * (k - 1) as nat);
            assert(7 * k == 7 + 7 * (k - 1) as nat);
            assert(v / 128 < pow2(7 * (k - 1) as nat)) by (nonlinear_arith)
                requires
                    v < 128 * pow2(7 * (k - 1) as nat),
            ;
            lemma_leb128_len_le(v / 128, (k - 1) as nat);
        }
    }
}

pub proof fn lemma_leb128_shape(v: nat)
    ensures
        leb128_bytes(v).last() < 128,
        forall|i: int| 0 <= i < leb128_bytes(v).len() - 1 ==> #[trigger] leb128_bytes(v)[i] >= 128,
    decreases v,
{
    if v >= 128 {
        lemma_leb128_shape(v / 128);
        lemma_leb128_len(v / 128);
    }
}

pub proof fn lemma_bytes_as_bits_concat(a: Seq<u8>, b: Seq<u8>)
    ensures
        bytes_as_bits(a + b) == bytes_as_bits(a) + bytes_as_bits(b),
    decreases b.len(),
{
    if b.len() == 0 {
        assert(a + b =~= a);
        assert(bytes_as_bits(a) + bytes_as_bits(b) =~= bytes_as_bits(a));
    } else {
        lemma_bytes_as_bits_concat(a, b.drop_last());
        assert((a + b).drop_last() =~= a + b.drop_last());
        assert((a + b).last() == b.last());
        assert(bytes_as_bits(a + b) =~= bytes_as_bits(a) + bytes_as_bits(b));
    }
}

pub proof fn lemma_bytes_as_bits_len(a: Seq<u8>)
    ensures
        bytes_as_bits(a).len() == 8 * a.len(),
    decreases a.len(),
{
    if a.len() > 0 {
        lemma_bytes_as_bits_len(a.drop_last());
    }
}

pub proof fn lemma_bytes_as_bits_single(b: u8)
    ensures
        bytes_as_bits(seq![b]) == nat_bits(b as nat, 8),
{
    assert(seq![b].drop_last() =~= Seq::<u8>::empty());
    assert(bytes_as_bits(Seq::<u8>::empty()) == Seq::<bool>::empty());
    assert(seq![b].last() == b);
    assert(Seq::<bool>::empty() + nat_bits(b as nat, 8) =~= nat_bits(b as nat, 8));
}

} // verus!

verus! {

/// Encodes `value` in base-128 little-endian form.
pub fn write_var_u64_to_vec(value: u64) -> (out: Vec<u8>)
    ensures
        out@ == leb128_bytes(value as nat),
{
    let mut out: Vec<u8> = Vec::new();
    write_var_u64_to_buf(&mut out, value);
    proof {
        assert(Seq::<u8>::empty() + leb128_bytes(value as nat) =~= leb128_bytes(value as nat));
    }
    out
}

/// Encodes `value` in base-128 little-endian form.
pub fn write_var_u32_to_vec(value: u32) -> (out: Vec<u8>)
    ensures
        out@ == leb128_bytes(value as nat),
{
    write_var_u64_to_vec(value as u64)
}

/// Appends the base-128 little-endian encoding of `value` to `buf` and
/// returns the number of bytes appended.
pub fn write_var_u64_to_buf(buf: &mut Vec<u8>, value: u64) -> (n: usize)
    ensures
        final(buf)@ == old(buf)@ + leb128_bytes(value as nat),
        n == leb128_bytes(value as nat).len(),
{
    let ghost start = buf@;
    let mut cur = value;
    let mut n: usize = 0;
    proof {
        lemma2_to64();
        lemma_pow2_adds(64, 6);
        lemma_leb128_len_le(value as nat, 10);
    }
    while cur >= 128
        invariant
            buf@ + leb128_bytes(cur as nat) == start + leb128_bytes(value as nat),
            n + leb128_bytes(cur as nat).len() == leb128_bytes(value as nat).len(),
            leb128_bytes(value as nat).len() <= 10,
        decreases cur,
    {
        let ghost before = buf@;
        proof {
            lemma_leb128_len((cur / 128) as nat);
        }
        buf.push(((cur % 128) + 128) as u8);
        proof {
            assert(buf@ + leb128_bytes((cur / 128) as nat) =~= before + leb128_bytes(cur as nat));
        }
        cur = cur / 128;
        n = n + 1;
    }
    buf.push(cur as u8);
    proof {
        assert(leb128_bytes(cur as nat) =~= seq![cur as u8]);
    }
    n + 1
}

/// Appends the base-128 little-endian encoding of `value` to `buf` and
/// returns the number of bytes appended.
pub fn write_var_u32_to_buf(buf: &mut Vec<u8>, value: u32) -> (n: usize)
    ensures
        final(buf)@ == old(buf)@ + leb128_bytes(value as nat),
        n == leb128_bytes(value as nat).len(),
{
    write_var_u64_to_buf(buf, value as u64)
}

} // verus!
