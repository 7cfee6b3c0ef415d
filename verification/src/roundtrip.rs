//! What a reader gives back of what a writer wrote.
use vstd::prelude::*;
use vstd::arithmetic::power2::*;
use vstd::arithmetic::div_mod::*;
use crate::bits::{
    bits_value, bytes_as_bits, lemma_advance_advance, lemma_bits_value_concat,
    lemma_nat_bits_roundtrip, lemma_window_of, lemma_window_after, nat_bits, window, BitCursor,
};
use crate::reader::{
    spec_bits_as_bytes, spec_bytes, spec_cstring_bytes, spec_ubit_var, spec_var_from, spec_var_i32,
    spec_var_u32, spec_var_u64,
};
use crate::varint::{
    leb128_bytes, lemma_bytes_as_bits_concat, lemma_bytes_as_bits_len, lemma_bytes_as_bits_single,
    lemma_leb128_len, lemma_leb128_len_le, ubit_var_bits, unzigzag, zigzag,
};

verus! {

/// The stream under cursor `c` holds `w` at its position, within the data.
pub open spec fn holds_at(c: BitCursor, w: Seq<bool>) -> bool {
    &&& 0 <= c.pos
    &&& c.pos + w.len() <= c.bits.len()
    &&& c.bits.subrange(c.pos, c.pos + w.len()) == w
}

pub proof fn lemma_holds_split(c: BitCursor, a: Seq<bool>, b: Seq<bool>)
    requires
        holds_at(c, a + b),
    ensures
        holds_at(c, a),
        holds_at(c.advance(a.len()), b),
        c.advance(a.len()).advance(b.len()) == c.advance((a + b).len()),
        c.advance((a + b).len()).overrun == c.overrun,
{
    assert(c.bits.subrange(c.pos, c.pos + a.len()) =~= (a + b).subrange(0, a.len() as int));
    assert((a + b).subrange(0, a.len() as int) =~= a);
    assert(c.bits.subrange(c.pos + a.len(), c.pos + a.len() + b.len()) =~= (a + b).subrange(
        a.len() as int,
        (a + b).len() as int,
    ));
    assert((a + b).subrange(a.len() as int, (a + b).len() as int) =~= b);
}

/// Reading `w.len()` bits where `w` is held gives `w`'s value without
/// running past the end.
pub proof fn lemma_read_held(c: BitCursor, w: Seq<bool>)
    requires
        holds_at(c, w),
    ensures
        c.peek(w.len()) == bits_value(w),
        c.advance(w.len()).pos == c.pos + w.len(),
        c.advance(w.len()).overrun == c.overrun,
{
    lemma_window_of(c.bits, c.pos, w);
}

pub proof fn lemma_read_nat(c: BitCursor, v: nat, n: nat)
    requires
        holds_at(c, nat_bits(v, n)),
        v < pow2(n),
    ensures
        c.peek(n) == v,
        c.advance(n).pos == c.pos + n,
        c.advance(n).overrun == c.overrun,
{
    lemma_read_held(c, nat_bits(v, n));
    lemma_nat_bits_roundtrip(v, n);
}

/// A `ubit var` reads back as the value written.
pub proof fn ubit_var_round_trip(c: BitCursor, v: u32)
    requires
        holds_at(c, ubit_var_bits(v)),
    ensures
        spec_ubit_var(c) == (v, c.advance(ubit_var_bits(v).len())),
        c.advance(ubit_var_bits(v).len()).overrun == c.overrun,
{
    lemma2_to64();
    if v < 16 {
        lemma_read_nat(c, v as nat, 6);
    } else {
        let (h, n): (nat, nat) = if v < 256 {
            ((v % 16 + 16) as nat, 4)
        } else if v < 4096 {
            ((v % 16 + 32) as nat, 8)
        } else {
            ((v % 16 + 48) as nat, 28)
        };
        let a = nat_bits(h, 6);
        let b = nat_bits((v / 16) as nat, n);
        assert(ubit_var_bits(v) == a + b);
        lemma_holds_split(c, a, b);
        lemma_read_nat(c, h, 6);
        assert((v / 16) < pow2(n)) by {
            if n == 28 {
                assert(v / 16 < 0x10000000);
            }
        }
        lemma_read_nat(c.advance(6), (v / 16) as nat, n);
    }
}

/// Varint bytes read back as the value written, scaled by `2^shift` above `acc`.
pub proof fn lemma_var_from_round_trip(c: BitCursor, acc: nat, shift: nat, cap: nat, v: nat)
    requires
        holds_at(c, bytes_as_bits(leb128_bytes(v))),
        shift + 7 * (leb128_bytes(v).len() - 1) < cap,
    ensures
        spec_var_from(c, acc, shift, cap) == (
            acc + v * pow2(shift),
            c.advance(8 * leb128_bytes(v).len()),
        ),
        c.advance(8 * leb128_bytes(v).len()).overrun == c.overrun,
    decreases v,
{
    lemma2_to64();
    lemma_leb128_len(v);
    let bs = leb128_bytes(v);
    lemma_bytes_as_bits_len(bs);
    if v < 128 {
        assert(bs == seq![v as u8]);
        lemma_bytes_as_bits_single(v as u8);
        lemma_read_nat(c, v, 8);
        assert(v % 128 == v);
    } else {
        let b = ((v % 128) + 128) as u8;
        let rest = leb128_bytes(v / 128);
        assert(bs == seq![b] + rest);
        lemma_bytes_as_bits_concat(seq![b], rest);
        lemma_bytes_as_bits_single(b);
        lemma_holds_split(c, nat_bits(b as nat, 8), bytes_as_bits(rest));
        lemma_read_nat(c, b as nat, 8);
        lemma_leb128_len(v / 128);
        lemma_bytes_as_bits_len(rest);
        let c1 = c.advance(8);
        let acc1 = acc + (v % 128) * pow2(shift);
        lemma_var_from_round_trip(c1, acc1, shift + 7, cap, v / 128);
        lemma_advance_advance(c, 8, 8 * rest.len());
        assert(8 + 8 * rest.len() == 8 * bs.len());
        lemma_pow2_adds(shift, 7);
        lemma_fundamental_div_mod(v as int, 128);
        assert(acc1 + (v / 128) * pow2(shift + 7) == acc + v * pow2(shift)) by (nonlinear_arith)
            requires
                acc1 == acc + (v % 128) * pow2(shift),
                pow2(shift + 7) == pow2(shift) * 128,
                v == 128 * (v / 128) + v % 128,
        ;
    }
}

/// A 32-bit varint reads back as the value written.
pub proof fn var_u32_round_trip(c: BitCursor, v: u32)
    requires
        holds_at(c, bytes_as_bits(leb128_bytes(v as nat))),
    ensures
        spec_var_u32(c) == (v, c.advance(8 * leb128_bytes(v as nat).len())),
        c.advance(8 * leb128_bytes(v as nat).len()).overrun == c.overrun,
{
    lemma2_to64();
    lemma_pow2_adds(28, 7);
    lemma_leb128_len_le(v as nat, 5);
    lemma_var_from_round_trip(c, 0, 0, 35, v as nat);
    lemma_small_mod(v as nat, pow2(32));
}

/// A 64-bit varint reads back as the value written.
pub proof fn var_u64_round_trip(c: BitCursor, v: u64)
    requires
        holds_at(c, bytes_as_bits(leb128_bytes(v as nat))),
    ensures
        spec_var_u64(c) == (v, c.advance(8 * leb128_bytes(v as nat).len())),
        c.advance(8 * leb128_bytes(v as nat).len()).overrun == c.overrun,
{
    lemma2_to64();
    lemma_pow2_adds(64, 6);
    lemma_leb128_len_le(v as nat, 10);
    lemma_var_from_round_trip(c, 0, 0, 70, v as nat);
    lemma_small_mod(v as nat, pow2(64));
}

/// Zig-zag mapping is undone by its inverse.
pub proof fn zigzag_round_trip(v: i32)
    ensures
        unzigzag(zigzag(v)) == v,
{
}

/// A zig-zag varint reads back as the value written.
pub proof fn var_i32_round_trip(c: BitCursor, v: i32)
    requires
        holds_at(c, bytes_as_bits(leb128_bytes(zigzag(v) as nat))),
    ensures
        spec_var_i32(c) == (v, c.advance(8 * leb128_bytes(zigzag(v) as nat).len())),
{
    var_u32_round_trip(c, zigzag(v));
}

/// Whole bytes read back as written.
pub proof fn bytes_round_trip(c: BitCursor, bs: Seq<u8>)
    requires
        holds_at(c, bytes_as_bits(bs)),
    ensures
        spec_bytes(c, bs.len()) == (bs, c.advance(8 * bs.len())),
        c.advance(8 * bs.len()).overrun == c.overrun,
    decreases bs.len(),
{
    lemma_bytes_as_bits_len(bs);
    lemma_read_held(c, bytes_as_bits(bs));
    assert forall|k: int| 0 <= k < bs.len() implies #[trigger] spec_bytes(c, bs.len()).0[k] == bs[k] by {
        lemma_byte_held(c, bs, k);
    }
    assert(spec_bytes(c, bs.len()).0 =~= bs);
}

/// Byte `k` of bytes held at a cursor is read from bit `8 * k`.
pub proof fn lemma_byte_held(c: BitCursor, bs: Seq<u8>, k: int)
    requires
        holds_at(c, bytes_as_bits(bs)),
        0 <= k < bs.len(),
    ensures
        bits_value(window(c.bits, c.pos + 8 * k, 8)) == bs[k],
{
    let pre = bs.take(k);
    let post = bs.skip(k + 1);
    assert(bs =~= pre + seq![bs[k]] + post);
    lemma_bytes_as_bits_concat(pre + seq![bs[k]], post);
    lemma_bytes_as_bits_concat(pre, seq![bs[k]]);
    lemma_bytes_as_bits_single(bs[k]);
    lemma_bytes_as_bits_len(pre);
    let whole = bytes_as_bits(pre) + nat_bits(bs[k] as nat, 8) + bytes_as_bits(post);
    lemma_holds_split(c, bytes_as_bits(pre) + nat_bits(bs[k] as nat, 8), bytes_as_bits(post));
    lemma_holds_split(c, bytes_as_bits(pre), nat_bits(bs[k] as nat, 8));
    lemma2_to64();
    lemma_read_nat(c.advance(8 * k as nat), bs[k] as nat, 8);
    lemma_window_after(c, 8 * k as nat, 8);
}

/// A zero-terminated string reads back as the bytes written, when they hold
/// no zero byte.
pub proof fn cstring_round_trip(c: BitCursor, bs: Seq<u8>)
    requires
        holds_at(c, bytes_as_bits(bs.push(0u8))),
        forall|i: int| 0 <= i < bs.len() ==> bs[i] != 0,
    ensures
        spec_cstring_bytes(c) == (bs, c.advance(8 * (bs.len() + 1))),
        c.advance(8 * (bs.len() + 1)).overrun == c.overrun,
    decreases bs.len(),
{
    lemma2_to64();
    lemma_bytes_as_bits_len(bs.push(0u8));
    if bs.len() == 0 {
        assert(bs.push(0u8) == seq![0u8]);
        lemma_bytes_as_bits_single(0u8);
        lemma_read_nat(c, 0, 8);
        assert(bs =~= Seq::<u8>::empty());
    } else {
        let b = bs[0];
        let tail = bs.drop_first();
        assert(bs.push(0u8) =~= seq![b] + tail.push(0u8));
        lemma_bytes_as_bits_concat(seq![b], tail.push(0u8));
        lemma_bytes_as_bits_single(b);
        lemma_holds_split(c, nat_bits(b as nat, 8), bytes_as_bits(tail.push(0u8)));
        lemma_read_nat(c, b as nat, 8);
        cstring_round_trip(c.advance(8), tail);
        lemma_bytes_as_bits_len(tail.push(0u8));
        lemma_advance_advance(c, 8, 8 * (tail.len() + 1));
        assert(seq![b] + tail =~= bs);
    }
}

} // verus!
