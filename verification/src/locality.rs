//! What a read sees depends only on the bits it consumes.
use vstd::prelude::*;
use crate::bits::{window, BitCursor};
use crate::reader::{
    lemma_cstring_advances, lemma_ubit_var_advances, lemma_var_from_advances, spec_bits_as_bytes, spec_cstring_bytes,
    spec_ubit_var, spec_var_from, spec_var_u32,
};

verus! {

/// Cursors `c` and `d` both have at least `k` bits left, the same ones,
/// and the same overrun flag.
pub open spec fn same_ahead(c: BitCursor, d: BitCursor, k: int) -> bool {
    &&& c.wf()
    &&& d.wf()
    &&& 0 <= k
    &&& c.pos + k <= c.bits.len()
    &&& d.pos + k <= d.bits.len()
    &&& c.bits.subrange(c.pos, c.pos + k) == d.bits.subrange(d.pos, d.pos + k)
    &&& c.overrun == d.overrun
}

/// Reading `n` of the `k` shared bits gives the same value on both cursors
/// and leaves `k - n` shared bits.
pub proof fn lemma_same_ahead_step(c: BitCursor, d: BitCursor, k: int, n: nat)
    requires
        same_ahead(c, d, k),
        n <= k,
    ensures
        c.peek(n) == d.peek(n),
        c.advance(n).pos == c.pos + n,
        d.advance(n).pos == d.pos + n,
        same_ahead(c.advance(n), d.advance(n), k - n),
{
    assert forall|j: int| 0 <= j < n implies window(c.bits, c.pos, n)[j] == window(d.bits, d.pos, n)[j] by {
        assert(c.bits.subrange(c.pos, c.pos + k)[j] == d.bits.subrange(d.pos, d.pos + k)[j]);
    }
    assert(window(c.bits, c.pos, n) =~= window(d.bits, d.pos, n));
    let c1 = c.advance(n);
    let d1 = d.advance(n);
    let lc = c1.bits.subrange(c1.pos, c1.pos + k - n);
    let ld = d1.bits.subrange(d1.pos, d1.pos + k - n);
    assert forall|j: int| 0 <= j < k - n implies #[trigger] lc[j] == ld[j] by {
        assert(c.bits.subrange(c.pos, c.pos + k)[n + j] == d.bits.subrange(d.pos, d.pos + k)[n + j]);
    }
    assert(lc =~= ld);
}

/// Fewer shared bits are shared too.
pub proof fn lemma_same_ahead_shrink(c: BitCursor, d: BitCursor, k: int, m: int)
    requires
        same_ahead(c, d, k),
        0 <= m <= k,
    ensures
        same_ahead(c, d, m),
{
    let lc = c.bits.subrange(c.pos, c.pos + m);
    let ld = d.bits.subrange(d.pos, d.pos + m);
    assert forall|j: int| 0 <= j < m implies #[trigger] lc[j] == ld[j] by {
        assert(c.bits.subrange(c.pos, c.pos + k)[j] == d.bits.subrange(d.pos, d.pos + k)[j]);
    }
    assert(lc =~= ld);
}

/// A `ubit var` read within the shared bits reads the same on both cursors.
pub proof fn lemma_ubit_var_local(c: BitCursor, d: BitCursor, k: int)
    requires
        same_ahead(c, d, k),
        !spec_ubit_var(c).1.overrun,
        spec_ubit_var(c).1.pos <= c.pos + k,
    ensures
        spec_ubit_var(d).0 == spec_ubit_var(c).0,
        spec_ubit_var(d).1.pos - d.pos == spec_ubit_var(c).1.pos - c.pos,
        same_ahead(spec_ubit_var(c).1, spec_ubit_var(d).1, k - (spec_ubit_var(c).1.pos - c.pos)),
{
    lemma_ubit_var_advances(c);
    lemma_same_ahead_step(c, d, k, 6);
    let c1 = c.advance(6);
    let d1 = d.advance(6);
    let idx = c.peek(6);
    let n: nat = if idx / 16 == 1 {
        4
    } else if idx / 16 == 2 {
        8
    } else if idx / 16 == 3 {
        28
    } else {
        0
    };
    if n > 0 {
        assert(spec_ubit_var(c).1 == c1.advance(n));
        lemma_same_ahead_step(c1, d1, k - 6, n);
    } else {
        assert(spec_ubit_var(c).1 == c1);
    }
}

/// Varint bytes read within the shared bits read the same on both cursors.
pub proof fn lemma_var_from_local(c: BitCursor, d: BitCursor, k: int, acc: nat, shift: nat, cap: nat)
    requires
        same_ahead(c, d, k),
        !spec_var_from(c, acc, shift, cap).1.overrun,
        spec_var_from(c, acc, shift, cap).1.pos <= c.pos + k,
    ensures
        spec_var_from(d, acc, shift, cap).0 == spec_var_from(c, acc, shift, cap).0,
        spec_var_from(d, acc, shift, cap).1.pos - d.pos == spec_var_from(c, acc, shift, cap).1.pos - c.pos,
        same_ahead(
            spec_var_from(c, acc, shift, cap).1,
            spec_var_from(d, acc, shift, cap).1,
            k - (spec_var_from(c, acc, shift, cap).1.pos - c.pos),
        ),
    decreases cap - shift,
{
    let c1 = c.advance(8);
    let d1 = d.advance(8);
    let b = c.peek(8);
    let acc1 = acc + (b % 128) * vstd::arithmetic::power2::pow2(shift);
    lemma_var_from_advances(c1, acc1, shift + 7, cap);
    if c.pos + 8 > c.bits.len() {
        assert(c1.overrun);
    }
    lemma_same_ahead_step(c, d, k, 8);
    if !(b < 128 || shift + 7 >= cap) {
        lemma_var_from_local(c1, d1, k - 8, acc1, shift + 7, cap);
    }
}

/// A 32-bit varint read within the shared bits reads the same on both
/// cursors.
pub proof fn lemma_var_u32_local(c: BitCursor, d: BitCursor, k: int)
    requires
        same_ahead(c, d, k),
        !spec_var_u32(c).1.overrun,
        spec_var_u32(c).1.pos <= c.pos + k,
    ensures
        spec_var_u32(d).0 == spec_var_u32(c).0,
        spec_var_u32(d).1.pos - d.pos == spec_var_u32(c).1.pos - c.pos,
        same_ahead(spec_var_u32(c).1, spec_var_u32(d).1, k - (spec_var_u32(c).1.pos - c.pos)),
{
    lemma_var_from_local(c, d, k, 0, 0, 35);
}

/// A zero-terminated string read within the shared bits reads the same on
/// both cursors.
pub proof fn lemma_cstring_local(c: BitCursor, d: BitCursor, k: int)
    requires
        same_ahead(c, d, k),
        !spec_cstring_bytes(c).1.overrun,
        spec_cstring_bytes(c).1.pos <= c.pos + k,
    ensures
        spec_cstring_bytes(d).0 == spec_cstring_bytes(c).0,
        spec_cstring_bytes(d).1.pos - d.pos == spec_cstring_bytes(c).1.pos - c.pos,
        same_ahead(spec_cstring_bytes(c).1, spec_cstring_bytes(d).1, k - (spec_cstring_bytes(c).1.pos - c.pos)),
    decreases c.bits.len() - c.pos,
{
    let c1 = c.advance(8);
    let d1 = d.advance(8);
    lemma_cstring_advances(c1);
    if c.pos + 8 > c.bits.len() {
        assert(c1.overrun);
    }
    lemma_same_ahead_step(c, d, k, 8);
    if !(c.peek(8) == 0 || !(0 <= c.pos < c.bits.len())) {
        lemma_cstring_local(c1, d1, k - 8);
    }
}

/// Bits read as bytes within the shared bits read the same on both
/// cursors.
pub proof fn lemma_bits_as_bytes_local(c: BitCursor, d: BitCursor, k: int, n: nat)
    requires
        same_ahead(c, d, k),
        n <= k,
    ensures
        spec_bits_as_bytes(d, n).0 == spec_bits_as_bytes(c, n).0,
        spec_bits_as_bytes(c, n).1.pos == c.pos + n,
        spec_bits_as_bytes(d, n).1.pos == d.pos + n,
        same_ahead(spec_bits_as_bytes(c, n).1, spec_bits_as_bytes(d, n).1, k - n),
{
    let a = spec_bits_as_bytes(c, n).0;
    let b = spec_bits_as_bytes(d, n).0;
    assert forall|i: int| 0 <= i < a.len() implies a[i] == b[i] by {
        let m: nat = if n - 8 * i >= 8 { 8 } else { (n - 8 * i) as nat };
        let ci = BitCursor { bits: c.bits, pos: c.pos + 8 * i, overrun: c.overrun };
        let di = BitCursor { bits: d.bits, pos: d.pos + 8 * i, overrun: d.overrun };
        lemma_same_ahead_step(c, d, k, (8 * i) as nat);
        assert(c.advance((8 * i) as nat) == ci);
        assert(d.advance((8 * i) as nat) == di);
        lemma_same_ahead_step(ci, di, k - 8 * i, m);
    }
    assert(a =~= b);
    lemma_same_ahead_step(c, d, k, n);
}

} // verus!
