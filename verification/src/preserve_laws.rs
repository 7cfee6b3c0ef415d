//! What decoding gives back of a key-preserving rewrite.
use vstd::prelude::*;
use crate::bits::{lemma_bits_value_one, pad_to_byte, window, BitCursor};
use crate::roundtrip::holds_at;
use crate::table_laws::{compression_sound, same_entry, value_fits, value_round_trip};
use crate::rewrite::{preserved_bits, rewritten_from, splice_bits, state_before, value_start};
use crate::string_table::value_bits;
use crate::entry::EntryView;
use crate::locality::{
    lemma_bits_as_bytes_local, lemma_cstring_local, lemma_same_ahead_shrink, lemma_same_ahead_step,
    lemma_ubit_var_local, lemma_var_u32_local, same_ahead,
};
use crate::reader::{lemma_cstring_advances, lemma_ubit_var_advances, lemma_var_from_advances, spec_ubit_var};
use crate::string_table::{
    decode_entries, decode_entry, decode_index, decode_key, decode_value, decode_value_header, initial_state,
    lemma_decode_value_advances,
    lemma_decode_value_overrun, lemma_index_key_advance, DecodeState, PackedStringTableFormat,
};

verus! {

/// An index read within the shared bits reads the same on both cursors.
pub proof fn lemma_index_local(c: BitCursor, d: BitCursor, k: int, index: int)
    requires
        same_ahead(c, d, k),
        decode_index(c, index) matches Some((_, ce)) && !ce.overrun && ce.pos <= c.pos + k,
    ensures
        decode_index(d, index) matches Some((i, de)) && decode_index(c, index) matches Some((i0, ce)) && i == i0
            && de.pos - d.pos == ce.pos - c.pos && same_ahead(ce, de, k - (ce.pos - c.pos)),
{
    let c1 = c.advance(1);
    let d1 = d.advance(1);
    lemma_var_from_advances(c1, 0, 0, 35);
    lemma_same_ahead_step(c, d, k, 1);
    if c.peek(1) != 1 {
        lemma_var_u32_local(c1, d1, k - 1);
    }
}

/// A key read within the shared bits reads the same on both cursors.
pub proof fn lemma_key_local(c: BitCursor, d: BitCursor, k: int, delta_pos: nat, keys: Seq<Seq<char>>)
    requires
        same_ahead(c, d, k),
        decode_key(c, delta_pos, keys) matches Some((_, ce, _, _)) && !ce.overrun && ce.pos <= c.pos + k,
    ensures
        decode_key(d, delta_pos, keys) matches Some((key, de, dp, ks)) && decode_key(c, delta_pos, keys) matches Some(
            (key0, ce, dp0, ks0),
        ) && key == key0 && dp == dp0 && ks == ks0 && de.pos - d.pos == ce.pos - c.pos && same_ahead(
            ce,
            de,
            k - (ce.pos - c.pos),
        ),
{
    let c1 = c.advance(1);
    let d1 = d.advance(1);
    let c2 = c1.advance(1);
    let d2 = d1.advance(1);
    lemma_cstring_advances(c2);
    lemma_cstring_advances(c2.advance(5).advance(5));
    lemma_same_ahead_step(c, d, k, 1);
    if c.peek(1) != 0 {
        lemma_same_ahead_step(c1, d1, k - 1, 1);
        if c1.peek(1) == 1 {
            lemma_same_ahead_step(c2, d2, k - 2, 5);
            lemma_same_ahead_step(c2.advance(5), d2.advance(5), k - 7, 5);
            lemma_cstring_local(c2.advance(5).advance(5), d2.advance(5).advance(5), k - 12);
        } else {
            lemma_cstring_local(c2, d2, k - 2);
        }
    }
}

/// A value read within the shared bits reads the same on both cursors.
pub proof fn lemma_value_local(fmt: PackedStringTableFormat, c: BitCursor, d: BitCursor, k: int)
    requires
        same_ahead(c, d, k),
        decode_value(fmt, c) matches Some((_, _, ce)) && !ce.overrun && ce.pos <= c.pos + k,
    ensures
        decode_value(fmt, d) matches Some((v, comp, de)) && decode_value(fmt, c) matches Some((v0, comp0, ce))
            && v == v0 && comp == comp0 && de.pos - d.pos == ce.pos - c.pos && same_ahead(ce, de, k - (ce.pos - c.pos)),
{
    let c1 = c.advance(1);
    let d1 = d.advance(1);
    lemma_same_ahead_step(c, d, k, 1);
    if c.peek(1) != 0 {
        let (bit_size, comp, c2) = decode_value_header(fmt, c1);
        if fmt.user_data_fixed_size {
            lemma_bits_as_bytes_local(c1, d1, k - 1, bit_size);
        } else {
            let ca = if fmt.flags % 2 == 1 { c1.advance(1) } else { c1 };
            let da = if fmt.flags % 2 == 1 { d1.advance(1) } else { d1 };
            if fmt.flags % 2 == 1 {
                lemma_same_ahead_step(c1, d1, k - 1, 1);
            }
            let ka = k - (ca.pos - c.pos);
            lemma_ubit_var_advances(ca);
            if fmt.var_int_bit_counts {
                lemma_ubit_var_local(ca, da, ka);
            } else {
                lemma_same_ahead_step(ca, da, ka, 17);
            }
            let (bs2, comp2, d2) = decode_value_header(fmt, d1);
            lemma_bits_as_bytes_local(c2, d2, k - (c2.pos - c.pos), bit_size);
        }
    }
}

/// Reading a key from an overrun cursor ends overrun.
pub proof fn lemma_key_keeps_overrun(c: BitCursor, delta_pos: nat, keys: Seq<Seq<char>>)
    requires
        c.wf(),
        c.overrun,
    ensures
        decode_key(c, delta_pos, keys) matches Some((_, ce, _, _)) ==> ce.overrun,
{
    let c2 = c.advance(1).advance(1);
    lemma_cstring_advances(c2);
    lemma_cstring_advances(c2.advance(5).advance(5));
}

/// Reading a value from an overrun cursor ends overrun.
pub proof fn lemma_value_keeps_overrun(fmt: PackedStringTableFormat, c: BitCursor)
    requires
        c.wf(),
        c.overrun,
    ensures
        decode_value(fmt, c) matches Some((_, _, ce)) ==> ce.overrun,
{
    let c1 = c.advance(1);
    let ca = if fmt.flags % 2 == 1 { c1.advance(1) } else { c1 };
    lemma_ubit_var_advances(ca);
}

/// The cursors an entry read passes through: after its index, after its
/// key, and at its end.
pub open spec fn entry_cursors(s: DecodeState) -> (BitCursor, BitCursor) {
    let (_, c1) = decode_index(s.cursor, s.index)->0;
    let (_, c2, _, _) = decode_key(c1, s.delta_pos, s.keys)->0;
    (c1, c2)
}

/// A successful entry read moves forward without overrun through its
/// index, its key and its value, whose presence bit lies within the data.
pub proof fn lemma_entry_forward(fmt: PackedStringTableFormat, s: DecodeState)
    requires
        s.cursor.wf(),
        decode_entry(fmt, s) is Some,
    ensures
        ({
            let (c1, c2) = entry_cursors(s);
            let (_, s2) = decode_entry(fmt, s)->0;
            &&& s.cursor.pos <= c1.pos <= c2.pos
            &&& c2.pos + 1 <= s2.cursor.pos
            &&& !c1.overrun && !c2.overrun && !s.cursor.overrun
            &&& c1.wf() && c2.wf() && s2.cursor.wf()
            &&& c1.bits == s.cursor.bits && c2.bits == s.cursor.bits && s2.cursor.bits == s.cursor.bits
        }),
{
    let c = s.cursor;
    lemma_index_key_advance(c, s.index, s.delta_pos, s.keys);
    let (_, c1) = decode_index(c, s.index)->0;
    let (_, c2, _, _) = decode_key(c1, s.delta_pos, s.keys)->0;
    lemma_decode_value_advances(fmt, c2);
    lemma_decode_value_overrun(fmt, c2);
    if c2.overrun {
        lemma_value_keeps_overrun(fmt, c2);
    }
    if c1.overrun {
        lemma_key_keeps_overrun(c1, s.delta_pos, s.keys);
        lemma_value_keeps_overrun(fmt, c2);
    }
    if c.overrun {
        lemma_var_from_advances(c.advance(1), 0, 0, 35);
        lemma_key_keeps_overrun(c1, s.delta_pos, s.keys);
        lemma_value_keeps_overrun(fmt, c2);
    }
}

/// An entry whose bits a second cursor shares reads the same there.
#[verifier::spinoff_prover]
pub proof fn lemma_entry_local(fmt: PackedStringTableFormat, s: DecodeState, d: BitCursor, k: int)
    requires
        s.cursor.wf(),
        same_ahead(s.cursor, d, k),
        decode_entry(fmt, s) matches Some((_, s2)) && s2.cursor.pos <= s.cursor.pos + k,
    ensures
        decode_entry(fmt, DecodeState { cursor: d, ..s }) matches Some((e, t2)) && decode_entry(fmt, s) matches Some(
            (e0, s2),
        ) && e == e0 && t2 == (DecodeState {
            cursor: BitCursor { bits: d.bits, pos: d.pos + (s2.cursor.pos - s.cursor.pos), overrun: false },
            ..s2
        }),
{
    lemma_entry_forward(fmt, s);
    let c = s.cursor;
    let (c1, c2) = entry_cursors(s);
    lemma_index_local(c, d, k, s.index);
    let (_, d1) = decode_index(d, s.index)->0;
    lemma_key_local(c1, d1, k - (c1.pos - c.pos), s.delta_pos, s.keys);
    let (_, d2, _, _) = decode_key(d1, s.delta_pos, s.keys)->0;
    lemma_value_local(fmt, c2, d2, k - (c2.pos - c.pos));
    lemma_index_key_advance(d, s.index, s.delta_pos, s.keys);
    lemma_decode_value_advances(fmt, d2);
    let (_, _, c3) = decode_value(fmt, c2)->0;
    let (_, _, d3) = decode_value(fmt, d2)->0;
    assert(d3.pos == d.pos + (c3.pos - c.pos));
    assert(d3 == BitCursor { bits: d.bits, pos: d3.pos, overrun: false });
}

/// An entry whose index, key and presence bit a second cursor shares,
/// followed there by the bits of a new value, reads there with the new
/// value.
#[verifier::spinoff_prover]
pub proof fn lemma_entry_spliced(
    fmt: PackedStringTableFormat,
    s: DecodeState,
    d: BitCursor,
    e_new: EntryView,
    vb: Seq<bool>,
)
    requires
        s.cursor.wf(),
        decode_entry(fmt, s) matches Some((e0, _)) && e0.value is Some,
        e_new.value is Some,
        same_ahead(s.cursor, d, entry_cursors(s).1.pos + 1 - s.cursor.pos),
        d.pos + (entry_cursors(s).1.pos + 1 - s.cursor.pos) + vb.len() <= d.bits.len(),
        d.bits.subrange(
            d.pos + (entry_cursors(s).1.pos + 1 - s.cursor.pos),
            d.pos + (entry_cursors(s).1.pos + 1 - s.cursor.pos) + vb.len(),
        ) == vb,
        value_bits(fmt, e_new) == Some(vb),
        value_fits(fmt, e_new),
        compression_sound(fmt, e_new),
    ensures
        decode_entry(fmt, DecodeState { cursor: d, ..s }) matches Some((e, t2)) && decode_entry(fmt, s) matches Some(
            (e0, s2),
        ) && e.index == e0.index && e.key == e0.key && e.value == e_new.value && t2 == (DecodeState {
            cursor: BitCursor {
                bits: d.bits,
                pos: d.pos + (entry_cursors(s).1.pos + 1 - s.cursor.pos) + vb.len(),
                overrun: false,
            },
            ..s2
        }),
{
    lemma_entry_forward(fmt, s);
    let c = s.cursor;
    let (c1, c2) = entry_cursors(s);
    let kp = c2.pos + 1 - c.pos;
    lemma_index_local(c, d, kp, s.index);
    let (_, d1) = decode_index(d, s.index)->0;
    lemma_key_local(c1, d1, kp - (c1.pos - c.pos), s.delta_pos, s.keys);
    let (_, d2, _, _) = decode_key(d1, s.delta_pos, s.keys)->0;
    lemma_index_key_advance(d, s.index, s.delta_pos, s.keys);
    assert(d2.pos + 1 == d.pos + kp);
    assert(d2.bits == d.bits);
    assert(same_ahead(c2, d2, 1));
    lemma_bits_value_one(window(c2.bits, c2.pos, 1));
    assert(c2.bits[c2.pos] == true);
    assert(c2.bits.subrange(c2.pos, c2.pos + 1)[0] == d2.bits.subrange(d2.pos, d2.pos + 1)[0]);
    let w = seq![true] + vb;
    assert(d2.bits.subrange(d2.pos, d2.pos + w.len()) =~= w) by {
        assert forall|j: int| 0 <= j < w.len() implies d2.bits.subrange(d2.pos, d2.pos + w.len())[j] == w[j] by {
            if j > 0 {
                assert(d.bits.subrange(d.pos + kp, d.pos + kp + vb.len())[j - 1] == vb[j - 1]);
            } else {
                assert(d2.bits.subrange(d2.pos, d2.pos + 1)[0] == d2.bits[d2.pos]);
            }
        }
    }
    assert(holds_at(d2, w));
    value_round_trip(fmt, d2, e_new, vb);
}

/// Every changed value of a rewrite fits its fields, and a compressed one
/// decompresses back.
pub open spec fn changes_sound(fmt: PackedStringTableFormat, before: Seq<EntryView>, after: Seq<EntryView>) -> bool {
    forall|i: int|
        0 <= i < before.len() && before[i].value != after[i].value ==> value_fits(fmt, #[trigger] after[i])
            && compression_sound(fmt, after[i])
}

/// Decoding entries keeps reading the same bits, forward, without overrun.
pub proof fn lemma_states_forward(fmt: PackedStringTableFormat, s0: DecodeState, n: nat)
    requires
        s0.cursor.wf(),
        decode_entries(fmt, s0, n) is Some,
    ensures
        ({
            let (_, st) = decode_entries(fmt, s0, n)->0;
            &&& st.cursor.wf()
            &&& st.cursor.bits == s0.cursor.bits
            &&& st.cursor.pos >= s0.cursor.pos
            &&& n > 0 ==> !st.cursor.overrun
        }),
    decreases n,
{
    if n > 0 {
        lemma_states_forward(fmt, s0, (n - 1) as nat);
        let (_, st) = decode_entries(fmt, s0, (n - 1) as nat)->0;
        lemma_entry_forward(fmt, st);
    }
}

/// One spliced entry decodes, from a stream that holds its bits, to the
/// rewritten entry.
#[verifier::spinoff_prover]
proof fn lemma_splice_step(
    fmt: PackedStringTableFormat,
    sm: DecodeState,
    em: EntryView,
    sn: DecodeState,
    rm: EntryView,
    sb: Seq<bool>,
    d: BitCursor,
)
    requires
        sm.cursor.wf(),
        decode_entry(fmt, sm) == Some((em, sn)),
        splice_bits(fmt, sm.cursor.bits, sm.cursor.pos, value_start(sm), sn.cursor.pos, em, rm) == Some(sb),
        rm.index == em.index,
        em.value != rm.value ==> value_fits(fmt, rm) && compression_sound(fmt, rm),
        d.wf(),
        !d.overrun,
        d.pos + sb.len() <= d.bits.len(),
        d.bits.subrange(d.pos, d.pos + sb.len()) == sb,
    ensures
        decode_entry(fmt, DecodeState { cursor: d, ..sm }) matches Some((dm, tn)) && same_entry(dm, rm) && tn == (
        DecodeState { cursor: BitCursor { bits: d.bits, pos: d.pos + sb.len(), overrun: false }, ..sn }),
{
    lemma_entry_forward(fmt, sm);
    let bits = sm.cursor.bits;
    if rm.value == em.value {
        assert(sb == bits.subrange(sm.cursor.pos, sn.cursor.pos));
        assert(same_ahead(sm.cursor, d, sb.len() as int));
        lemma_entry_local(fmt, sm, d, sb.len() as int);
    } else {
        let (c1, c2) = entry_cursors(sm);
        let kp = c2.pos + 1 - sm.cursor.pos;
        let vb = value_bits(fmt, rm)->0;
        assert(sb == bits.subrange(sm.cursor.pos, value_start(sm)) + vb);
        assert(value_start(sm) == c2.pos + 1);
        assert(sb.len() == kp + vb.len());
        assert(same_ahead(sm.cursor, d, kp)) by {
            assert forall|j: int| 0 <= j < kp implies #[trigger] bits.subrange(sm.cursor.pos, sm.cursor.pos + kp)[j]
                == d.bits.subrange(d.pos, d.pos + kp)[j] by {
                assert(d.bits.subrange(d.pos, d.pos + sb.len())[j] == sb[j]);
            }
            assert(bits.subrange(sm.cursor.pos, sm.cursor.pos + kp) =~= d.bits.subrange(d.pos, d.pos + kp));
        }
        assert(d.bits.subrange(d.pos + kp, d.pos + kp + vb.len()) =~= vb) by {
            assert forall|j: int| 0 <= j < vb.len() implies d.bits.subrange(d.pos + kp, d.pos + kp + vb.len())[j]
                == vb[j] by {
                assert(d.bits.subrange(d.pos, d.pos + sb.len())[kp + j] == sb[kp + j]);
            }
        }
        lemma_entry_spliced(fmt, sm, d, rm, vb);
    }
}

/// The spliced bits of a key-preserving rewrite decode, from any stream
/// that starts with them, to the rewritten entries.
#[verifier::spinoff_prover]
proof fn lemma_preserved_prefix(
    fmt: PackedStringTableFormat,
    s0: DecodeState,
    es: Seq<EntryView>,
    rw: Seq<EntryView>,
    pb: Seq<bool>,
    bits2: Seq<bool>,
)
    requires
        s0.cursor.wf(),
        decode_entries(fmt, s0, es.len()) matches Some((es2, _)) && es2 == es,
        rewritten_from(es, rw),
        preserved_bits(fmt, s0, es, rw) == Some(pb),
        changes_sound(fmt, es, rw),
        pb.len() <= bits2.len(),
        bits2.subrange(0, pb.len() as int) == pb,
    ensures
        decode_entries(
            fmt,
            DecodeState { cursor: BitCursor { bits: bits2, pos: 0, overrun: false }, ..s0 },
            es.len(),
        ) matches Some((ds, t)) && ds.len() == es.len() && (forall|i: int|
            0 <= i < es.len() ==> same_entry(#[trigger] ds[i], rw[i])) && t == (DecodeState {
            cursor: BitCursor { bits: bits2, pos: pb.len() as int, overrun: false },
            ..state_before(fmt, s0, es.len())
        }),
    decreases es.len(),
{
    let s0n = DecodeState { cursor: BitCursor { bits: bits2, pos: 0, overrun: false }, ..s0 };
    if es.len() == 0 {
        assert(pb =~= Seq::<bool>::empty());
    } else {
        let m = (es.len() - 1) as nat;
        let front = es.drop_last();
        let rwf = rw.take(m as int);
        let (f, sm) = decode_entries(fmt, s0, m)->0;
        let (e, sn) = decode_entry(fmt, sm)->0;
        assert(f =~= front) by {
            assert(f.push(e) == es);
            assert(f.push(e).drop_last() =~= f);
        }
        assert(e == es.last());
        let p1 = preserved_bits(fmt, s0, front, rwf)->0;
        let sb = splice_bits(fmt, s0.cursor.bits, sm.cursor.pos, value_start(sm), sn.cursor.pos, es.last(), rw[m as int])->0;
        assert(pb == p1 + sb);
        assert(changes_sound(fmt, front, rwf)) by {
            assert forall|i: int| 0 <= i < front.len() && front[i].value != rwf[i].value implies value_fits(
                fmt,
                #[trigger] rwf[i],
            ) && compression_sound(fmt, rwf[i]) by {
                assert(front[i] == es[i] && rwf[i] == rw[i]);
            }
        }
        assert(bits2.subrange(0, p1.len() as int) =~= p1) by {
            assert forall|j: int| 0 <= j < p1.len() implies bits2.subrange(0, p1.len() as int)[j] == p1[j] by {
                assert(bits2.subrange(0, pb.len() as int)[j] == pb[j]);
            }
        }
        lemma_preserved_prefix(fmt, s0, front, rwf, p1, bits2);
        let (ds_f, tm) = decode_entries(fmt, s0n, m)->0;
        lemma_states_forward(fmt, s0, m);
        let d = BitCursor { bits: bits2, pos: p1.len() as int, overrun: false };
        assert(tm == DecodeState { cursor: d, ..sm });
        assert(bits2.subrange(d.pos, d.pos + sb.len()) =~= sb) by {
            assert forall|j: int| 0 <= j < sb.len() implies bits2.subrange(d.pos, d.pos + sb.len())[j] == sb[j] by {
                assert(bits2.subrange(0, pb.len() as int)[p1.len() + j] == pb[p1.len() + j]);
            }
        }
        assert(es[m as int].value != rw[m as int].value ==> value_fits(fmt, rw[m as int]) && compression_sound(
            fmt,
            rw[m as int],
        ));
        lemma_splice_step(fmt, sm, es.last(), sn, rw[m as int], sb, d);
        let (dm, tn) = decode_entry(fmt, tm)->0;
        assert(decode_entries(fmt, s0n, es.len()) == Some((ds_f.push(dm), tn)));
        assert forall|i: int| 0 <= i < es.len() implies same_entry(#[trigger] ds_f.push(dm)[i], rw[i]) by {
            if i < m {
                assert(ds_f.push(dm)[i] == ds_f[i]);
                assert(rwf[i] == rw[i]);
            }
        }
    }
}

/// A key-preserving rewrite decodes back to the rewritten entries: their
/// indices, keys and values, in order, for a decoder that starts with the
/// same remembered keys, when every changed value fits
/// its fields and a compressed one decompresses back.
pub proof fn preserved_entries_decode(
    fmt: PackedStringTableFormat,
    bits: Seq<bool>,
    keys: Seq<Seq<char>>,
    es: Seq<EntryView>,
    rw: Seq<EntryView>,
    pb: Seq<bool>,
)
    requires
        decode_entries(fmt, initial_state(bits, keys), es.len()) matches Some((es2, _)) && es2 == es,
        rewritten_from(es, rw),
        preserved_bits(fmt, initial_state(bits, keys), es, rw) == Some(pb),
        changes_sound(fmt, es, rw),
    ensures
        decode_entries(fmt, initial_state(pad_to_byte(pb), keys), es.len()) matches Some((ds, _)) && ds.len()
            == es.len() && forall|i: int| 0 <= i < es.len() ==> same_entry(#[trigger] ds[i], rw[i]),
{
    let bits2 = pad_to_byte(pb);
    assert(bits2.subrange(0, pb.len() as int) =~= pb);
    lemma_preserved_prefix(fmt, initial_state(bits, keys), es, rw, pb, bits2);
}

} // verus!
