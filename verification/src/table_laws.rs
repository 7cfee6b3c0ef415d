//! What decoding gives back of encoded string table entries.
use vstd::prelude::*;
use vstd::arithmetic::power2::*;
use vstd::arithmetic::div_mod::*;
use vstd::utf8::{decode_utf8, encode_utf8, encode_utf8_decode_utf8, encode_utf8_valid_utf8};
use crate::bits::{
    bits_value, byte_bit, bytes_as_bits, bytes_bits, lemma_advance_advance, lemma_bits_value_nat_bits,
    lemma_bits_value_one, lemma_byte_bit_arith, lemma_bytes_bits_as_bits, lemma_nat_bits_roundtrip,
    nat_bits, pad_to_byte, stream_bit, window, BitCursor,
};
use crate::reader::{spec_bits_as_bytes, spec_cstring_bytes, spec_ubit_var, spec_var_u32, utf8_lossy};
use crate::roundtrip::{
    cstring_round_trip, holds_at, lemma_holds_split, lemma_read_held, lemma_read_nat, ubit_var_round_trip,
    var_u32_round_trip,
};
use crate::varint::{leb128_bytes, lemma_bytes_as_bits_len, ubit_var_bits};
use crate::compression::{snappy_compressed, snappy_decompressed};
use crate::entry::EntryView;
use crate::string_table::{
    decode_entries, decode_entry, decode_index, decode_key, decode_value, decode_value_header, encode_bits,
    entry_bits, fixed_value_len, index_bits, initial_state, key_bits, prev_index, value_bits, value_payload,
    DecodeState, PackedStringTableFormat,
};

verus! {

/// A key without NUL characters.
pub open spec fn no_nul(k: Seq<char>) -> bool {
    forall|i: int| 0 <= i < k.len() ==> (#[trigger] k[i]) as u32 != 0
}

/// A compressed value of this entry decompresses back to the value.
pub open spec fn compression_sound(fmt: PackedStringTableFormat, e: EntryView) -> bool {
    match e.value {
        Some(v) => !fmt.user_data_fixed_size ==> match value_payload(fmt, v, e.value_compressed) {
            Some((p, comp)) => comp ==> snappy_decompressed(p) == Some(v),
            None => true,
        },
        None => true,
    }
}

/// The value of this entry is read back in full: a fixed-size value has no
/// bits beyond the table's size, and a stored value's byte count fits the
/// count field.
pub open spec fn value_fits(fmt: PackedStringTableFormat, e: EntryView) -> bool {
    match e.value {
        None => true,
        Some(v) => if fmt.user_data_fixed_size {
            fmt.user_data_size % 8 == 0 || (v.len() > 0 && v.last() < pow2((fmt.user_data_size % 8) as nat))
        } else {
            match value_payload(fmt, v, e.value_compressed) {
                Some((p, _)) => if fmt.var_int_bit_counts {
                    8 * p.len() <= u32::MAX
                } else {
                    p.len() < pow2(17)
                },
                None => true,
            }
        },
    }
}

/// An index written after index `prev` reads back: it follows `prev`
/// directly, or its distance from `prev` fits the signed 32-bit gap field;
/// and `prev` has a successor.
pub open spec fn index_round_trips(prev: int, idx: i32) -> bool {
    &&& prev + 1 <= i32::MAX
    &&& idx == prev + 1 || (i32::MIN <= idx - prev - 2 && idx - prev - 1 <= i32::MAX)
}

/// Entry `i` can be decoded back from its encoding: each index reads back
/// after the one before, keys hold no NUL character, values fit and
/// decompress.
pub open spec fn entries_round_trip(fmt: PackedStringTableFormat, es: Seq<EntryView>) -> bool {
    forall|i: int|
        0 <= i < es.len() ==> {
            &&& index_round_trips(prev_index(es, i), (#[trigger] es[i]).index)
            &&& (es[i].key matches Some(k) ==> no_nul(k))
            &&& value_fits(fmt, es[i])
            &&& compression_sound(fmt, es[i])
        }
}

/// The index, key and value of two entries agree.
pub open spec fn same_entry(a: EntryView, b: EntryView) -> bool {
    a.index == b.index && a.key == b.key && a.value == b.value
}

pub proof fn lemma_no_nul_bytes(k: Seq<char>)
    requires
        no_nul(k),
    ensures
        forall|j: int| 0 <= j < encode_utf8(k).len() ==> #[trigger] encode_utf8(k)[j] != 0,
    decreases k.len(),
{
    if k.len() > 0 {
        let rest = k.drop_first();
        assert forall|i: int| 0 <= i < rest.len() implies (#[trigger] rest[i]) as u32 != 0 by {
            assert(rest[i] == k[i + 1]);
        }
        lemma_no_nul_bytes(rest);
        let s = k[0] as u32;
        assert(s != 0);
        vstd::utf8::char_is_scalar(k[0]);
        let es = vstd::utf8::encode_scalar(s);
        assert forall|j: int| 0 <= j < es.len() implies es[j] != 0 by {
            assert(s != 0 && s <= 0x7f ==> (s & 0x7f) as u8 != 0u8) by (bit_vector);
            let x = ((s >> 6u32) & 0x1Fu32) as u8;
            let y = ((s >> 12u32) & 0x0Fu32) as u8;
            let z = ((s >> 18u32) & 0x7u32) as u8;
            let w = (s & 0x3Fu32) as u8;
            let w2 = ((s >> 6u32) & 0x3Fu32) as u8;
            let w3 = ((s >> 12u32) & 0x3Fu32) as u8;
            assert((0xC0u8 | x) != 0u8) by (bit_vector);
            assert((0xE0u8 | y) != 0u8) by (bit_vector);
            assert((0xF0u8 | z) != 0u8) by (bit_vector);
            assert((0x80u8 | w) != 0u8) by (bit_vector);
            assert((0x80u8 | w2) != 0u8) by (bit_vector);
            assert((0x80u8 | w3) != 0u8) by (bit_vector);
        }
        assert(encode_utf8(k) == es + encode_utf8(rest));
        assert forall|j: int| 0 <= j < encode_utf8(k).len() implies #[trigger] encode_utf8(k)[j] != 0 by {
            if j < es.len() {
                assert(encode_utf8(k)[j] == es[j]);
            } else {
                assert(encode_utf8(k)[j] == encode_utf8(rest)[j - es.len()]);
            }
        }
    }
}

/// Bit `8 * k + j` of a byte sequence is bit `j` of byte `k`.
pub proof fn lemma_bytes_as_bits_index(v: Seq<u8>, k: int, j: int)
    requires
        0 <= k < v.len(),
        0 <= j < 8,
    ensures
        bytes_as_bits(v)[8 * k + j] == ((v[k] as nat / pow2(j as nat)) % 2 == 1),
{
    lemma_bytes_bits_as_bits(v);
    let i = 8 * k + j;
    assert(i / 8 == k && i % 8 == j) by (nonlinear_arith)
        requires
            i == 8 * k + j,
            0 <= j < 8,
    ;
    assert(i < 8 * v.len()) by (nonlinear_arith)
        requires
            i == 8 * k + j,
            0 <= j < 8,
            k < v.len(),
    ;
    lemma_byte_bit_arith(v[k], j as nat);
}

/// Bits written as bytes read back as the same bytes, when the last partial
/// byte has no bits above the count.
pub proof fn bits_as_bytes_round_trip(c: BitCursor, v: Seq<u8>, n: nat)
    requires
        holds_at(c, bytes_as_bits(v).take(n as int)),
        n <= 8 * v.len(),
        v.len() == if n % 8 == 0 { n / 8 } else { n / 8 + 1 },
        n % 8 == 0 || v.last() < pow2(n % 8),
    ensures
        spec_bits_as_bytes(c, n) == (v, c.advance(n)),
        c.advance(n).pos == c.pos + n,
        c.advance(n).overrun == c.overrun,
{
    lemma_bytes_as_bits_len(v);
    let w = bytes_as_bits(v).take(n as int);
    let r = spec_bits_as_bytes(c, n).0;
    assert forall|k: int| 0 <= k < v.len() implies #[trigger] r[k] == v[k] by {
        let m: nat = if n - 8 * k >= 8 { 8 } else { (n - 8 * k) as nat };
        assert(window(c.bits, c.pos + 8 * k, m) =~= nat_bits(v[k] as nat, m)) by {
            assert forall|j: int| 0 <= j < m implies window(c.bits, c.pos + 8 * k, m)[j] == nat_bits(v[k] as nat, m)[j] by {
                assert(8 * k + j < n);
                assert(c.bits.subrange(c.pos, c.pos + n)[8 * k + j] == c.bits[c.pos + 8 * k + j]);
                assert(w[8 * k + j] == bytes_as_bits(v)[8 * k + j]);
                lemma_bytes_as_bits_index(v, k, j);
            }
        }
        lemma_bits_value_nat_bits(v[k] as nat, m);
        lemma2_to64();
        if m == 8 {
            lemma_small_mod(v[k] as nat, 256);
        } else {
            assert(k == v.len() - 1);
            assert(n % 8 != 0);
            assert(m == n % 8);
            lemma_small_mod(v[k] as nat, pow2(m));
        }
    }
    assert(r =~= v);
}

/// An entry index reads back after the index before it.
pub proof fn index_round_trip(c: BitCursor, prev: int, idx: i32)
    requires
        holds_at(c, index_bits(prev, idx)),
        index_round_trips(prev, idx),
    ensures
        decode_index(c, prev) == Some((idx as int, c.advance(index_bits(prev, idx).len()))),
        c.advance(index_bits(prev, idx).len()).overrun == c.overrun,
{
    if idx == prev + 1 {
        lemma_read_held(c, seq![true]);
        lemma_bits_value_one(seq![true]);
    } else {
        let d = idx - prev - 2;
        let d32 = d as i32;
        assert(d32 == d);
        let g = d as u32;
        assert(g == d32 as u32);
        assert(((d32 as u32) as i32) == d32) by (bit_vector);
        let rest = bytes_as_bits(leb128_bytes(g as nat));
        lemma_holds_split(c, seq![false], rest);
        lemma_read_held(c, seq![false]);
        lemma_bits_value_one(seq![false]);
        var_u32_round_trip(c.advance(1), g);
        lemma_bytes_as_bits_len(leb128_bytes(g as nat));
    }
}

/// A key reads back as written.
pub proof fn key_round_trip(c: BitCursor, delta_pos: nat, keys: Seq<Seq<char>>, key: Option<Seq<char>>)
    requires
        holds_at(c, key_bits(key)),
        key matches Some(k) ==> no_nul(k),
    ensures
        decode_key(c, delta_pos, keys) matches Some((k2, c2, dp, ks)) && k2 == key && c2 == c.advance(
            key_bits(key).len(),
        ),
        c.advance(key_bits(key).len()).overrun == c.overrun,
{
    match key {
        None => {
            lemma_read_held(c, seq![false]);
            lemma_bits_value_one(seq![false]);
        },
        Some(k) => {
            let enc = encode_utf8(k);
            let rest = bytes_as_bits(enc.push(0u8));
            assert(seq![true, false] + rest == seq![true] + (seq![false] + rest));
            lemma_holds_split(c, seq![true], seq![false] + rest);
            lemma_holds_split(c.advance(1), seq![false], rest);
            lemma_read_held(c, seq![true]);
            lemma_bits_value_one(seq![true]);
            lemma_read_held(c.advance(1), seq![false]);
            lemma_bits_value_one(seq![false]);
            lemma_no_nul_bytes(k);
            cstring_round_trip(c.advance(1).advance(1), enc);
            encode_utf8_valid_utf8(k);
            encode_utf8_decode_utf8(k);
            lemma_bytes_as_bits_len(enc.push(0u8));
            lemma_advance_advance(c, 1, 1);
            lemma_advance_advance(c, 2, 8 * (enc.len() + 1));
        },
    }
}

/// A value reads back as written, whether stored whole, with a fixed size
/// or compressed.
#[verifier::spinoff_prover]
pub proof fn value_round_trip(fmt: PackedStringTableFormat, c: BitCursor, e: EntryView, vb: Seq<bool>)
    requires
        value_bits(fmt, e) == Some(vb),
        holds_at(c, seq![e.value is Some] + vb),
        value_fits(fmt, e),
        compression_sound(fmt, e),
    ensures
        decode_value(fmt, c) matches Some((v, _, c2)) && v == e.value && c2 == c.advance(
            (seq![e.value is Some] + vb).len(),
        ),
        c.advance((seq![e.value is Some] + vb).len()).overrun == c.overrun,
{
    let pres = seq![e.value is Some];
    lemma_holds_split(c, pres, vb);
    lemma_read_held(c, pres);
    lemma_bits_value_one(pres);
    let c1 = c.advance(1);
    lemma2_to64();
    match e.value {
        None => {
            assert(vb =~= Seq::<bool>::empty());
        },
        Some(v) => {
            if fmt.user_data_fixed_size {
                let n = fmt.user_data_size as nat;
                lemma_bytes_as_bits_len(v);
                bits_as_bytes_round_trip(c1, v, n);
                assert((fmt.user_data_size as u32) as nat == n);
            } else {
                let (p, comp) = value_payload(fmt, v, e.value_compressed)->0;
                let flag = if fmt.flags % 2 == 1 { seq![comp] } else { Seq::<bool>::empty() };
                let count = if fmt.var_int_bit_counts {
                    ubit_var_bits(p.len() as u32)
                } else {
                    nat_bits(p.len(), 17)
                };
                let nb = ((p.len() * 8) as u32) as nat;
                let data = bytes_as_bits(p).take(nb as int);
                assert(vb == flag + count + data);
                lemma_holds_split(c1, flag + count, data);
                lemma_holds_split(c1, flag, count);
                let ca = c1.advance(flag.len());
                if fmt.flags % 2 == 1 {
                    lemma_read_held(c1, flag);
                    lemma_bits_value_one(flag);
                } else {
                    assert(ca == c1);
                }
                if fmt.var_int_bit_counts {
                    assert(8 * p.len() <= u32::MAX);
                    ubit_var_round_trip(ca, p.len() as u32);
                } else {
                    lemma_read_nat(ca, p.len(), 17);
                }
                let cb = ca.advance(count.len());
                assert(nb == 8 * p.len());
                lemma_bytes_as_bits_len(p);
                bits_as_bytes_round_trip(cb, p, nb);
                assert(decode_value_header(fmt, c1) == (nb, comp, cb));
            }
        },
    }
}

/// One entry reads back after the index before it.
pub proof fn entry_round_trip(fmt: PackedStringTableFormat, s: DecodeState, e: EntryView, eb: Seq<bool>)
    requires
        entry_bits(fmt, s.index, e) == Some(eb),
        holds_at(s.cursor, eb),
        !s.cursor.overrun,
        index_round_trips(s.index, e.index),
        e.key matches Some(k) ==> no_nul(k),
        value_fits(fmt, e),
        compression_sound(fmt, e),
    ensures
        decode_entry(fmt, s) matches Some((d, s2)) && same_entry(d, e) && s2.cursor == s.cursor.advance(eb.len())
            && s2.index == e.index && !s2.cursor.overrun,
{
    let c = s.cursor;
    let vb = value_bits(fmt, e)->0;
    let ib = index_bits(s.index, e.index);
    let kb = key_bits(e.key);
    let rest = seq![e.value is Some] + vb;
    assert(eb =~= ib + kb + rest);
    lemma_holds_split(c, ib + kb, rest);
    lemma_holds_split(c, ib, kb);
    index_round_trip(c, s.index, e.index);
    let c1 = c.advance(ib.len());
    key_round_trip(c1, s.delta_pos, s.keys, e.key);
    let c2 = c1.advance(kb.len());
    value_round_trip(fmt, c2, e, vb);
}

/// Entries read back as the prefix of a stream that starts with their
/// encoding.
#[verifier::spinoff_prover]
pub proof fn lemma_entries_prefix_round_trip(
    fmt: PackedStringTableFormat,
    es: Seq<EntryView>,
    b: Seq<bool>,
    bits: Seq<bool>,
    keys: Seq<Seq<char>>,
)
    requires
        encode_bits(fmt, es) == Some(b),
        entries_round_trip(fmt, es),
        b.len() <= bits.len(),
        bits.subrange(0, b.len() as int) == b,
    ensures
        decode_entries(fmt, initial_state(bits, keys), es.len()) matches Some((ds, st)) && ds.len() == es.len()
            && (forall|i: int| 0 <= i < es.len() ==> same_entry(#[trigger] ds[i], es[i]))
            && st.cursor.bits == bits && st.cursor.pos == b.len() && !st.cursor.overrun
            && st.index == prev_index(es, es.len() as int),
    decreases es.len(),
{
    if es.len() == 0 {
        assert(b =~= Seq::<bool>::empty());
    } else {
        let n = (es.len() - 1) as int;
        let front = es.drop_last();
        let b1 = encode_bits(fmt, front)->0;
        let eb = entry_bits(fmt, prev_index(es, n), es.last())->0;
        assert(b == b1 + eb);
        assert forall|i: int| 0 <= i < front.len() implies prev_index(front, i) == prev_index(es, i) && #[trigger] front[i] == es[i] by {}
        assert(entries_round_trip(fmt, front)) by {
            assert forall|i: int| 0 <= i < front.len() implies {
                &&& index_round_trips(prev_index(front, i), (#[trigger] front[i]).index)
                &&& (front[i].key matches Some(k) ==> no_nul(k))
                &&& value_fits(fmt, front[i])
                &&& compression_sound(fmt, front[i])
            } by {
                assert(front[i] == es[i]);
                assert(prev_index(front, i) == prev_index(es, i));
            }
        }
        assert(bits.subrange(0, b1.len() as int) =~= b1) by {
            assert forall|j: int| 0 <= j < b1.len() implies bits.subrange(0, b1.len() as int)[j] == b1[j] by {
                assert(bits.subrange(0, b.len() as int)[j] == b[j]);
            }
        }
        lemma_entries_prefix_round_trip(fmt, front, b1, bits, keys);
        let (ds1, st1) = decode_entries(fmt, initial_state(bits, keys), n as nat)->0;
        assert(front.len() == n);
        assert(prev_index(front, n) == prev_index(es, n));
        assert(holds_at(st1.cursor, eb)) by {
            assert forall|j: int| 0 <= j < eb.len() implies bits.subrange(b1.len() as int, (b1.len() + eb.len()) as int)[j] == eb[j] by {
                assert(bits.subrange(0, b.len() as int)[b1.len() + j] == b[b1.len() + j]);
            }
            assert(bits.subrange(b1.len() as int, (b1.len() + eb.len()) as int) =~= eb);
        }
        assert(es[n] == es.last());
        entry_round_trip(fmt, st1, es.last(), eb);
        let (d, st2) = decode_entry(fmt, st1)->0;
        let ds = ds1.push(d);
        assert forall|i: int| 0 <= i < es.len() implies same_entry(#[trigger] ds[i], es[i]) by {
            if i < n {
                assert(ds[i] == ds1[i]);
                assert(front[i] == es[i]);
            }
        }
    }
}

/// Decoding what the encoder wrote gives back every entry's index, key and
/// value, in order, whatever keys the decoder remembers, when each index
/// reads back after the one before, keys hold no NUL character, and values
/// fit their fields and decompress.
pub proof fn encoded_entries_decode(fmt: PackedStringTableFormat, es: Seq<EntryView>, keys: Seq<Seq<char>>)
    requires
        encode_bits(fmt, es) is Some,
        entries_round_trip(fmt, es),
    ensures
        decode_entries(fmt, initial_state(pad_to_byte(encode_bits(fmt, es)->0), keys), es.len()) matches Some(
            (ds, _),
        ) && ds.len() == es.len() && forall|i: int| 0 <= i < es.len() ==> same_entry(#[trigger] ds[i], es[i]),
{
    let b = encode_bits(fmt, es)->0;
    let bits = pad_to_byte(b);
    assert(bits.subrange(0, b.len() as int) =~= b);
    lemma_entries_prefix_round_trip(fmt, es, b, bits, keys);
}

} // verus!
