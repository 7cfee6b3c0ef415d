//! Bit-packed string table entries: decoding, encoding and rewriting.
use vstd::prelude::*;
use vstd::arithmetic::power2::*;
use vstd::string::{StringExecFns, StringSliceAdditionalSpecFns};
use crate::text::{append_decimal, decimal_text};
use vstd::utf8::{decode_utf8, encode_utf8, is_char_boundary};
use crate::bits::BitCursor;
use vstd::slice::slice_to_vec;
use crate::bits::{bytes_as_bits, bytes_bits, nat_bits, pad_to_byte};
use crate::compression::{snappy_accepts_len, snappy_compress, snappy_compressed, snappy_decompress, snappy_decompressed};
use crate::varint::{leb128_bytes, ubit_var_bits};
use crate::writer::BitstreamWriter;
use crate::entry::{EntryView, StringTableEntryUpdate, opt_string_view, opt_bytes_view};
use crate::error::ParserError;
use crate::entry::EntryRewriter;
use crate::rewrite::{
    changes_compress_soundly, kept_entry, preserved_bits, preserved_from,
    preserved_outcome, preserved_result, rewritten_from, splice_entry, state_before, value_start,
    values_changed,
};
use crate::table_laws::compression_sound;
use crate::reader::{
    lemma_cstring_advances, lemma_var_from_advances, spec_var_from, spec_bits_as_bytes, spec_cstring_bytes, spec_ubit_var, spec_var_u32, utf8_lossy, SliceReader,
};

verus! {

/// How a string table packs its entry values.
#[derive(Clone, Copy, Debug, PartialEq, Eq)]
pub struct PackedStringTableFormat {
    /// Every value has `user_data_size` bits and no length prefix.
    pub user_data_fixed_size: bool,
    /// Bit size of every value when `user_data_fixed_size` is set.
    pub user_data_size: i32,
    /// Table flags; bit 0 allows Snappy-compressed values.
    pub flags: u32,
    /// Value byte counts are written as `ubit var` rather than in 17 bits.
    pub var_int_bit_counts: bool,
}

impl PackedStringTableFormat {
    /// The format that an `svc_CreateStringTable` message declares: its
    /// fixed-size flag and size, its flags, and whether byte counts are
    /// `ubit var`s.
    pub fn from_create_message(
        user_data_fixed_size: bool,
        user_data_size: i32,
        flags: i32,
        using_varint_bitcounts: bool,
    ) -> (f: Self)
        ensures
            f == (PackedStringTableFormat {
                user_data_fixed_size,
                user_data_size,
                flags: flags as u32,
                var_int_bit_counts: using_varint_bitcounts,
            }),
    {
        PackedStringTableFormat {
            user_data_fixed_size,
            user_data_size,
            flags: flags as u32,
            var_int_bit_counts: using_varint_bitcounts,
        }
    }
}

/// Number of recent keys kept for prefix-compressed keys.
pub const KEY_HISTORY_LEN: usize = 32;

/// The decoder's position and memory while reading entries.
pub struct DecodeState {
    pub cursor: BitCursor,
    /// Index of the last entry read, -1 before the first.
    pub index: int,
    /// Number of keys read so far.
    pub delta_pos: nat,
    /// Recently read keys, by `delta_pos` modulo 32.
    pub keys: Seq<Seq<char>>,
}

/// Reads an entry index: one bit set for "next index", otherwise a varint
/// gap. `None` when the index leaves the `i32` range.
pub open spec fn decode_index(c: BitCursor, index: int) -> Option<(int, BitCursor)> {
    let i1 = index + 1;
    let c1 = c.advance(1);
    if c.peek(1) == 1 {
        if i1 <= i32::MAX { Some((i1, c1)) } else { None }
    } else {
        let (v, c2) = spec_var_u32(c1);
        let gap = (v as i32) as int + 1;
        let i2 = i1 + gap;
        if gap <= i32::MAX && i32::MIN <= i2 <= i32::MAX && i1 <= i32::MAX {
            Some((i2, c2))
        } else {
            None
        }
    }
}

/// The key that a prefix reference builds from a remembered key: its first
/// `size` bytes followed by `tail`. `None` when `size` splits a character.
pub open spec fn prefixed_key(remembered: Seq<char>, size: nat, tail: Seq<char>) -> Option<Seq<char>> {
    let bytes = encode_utf8(remembered);
    if bytes.len() < size {
        Some(tail)
    } else if is_char_boundary(bytes, size as int) {
        Some(decode_utf8(bytes.take(size as int)) + tail)
    } else {
        None
    }
}

proof fn lemma_encode_utf8_concat(a: Seq<char>, b: Seq<char>)
    ensures
        encode_utf8(a + b) == encode_utf8(a) + encode_utf8(b),
    decreases a.len(),
{
    if a.len() == 0 {
        assert(a + b =~= b);
        assert(encode_utf8(a) + encode_utf8(b) =~= encode_utf8(b));
    } else {
        lemma_encode_utf8_concat(a.drop_first(), b);
        assert((a + b).drop_first() =~= a.drop_first() + b);
        assert((a + b)[0] == a[0]);
    }
}

/// A key built on a remembered key `remembered` holds, in UTF-8, the first
/// `size` bytes of it followed by `tail`, when `size` falls on a character
/// boundary within it.
pub proof fn prefixed_key_joins(remembered: Seq<char>, size: nat, tail: Seq<char>)
    requires
        size <= encode_utf8(remembered).len(),
        is_char_boundary(encode_utf8(remembered), size as int),
    ensures
        prefixed_key(remembered, size, tail) matches Some(k) && encode_utf8(k) == encode_utf8(remembered).take(
            size as int,
        ) + encode_utf8(tail),
{
    let bytes = encode_utf8(remembered);
    vstd::utf8::encode_utf8_valid_utf8(remembered);
    vstd::utf8::valid_utf8_split(bytes, size as int);
    assert(bytes.take(size as int) =~= bytes.subrange(0, size as int));
    vstd::utf8::decode_utf8_encode_utf8(bytes.take(size as int));
    lemma_encode_utf8_concat(decode_utf8(bytes.take(size as int)), tail);
}

/// Reads an optional key, possibly built on a remembered key, and records
/// it. `None` when a remembered key would be split inside a character.
pub open spec fn decode_key(c: BitCursor, delta_pos: nat, keys: Seq<Seq<char>>) -> Option<
    (Option<Seq<char>>, BitCursor, nat, Seq<Seq<char>>),
> {
    let c1 = c.advance(1);
    if c.peek(1) == 0 {
        Some((None, c1, delta_pos, keys))
    } else {
        let delta_zero: nat = if delta_pos > 32 { delta_pos % 32 } else { 0 };
        let c2 = c1.advance(1);
        let key_end: (Option<Seq<char>>, BitCursor) = if c1.peek(1) == 1 {
            let p5 = c2.peek(5);
            let c3 = c2.advance(5);
            let size = c3.peek(5);
            let c4 = c3.advance(5);
            let pos = (delta_zero + p5) % 32;
            let (tail, c5) = spec_cstring_bytes(c4);
            let tail_chars = utf8_lossy(tail);
            if delta_pos < pos {
                (Some(tail_chars), c5)
            } else {
                (prefixed_key(keys[pos as int], size, tail_chars), c5)
            }
        } else {
            let (tail, c3) = spec_cstring_bytes(c2);
            (Some(utf8_lossy(tail)), c3)
        };
        match key_end.0 {
            Some(k) => Some((Some(k), key_end.1, delta_pos + 1, keys.update((delta_pos % 32) as int, k))),
            None => None,
        }
    }
}

/// A key read as a reference to a remembered key (a set presence bit, a set
/// reference bit, five bits that place the remembered key and five bits
/// of size) to a key already recorded, with the size on a character
/// boundary within it, is that key's first `size` bytes followed by the
/// text read after them: its UTF-8 is exactly those bytes and then the
/// tail's.
pub proof fn prefix_keys_decode(c: BitCursor, delta_pos: nat, keys: Seq<Seq<char>>)
    requires
        c.peek(1) == 1,
        c.advance(1).peek(1) == 1,
        ({
            let c2 = c.advance(1).advance(1);
            let pos = ((if delta_pos > 32 { delta_pos % 32 } else { 0 }) + c2.peek(5)) % 32;
            let size = c2.advance(5).peek(5);
            &&& pos <= delta_pos
            &&& size <= encode_utf8(keys[pos as int]).len()
            &&& is_char_boundary(encode_utf8(keys[pos as int]), size as int)
        }),
    ensures
        ({
            let c2 = c.advance(1).advance(1);
            let pos = ((if delta_pos > 32 { delta_pos % 32 } else { 0 }) + c2.peek(5)) % 32;
            let size = c2.advance(5).peek(5);
            let tail = spec_cstring_bytes(c2.advance(5).advance(5)).0;
            decode_key(c, delta_pos, keys) matches Some((Some(k), _, _, _)) && encode_utf8(k) == encode_utf8(
                keys[pos as int],
            ).take(size as int) + encode_utf8(utf8_lossy(tail))
        }),
{
    let c2 = c.advance(1).advance(1);
    let pos = ((if delta_pos > 32 { delta_pos % 32 } else { 0 }) + c2.peek(5)) % 32;
    let size = c2.advance(5).peek(5);
    let tail = spec_cstring_bytes(c2.advance(5).advance(5)).0;
    prefixed_key_joins(keys[pos as int], size, utf8_lossy(tail));
}

/// The number of value bits and the compression flag that precede a value.
pub open spec fn decode_value_header(fmt: PackedStringTableFormat, c: BitCursor) -> (nat, bool, BitCursor) {
    if fmt.user_data_fixed_size {
        ((fmt.user_data_size as u32) as nat, false, c)
    } else {
        let comp = fmt.flags % 2 == 1 && c.peek(1) == 1;
        let ca = if fmt.flags % 2 == 1 { c.advance(1) } else { c };
        if fmt.var_int_bit_counts {
            let (n, cb) = spec_ubit_var(ca);
            (8 * (n as nat), comp, cb)
        } else {
            (8 * ca.peek(17), comp, ca.advance(17))
        }
    }
}

/// Reads an optional value. `None` when its bit size exceeds `u32::MAX` or
/// the bits left in the data.
pub open spec fn decode_value(fmt: PackedStringTableFormat, c: BitCursor) -> Option<
    (Option<Seq<u8>>, bool, BitCursor),
> {
    let c1 = c.advance(1);
    if c.peek(1) == 0 {
        Some((None, false, c1))
    } else {
        let (bit_size, compressed, c2) = decode_value_header(fmt, c1);
        if bit_size > u32::MAX || c2.pos + bit_size > c2.bits.len() {
            None
        } else {
            let (bytes, c3) = spec_bits_as_bytes(c2, bit_size);
            let v = if compressed {
                match snappy_decompressed(bytes) {
                    Some(d) => d,
                    None => bytes,
                }
            } else {
                bytes
            };
            Some((Some(v), compressed, c3))
        }
    }
}

/// Reads one entry. `None` when the index overflows, a prefix splits a
/// character, a value does not fit, or the data ends early.
pub open spec fn decode_entry(fmt: PackedStringTableFormat, s: DecodeState) -> Option<(EntryView, DecodeState)> {
    match decode_index(s.cursor, s.index) {
        None => None,
        Some((index, c1)) => match decode_key(c1, s.delta_pos, s.keys) {
            None => None,
            Some((key, c2, delta_pos, keys)) => match decode_value(fmt, c2) {
                None => None,
                Some((value, compressed, c3)) => if c3.overrun {
                    None
                } else {
                    Some((
                        EntryView { index: index as i32, key, value, value_compressed: compressed },
                        DecodeState { cursor: c3, index, delta_pos, keys },
                    ))
                },
            },
        },
    }
}

/// Reads `n` entries in order.
pub open spec fn decode_entries(fmt: PackedStringTableFormat, s: DecodeState, n: nat) -> Option<
    (Seq<EntryView>, DecodeState),
>
    decreases n,
{
    if n == 0 {
        Some((Seq::empty(), s))
    } else {
        match decode_entries(fmt, s, (n - 1) as nat) {
            None => None,
            Some((es, s1)) => match decode_entry(fmt, s1) {
                None => None,
                Some((e, s2)) => Some((es.push(e), s2)),
            },
        }
    }
}

/// The decoder's state at the start of `data`.
pub open spec fn initial_state(bits: Seq<bool>, keys: Seq<Seq<char>>) -> DecodeState {
    DecodeState { cursor: BitCursor { bits, pos: 0, overrun: false }, index: -1, delta_pos: 0, keys }
}

/// The views of a sequence of entry updates.
pub open spec fn entry_views(v: Seq<StringTableEntryUpdate>) -> Seq<EntryView> {
    v.map_values(|e: StringTableEntryUpdate| e@)
}

} // verus!

verus! {

/// The views of remembered keys.
pub open spec fn key_views(v: Seq<String>) -> Seq<Seq<char>> {
    v.map_values(|s: String| s@)
}

/// The number of entries a signed count asks for.
pub open spec fn entry_count(n: i32) -> nat {
    if n < 0 { 0 } else { n as nat }
}

fn read_index(reader: &mut SliceReader, index: i32) -> (r: Result<i32, ParserError>)
    requires
        old(reader).wf(),
    ensures
        final(reader).wf(),
        final(reader).source() == old(reader).source(),
        match decode_index(old(reader)@, index as int) {
            Some((i, c)) => r matches Ok(v) && v == i && final(reader)@ == c,
            None => r is Err,
        },
{
    if reader.read_bool() {
        if index == i32::MAX {
            return Err(ParserError::IoError("string table index overflow".to_owned()));
        }
        Ok(index + 1)
    } else {
        let v = reader.read_var_u32();
        let gap = v as i32;
        if index == i32::MAX || gap == i32::MAX {
            return Err(ParserError::IoError("string table index overflow".to_owned()));
        }
        let i1 = index + 1;
        let g = gap + 1;
        let sum = i1 as i64 + g as i64;
        if sum > i32::MAX as i64 || sum < i32::MIN as i64 {
            return Err(ParserError::IoError("string table index overflow".to_owned()));
        }
        Ok(sum as i32)
    }
}

#[verifier::spinoff_prover]
fn read_key(reader: &mut SliceReader, delta_pos: &mut usize, keys: &mut Vec<String>) -> (r: Result<Option<String>, ParserError>)
    requires
        old(reader).wf(),
        old(keys)@.len() == KEY_HISTORY_LEN,
        *old(delta_pos) < usize::MAX,
    ensures
        final(reader).wf(),
        final(reader).source() == old(reader).source(),
        final(keys)@.len() == KEY_HISTORY_LEN,
        *final(delta_pos) <= *old(delta_pos) + 1,
        match decode_key(old(reader)@, *old(delta_pos) as nat, key_views(old(keys)@)) {
            Some((k, c, dp, ks)) => r matches Ok(key) && opt_string_view(key) == k && final(reader)@ == c
                && *final(delta_pos) == dp && key_views(final(keys)@) == ks,
            None => r is Err,
        },
{
    if !reader.read_bool() {
        return Ok(None);
    }
    let dp = *delta_pos;
    let delta_zero: usize = if dp > 32 { dp % 32 } else { 0 };
    let key: String;
    if reader.read_bool() {
        let p5 = reader.read_bits_unchecked(5);
        let size = reader.read_bits_unchecked(5) as usize;
        proof {
            crate::bits::lemma_bits_value_bound(crate::bits::window(old(reader)@.bits, old(reader)@.pos + 2, 5));
            vstd::arithmetic::power2::lemma2_to64();
        }
        let pos = (delta_zero + p5 as usize) % 32;
        let tail_bytes = reader.read_cstring_bytes();
        let tail = crate::reader::string_from_utf8_lossy(tail_bytes.as_slice());
        if dp < pos {
            key = tail;
        } else {
            let remembered = keys[pos].as_str();
            if remembered.as_bytes().len() < size {
                key = tail;
            } else if remembered.is_char_boundary(size) {
                let (prefix, _) = remembered.split_at(size);
                proof {
                    vstd::utf8::encode_utf8_decode_utf8(prefix@);
                    assert(prefix.spec_bytes() =~= remembered.spec_bytes().take(size as int));
                }
                let mut joined = prefix.to_owned();
                vstd::string::StringExecFns::append(&mut joined, tail.as_str());
                proof {
                    assert(key_views(old(keys)@)[pos as int] == remembered@);
                }
                key = joined;
            } else {
                return Err(ParserError::IoError("string table key prefix splits a character".to_owned()));
            }
        }
    } else {
        let tail_bytes = reader.read_cstring_bytes();
        key = crate::reader::string_from_utf8_lossy(tail_bytes.as_slice());
    }
    let slot = dp % 32;
    let stored = key.clone();
    keys.set(slot, stored);
    *delta_pos = dp + 1;
    proof {
        assert(key_views(keys@) =~= key_views(old(keys)@).update(slot as int, key@));
    }
    Ok(Some(key))
}

fn read_value(fmt: PackedStringTableFormat, reader: &mut SliceReader) -> (r: Result<(Option<Vec<u8>>, bool), ParserError>)
    requires
        old(reader).wf(),
    ensures
        final(reader).wf(),
        final(reader).source() == old(reader).source(),
        match decode_value(fmt, old(reader)@) {
            Some((v, comp, c)) => r matches Ok(res) && opt_bytes_view(res.0) == v && res.1 == comp
                && final(reader)@ == c,
            None => r is Err,
        },
{
    if !reader.read_bool() {
        return Ok((None, false));
    }
    let ghost c1 = reader@;
    let bit_size: u64;
    let compressed: bool;
    if fmt.user_data_fixed_size {
        bit_size = fmt.user_data_size as u32 as u64;
        compressed = false;
    } else {
        compressed = if fmt.flags % 2 == 1 { reader.read_bool() } else { false };
        if fmt.var_int_bit_counts {
            let n = reader.read_ubit_var();
            bit_size = 8 * (n as u64);
        } else {
            let n = reader.read_bits(17);
            bit_size = 8 * (n as u64);
        }
    }
    proof {
        let (bs, comp, c2) = decode_value_header(fmt, c1);
        assert(bit_size == bs && compressed == comp && reader@ == c2);
    }
    if bit_size > u32::MAX as u64 || bit_size > reader.remaining_bits() as u64 {
        return Err(ParserError::IoError("string table value does not fit in the data".to_owned()));
    }
    let bytes = reader.read_bits_as_bytes(bit_size as u32);
    if compressed {
        match snappy_decompress(bytes.as_slice()) {
            Ok(d) => Ok((Some(d), true)),
            Err(_) => Ok((Some(bytes), true)),
        }
    } else {
        Ok((Some(bytes), false))
    }
}

fn read_entry(
    fmt: PackedStringTableFormat,
    reader: &mut SliceReader,
    index: &mut i32,
    delta_pos: &mut usize,
    keys: &mut Vec<String>,
) -> (r: Result<StringTableEntryUpdate, ParserError>)
    requires
        old(reader).wf(),
        old(keys)@.len() == KEY_HISTORY_LEN,
        *old(delta_pos) < usize::MAX,
    ensures
        final(reader).wf(),
        final(reader).source() == old(reader).source(),
        final(keys)@.len() == KEY_HISTORY_LEN,
        *final(delta_pos) <= *old(delta_pos) + 1,
        match decode_entry(
            fmt,
            DecodeState {
                cursor: old(reader)@,
                index: *old(index) as int,
                delta_pos: *old(delta_pos) as nat,
                keys: key_views(old(keys)@),
            },
        ) {
            Some((e, s)) => r matches Ok(x) && x@ == e && final(reader)@ == s.cursor && *final(index) == s.index
                && *final(delta_pos) == s.delta_pos && key_views(final(keys)@) == s.keys,
            None => r is Err,
        },
{
    let idx = match read_index(reader, *index) {
        Ok(v) => v,
        Err(e) => return Err(e),
    };
    let key = match read_key(reader, delta_pos, keys) {
        Ok(k) => k,
        Err(e) => return Err(e),
    };
    let (value, compressed) = match read_value(fmt, reader) {
        Ok(v) => v,
        Err(e) => return Err(e),
    };
    if reader.overrun() {
        return Err(ParserError::IoError("string table data ended early".to_owned()));
    }
    *index = idx;
    Ok(StringTableEntryUpdate::new_with_compression(idx, key, value, compressed))
}

/// Reads one entry like `read_entry`, also giving the position where its
/// key ends, right before the value presence bit.
#[verifier::spinoff_prover]
fn read_entry_split(
    fmt: PackedStringTableFormat,
    reader: &mut SliceReader,
    index: &mut i32,
    delta_pos: &mut usize,
    keys: &mut Vec<String>,
) -> (r: Result<(StringTableEntryUpdate, usize), ParserError>)
    requires
        old(reader).wf(),
        old(keys)@.len() == KEY_HISTORY_LEN,
        *old(delta_pos) < usize::MAX,
    ensures
        final(reader).wf(),
        final(reader).source() == old(reader).source(),
        final(keys)@.len() == KEY_HISTORY_LEN,
        *final(delta_pos) <= *old(delta_pos) + 1,
        match decode_entry(
            fmt,
            DecodeState {
                cursor: old(reader)@,
                index: *old(index) as int,
                delta_pos: *old(delta_pos) as nat,
                keys: key_views(old(keys)@),
            },
        ) {
            Some((e, s)) => r matches Ok(x) && x.0@ == e && final(reader)@ == s.cursor && *final(index) == s.index
                && *final(delta_pos) == s.delta_pos && key_views(final(keys)@) == s.keys
                && x.1 + 1 == crate::rewrite::value_start(DecodeState {
                    cursor: old(reader)@,
                    index: *old(index) as int,
                    delta_pos: *old(delta_pos) as nat,
                    keys: key_views(old(keys)@),
                }) && old(reader)@.pos <= x.1 < x.1 + 1 <= final(reader)@.pos,
            None => r is Err,
        },
{
    proof {
        reader.lemma_wf();
    }
    let ghost c0 = reader@;
    let idx = match read_index(reader, *index) {
        Ok(v) => v,
        Err(e) => return Err(e),
    };
    let key = match read_key(reader, delta_pos, keys) {
        Ok(k) => k,
        Err(e) => return Err(e),
    };
    proof {
        reader.lemma_wf();
    }
    let key_end = reader.bit_position();
    let ghost c2 = reader@;
    let (value, compressed) = match read_value(fmt, reader) {
        Ok(v) => v,
        Err(e) => return Err(e),
    };
    if reader.overrun() {
        return Err(ParserError::IoError("string table data ended early".to_owned()));
    }
    proof {
        lemma_index_key_advance(c0, *old(index) as int, *old(delta_pos) as nat, key_views(old(keys)@));
        lemma_decode_value_overrun(fmt, c2);
        lemma_decode_value_advances(fmt, c2);
    }
    *index = idx;
    Ok((StringTableEntryUpdate::new_with_compression(idx, key, value, compressed), key_end))
}

/// A value read that starts at the end of the data ends overrun.
pub proof fn lemma_decode_value_overrun(fmt: PackedStringTableFormat, c: BitCursor)
    requires
        c.wf(),
    ensures
        c.pos + 1 > c.bits.len() ==> (decode_value(fmt, c) matches Some((_, _, c3)) ==> c3.overrun),
{
    if c.pos + 1 <= c.bits.len() {
        return;
    }
    let c1 = c.advance(1);
    assert(c1.overrun);
    if c.peek(1) != 0 {
        let ca = if fmt.flags % 2 == 1 { c1.advance(1) } else { c1 };
        assert(ca.overrun);
        let (n, cb) = spec_ubit_var(ca);
        assert(cb.overrun);
        assert(ca.advance(17).overrun);
    }
}

/// Reading an index and a key never moves backwards.
pub proof fn lemma_index_key_advance(c: BitCursor, index: int, delta_pos: nat, keys: Seq<Seq<char>>)
    requires
        c.wf(),
    ensures
        decode_index(c, index) matches Some((_, c1)) ==> c.pos <= c1.pos && c1.wf() && c1.bits == c.bits && (
        decode_key(c1, delta_pos, keys) matches Some((_, c2, _, _)) ==> c1.pos <= c2.pos && c2.wf() && c2.bits
            == c.bits),
{
    let c1 = c.advance(1);
    lemma_var_from_advances(c1, 0, 0, 35);
    if let Some((_, d1)) = decode_index(c, index) {
        let e1 = d1.advance(1);
        let e2 = e1.advance(1);
        lemma_cstring_advances(e2);
        lemma_cstring_advances(e2.advance(5).advance(5));
    }
}

/// Reading a value never moves backwards.
pub proof fn lemma_decode_value_advances(fmt: PackedStringTableFormat, c: BitCursor)
    requires
        c.wf(),
    ensures
        decode_value(fmt, c) matches Some((_, _, c3)) ==> c.pos <= c3.pos && c3.wf() && c3.bits == c.bits,
{
    let c1 = c.advance(1);
    if c.peek(1) != 0 {
        let ca = if fmt.flags % 2 == 1 { c1.advance(1) } else { c1 };
        let (n, cb) = spec_ubit_var(ca);
        assert(cb.pos >= ca.pos && cb.wf() && cb.bits == c.bits);
    }
}

/// The decoder state of a packed string table: its format and the keys it
/// remembers for prefix-compressed keys.
pub struct PackedStringTableState {
    format: PackedStringTableFormat,
    keys: Vec<String>,
}

/// The contents of a packed string table state.
pub struct StateView {
    pub format: PackedStringTableFormat,
    pub keys: Seq<Seq<char>>,
}

impl View for PackedStringTableState {
    type V = StateView;

    closed spec fn view(&self) -> StateView {
        StateView { format: self.format, keys: key_views(self.keys@) }
    }
}

pub proof fn lemma_decode_entries_fail_extends(fmt: PackedStringTableFormat, s: DecodeState, n: nat, m: nat)
    requires
        decode_entries(fmt, s, n) is None,
        n <= m,
    ensures
        decode_entries(fmt, s, m) is None,
    decreases m - n,
{
    if n < m {
        lemma_decode_entries_fail_extends(fmt, s, n, (m - 1) as nat);
    }
}

impl PackedStringTableState {
    pub closed spec fn wf(&self) -> bool {
        self.keys@.len() == KEY_HISTORY_LEN
    }

    /// A state for a new table: 32 empty remembered keys.
    pub fn new(format: PackedStringTableFormat) -> (s: Self)
        ensures
            s.wf(),
            s@.format == format,
            s@.keys == Seq::new(32, |i: int| Seq::<char>::empty()),
    {
        let mut keys: Vec<String> = Vec::new();
        let mut i: usize = 0;
        while i < KEY_HISTORY_LEN
            invariant
                i <= KEY_HISTORY_LEN,
                keys@.len() == i,
                forall|j: int| 0 <= j < i ==> (#[trigger] keys@[j])@ == Seq::<char>::empty(),
            decreases KEY_HISTORY_LEN - i,
        {
            keys.push(String::new());
            i = i + 1;
        }
        let s = PackedStringTableState { format, keys };
        proof {
            assert(s@.keys =~= Seq::new(32, |i: int| Seq::<char>::empty()));
        }
        s
    }

    /// The table's format.
    pub fn format(&self) -> (f: PackedStringTableFormat)
        ensures
            f == self@.format,
    {
        self.format
    }

    fn copy_keys(&self) -> (k: Vec<String>)
        requires
            self.wf(),
        ensures
            key_views(k@) == self@.keys,
            k@.len() == KEY_HISTORY_LEN,
    {
        let mut out: Vec<String> = Vec::new();
        let mut i: usize = 0;
        while i < self.keys.len()
            invariant
                i <= self.keys@.len(),
                out@.len() == i,
                forall|j: int| 0 <= j < i ==> (#[trigger] out@[j])@ == self.keys@[j]@,
            decreases self.keys.len() - i,
        {
            out.push(self.keys[i].clone());
            i = i + 1;
        }
        proof {
            assert(key_views(out@) =~= self@.keys);
        }
        out
    }

    /// Decodes `num_entries` packed entries from `data`.
    ///
    /// Fails when the data ends early, an index leaves the `i32` range, a
    /// key prefix splits a character, or a value does not fit; the state is
    /// then unchanged. On success the state remembers the keys read.
    #[verifier::spinoff_prover]
    pub fn decode_entries(&mut self, data: &[u8], num_entries: i32) -> (r: Result<Vec<StringTableEntryUpdate>, ParserError>)
        requires
            old(self).wf(),
            data@.len() <= usize::MAX / 8,
        ensures
            final(self).wf(),
            final(self)@.format == old(self)@.format,
            match decode_entries(
                old(self)@.format,
                initial_state(crate::bits::bytes_bits(data@), old(self)@.keys),
                entry_count(num_entries),
            ) {
                Some((es, s)) => r matches Ok(v) && entry_views(v@) == es && final(self)@.keys == s.keys,
                None => r is Err && final(self)@ == old(self)@,
            },
    {
        let fmt = self.format;
        let mut reader = SliceReader::new(data);
        let mut keys = self.copy_keys();
        let mut index: i32 = -1;
        let mut delta_pos: usize = 0;
        let n: i32 = if num_entries < 0 { 0 } else { num_entries };
        let mut entries: Vec<StringTableEntryUpdate> = Vec::new();
        let ghost s0 = initial_state(crate::bits::bytes_bits(data@), self@.keys);
        let mut i: i32 = 0;
        proof {
            assert(entry_views(entries@) =~= Seq::<EntryView>::empty());
        }
        while i < n
            invariant
                reader.wf(),
                reader.source() == data@,
                self@ == old(self)@,
                self.wf(),
                s0 == initial_state(crate::bits::bytes_bits(data@), old(self)@.keys),
                fmt == self@.format,
                0 <= i <= n,
                n as nat == entry_count(num_entries),
                keys@.len() == KEY_HISTORY_LEN,
                delta_pos <= i,
                decode_entries(fmt, s0, i as nat) == Some((
                    entry_views(entries@),
                    DecodeState { cursor: reader@, index: index as int, delta_pos: delta_pos as nat, keys: key_views(keys@) },
                )),
            decreases n - i,
        {
            let ghost s1 = DecodeState { cursor: reader@, index: index as int, delta_pos: delta_pos as nat, keys: key_views(keys@) };
            let e = match read_entry(fmt, &mut reader, &mut index, &mut delta_pos, &mut keys) {
                Ok(e) => e,
                Err(err) => {
                    proof {
                        assert(decode_entry(fmt, s1) is None);
                        assert(decode_entries(fmt, s0, (i + 1) as nat) is None);
                        assert(entry_count(num_entries) == n as nat);
                        lemma_decode_entries_fail_extends(fmt, s0, (i + 1) as nat, n as nat);
                    }
                    return Err(err);
                }
            };
            let ghost before = entries@;
            let ghost ev = e@;
            entries.push(e);
            proof {
                assert(entry_views(entries@) =~= entry_views(before).push(ev));
            }
            i = i + 1;
        }
        self.keys = keys;
        Ok(entries)
    }

    /// Rewrites entries in place of the bits they were read from: an entry
    /// whose value is unchanged is copied bit for bit, and a changed value
    /// is written after a copy of the entry's index, key and presence bits
    /// as they were read, so keys keep their prefix compression. Gives `None` when no
    /// value changed.
    ///
    /// Fails when decoding fails, when the rewriter fails or changes a key
    /// or whether a value is present, or when a new value cannot be written.
    /// With a rewriter that describes itself, the result, the keys
    /// remembered and the rewriter's last state are what `preserved_run`
    /// gives.
    #[verifier::spinoff_prover]
    pub fn rewrite_preserving_key_bits<R: EntryRewriter>(
        &mut self,
        data: &[u8],
        num_entries: i32,
        rewriter: &mut R,
    ) -> (r: Result<Option<Vec<u8>>, ParserError>)
        requires
            old(self).wf(),
            data@.len() <= usize::MAX / 8,
        ensures
            final(self).wf(),
            preserved_result(old(self)@, final(self)@, data@, num_entries, *old(rewriter), *final(rewriter), r),
    {
        let ghost rw0 = *rewriter;
        let fmt = self.format;
        let mut reader = SliceReader::new(data);
        let mut index: i32 = -1;
        let mut delta_pos: usize = 0;
        let mut changed = false;
        let mut writer = BitstreamWriter::new();
        let n: i32 = if num_entries < 0 { 0 } else { num_entries };
        let ghost s0 = initial_state(crate::bits::bytes_bits(data@), self@.keys);
        let ghost mut before_views: Seq<EntryView> = Seq::empty();
        let ghost mut after_views: Seq<EntryView> = Seq::empty();
        let mut i: i32 = 0;
        while i < n
            invariant
                reader.wf(),
                reader.source() == data@,
                writer.wf(),
                self.wf(),
                self@.format == fmt,
                fmt == old(self)@.format,
                s0 == initial_state(crate::bits::bytes_bits(data@), old(self)@.keys),
                0 <= i <= n,
                n as nat == entry_count(num_entries),
                delta_pos <= i,
                before_views.len() == i,
                decode_entries(fmt, s0, i as nat) == Some((
                    before_views,
                    DecodeState { cursor: reader@, index: index as int, delta_pos: delta_pos as nat, keys: self@.keys },
                )),
                rewritten_from(before_views, after_views),
                preserved_bits(fmt, s0, before_views, after_views) == Some(writer@),
                changed == values_changed(before_views, after_views),
                changes_compress_soundly(fmt, before_views, after_views),
                rw0 == *old(rewriter),
                R::obeys_rewrites() ==> preserved_from(fmt, s0, n as nat, 0, rw0, Seq::empty(), Seq::empty())
                    == preserved_from(fmt, s0, n as nat, i as nat, *rewriter, before_views, after_views),
            decreases n - i,
        {
            let ghost st = DecodeState {
                cursor: reader@,
                index: index as int,
                delta_pos: delta_pos as nat,
                keys: self@.keys,
            };
            proof {
                reader.lemma_wf();
            }
            let entry_start = reader.bit_position();
            let step = read_entry_split(fmt, &mut reader, &mut index, &mut delta_pos, &mut self.keys);
            let (before, key_end) = match step {
                Ok(v) => v,
                Err(e) => {
                    proof {
                        lemma_decode_entries_fail_extends(fmt, s0, (i + 1) as nat, n as nat);
                    }
                    return Err(e);
                },
            };
            proof {
                reader.lemma_wf();
            }
            let entry_end = reader.bit_position();
            let ghost s2 = DecodeState {
                cursor: reader@,
                index: index as int,
                delta_pos: delta_pos as nat,
                keys: self@.keys,
            };
            let ghost nb = before_views.push(before@);
            proof {
                assert(decode_entries(fmt, s0, (i + 1) as nat) == Some((nb, s2)));
                assert(state_before(fmt, s0, i as nat) == st);
                assert(state_before(fmt, s0, (i + 1) as nat) == s2);
                assert(value_start(st) == key_end + 1);
                assert(nb.drop_last() =~= before_views);
                assert(nb.last() == before@);
            }
            let ghost rw_before = *rewriter;
            let mut entry = before.duplicate();
            match rewriter.rewrite_entry(&mut entry) {
                Ok(()) => {},
                Err(e) => return Err(e),
            }
            let after = before.with_contents_of(entry);
            let ghost na = after_views.push(after@);
            proof {
                assert(na.take(i as int) =~= after_views);
                assert(na[i as int] == after@);
                assert(after@ == kept_entry(before@, entry@));
            }
            let spliced = splice_entry(data, fmt, entry_start, key_end + 1, entry_end, &before, &after, &mut writer);
            let value_changed = match spliced {
                Ok(c) => c,
                Err(e) => return Err(e),
            };
            proof {
                assert(rewritten_from(nb, na));
                assert(values_changed(nb, na) == (values_changed(before_views, after_views) || value_changed)) by {
                    if value_changed {
                        assert(nb[i as int].value != na[i as int].value);
                    }
                    if values_changed(before_views, after_views) {
                        let j = choose|j: int| 0 <= j < before_views.len() && before_views[j].value != after_views[j].value;
                        assert(nb[j] == before_views[j] && na[j] == after_views[j]);
                    }
                    if values_changed(nb, na) && !value_changed {
                        let j = choose|j: int| 0 <= j < nb.len() && nb[j].value != na[j].value;
                        assert(j < i);
                        assert(nb[j] == before_views[j] && na[j] == after_views[j]);
                    }
                }
                before_views = nb;
                after_views = na;
            }
            changed = changed || value_changed;
            i = i + 1;
        }
        let res = if changed {
            Some(writer.into_inner())
        } else {
            None
        };
        proof {
            assert(preserved_outcome(fmt, s0, before_views, after_views, res));
            assert(rewritten_from(before_views, after_views));
            assert(i == n);
            assert(decode_entries(fmt, s0, entry_count(num_entries)) matches Some((es, st)) && es == before_views
                && st.keys == self@.keys);
            assert(exists|after: Seq<EntryView>|
                rewritten_from(before_views, after) && preserved_outcome(fmt, s0, before_views, after, res));
        }
        Ok(res)
    }
}

} // verus!

verus! {

/// The bits of an entry index after index `prev`: one set bit for the next
/// index, otherwise a clear bit and the gap minus one as a varint.
pub open spec fn index_bits(prev: int, index: i32) -> Seq<bool> {
    if index == prev + 1 {
        seq![true]
    } else {
        seq![false] + bytes_as_bits(leb128_bytes(((index - prev - 2) as u32) as nat))
    }
}

/// The bits of an optional key, always written in full.
pub open spec fn key_bits(key: Option<Seq<char>>) -> Seq<bool> {
    match key {
        Some(k) => seq![true, false] + bytes_as_bits(encode_utf8(k).push(0u8)),
        None => seq![false],
    }
}

/// The bytes stored for a value of a variable-size table and whether they
/// are compressed: compressed when the table allows it and compression
/// shrinks the value or the entry asks for it. `None` when compression fails.
pub open spec fn value_payload(fmt: PackedStringTableFormat, v: Seq<u8>, want_compressed: bool) -> Option<(Seq<u8>, bool)> {
    if fmt.flags % 2 == 1 {
        if snappy_accepts_len(v.len()) {
            let c = snappy_compressed(v);
            if c.len() < v.len() || want_compressed {
                Some((c, true))
            } else {
                Some((v, false))
            }
        } else {
            None
        }
    } else {
        Some((v, false))
    }
}

/// The number of bytes a fixed-size value must have.
pub open spec fn fixed_value_len(size: i32) -> int {
    if size % 8 == 0 { size / 8 } else { size / 8 + 1 }
}

/// The bits written for an entry's value after its presence bit. `None`
/// when a fixed-size value has the wrong length or compression fails.
pub open spec fn value_bits(fmt: PackedStringTableFormat, e: EntryView) -> Option<Seq<bool>> {
    match e.value {
        None => Some(Seq::empty()),
        Some(v) => if fmt.user_data_fixed_size {
            if fmt.user_data_size < 0 || v.len() != fixed_value_len(fmt.user_data_size) {
                None
            } else {
                Some(bytes_as_bits(v).take(fmt.user_data_size as int))
            }
        } else {
            match value_payload(fmt, v, e.value_compressed) {
                None => None,
                Some((p, comp)) => {
                    let flag = if fmt.flags % 2 == 1 { seq![comp] } else { Seq::empty() };
                    let count = if fmt.var_int_bit_counts {
                        ubit_var_bits(p.len() as u32)
                    } else {
                        nat_bits(p.len(), 17)
                    };
                    Some(flag + count + bytes_as_bits(p).take(((p.len() * 8) as u32) as int))
                },
            }
        },
    }
}

/// The bits of one entry written after index `prev`.
pub open spec fn entry_bits(fmt: PackedStringTableFormat, prev: int, e: EntryView) -> Option<Seq<bool>> {
    match value_bits(fmt, e) {
        None => None,
        Some(vb) => Some(index_bits(prev, e.index) + key_bits(e.key) + seq![e.value is Some] + vb),
    }
}

/// The index before entry `i`.
pub open spec fn prev_index(es: Seq<EntryView>, i: int) -> int {
    if i == 0 { -1 } else { es[i - 1].index as int }
}

/// The bits of a sequence of entries, every key written in full.
pub open spec fn encode_bits(fmt: PackedStringTableFormat, es: Seq<EntryView>) -> Option<Seq<bool>>
    decreases es.len(),
{
    if es.len() == 0 {
        Some(Seq::empty())
    } else {
        match encode_bits(fmt, es.drop_last()) {
            None => None,
            Some(b) => match entry_bits(fmt, prev_index(es, es.len() - 1), es.last()) {
                None => None,
                Some(eb) => Some(b + eb),
            },
        }
    }
}

/// The message of the error for a fixed-size value of `got` bytes where
/// `expected` are needed.
pub open spec fn fixed_size_message(expected: nat, got: nat) -> Seq<char> {
    "fixed-size string table entry expected "@ + decimal_text(expected) + " bytes, got "@ + decimal_text(got)
}

/// The error message for a fixed-size value of the wrong length.
fn fixed_size_error(expected: usize, got: usize) -> (r: String)
    ensures
        r@ == fixed_size_message(expected as nat, got as nat),
{
    let mut m = String::from_str("fixed-size string table entry expected ");
    append_decimal(&mut m, expected);
    m.append(" bytes, got ");
    append_decimal(&mut m, got);
    m
}

/// The number of bytes a fixed-size value of `size` bits is checked
/// against: the size taken as a `usize`, in bytes rounded up.
pub open spec fn fixed_check_len(size: i32) -> nat {
    let bits = (size as usize) as nat;
    if bits % 8 == 0 { bits / 8 } else { bits / 8 + 1 }
}

/// Writes an entry's value after its presence bit.
pub(crate) fn write_entry_value(
    writer: &mut BitstreamWriter,
    format: PackedStringTableFormat,
    entry: &StringTableEntryUpdate,
) -> (r: Result<(), ParserError>)
    requires
        old(writer).wf(),
    ensures
        final(writer).wf(),
        match value_bits(format, entry@) {
            Some(vb) => r is Ok && final(writer)@ == old(writer)@ + vb,
            None => r is Err,
        },
        r is Ok ==> compression_sound(format, entry@),
        r is Err ==> final(writer)@ == old(writer)@,
        format.user_data_fixed_size ==> match entry@.value {
            Some(v) => v.len() != fixed_check_len(format.user_data_size) ==> (r matches Err(ParserError::IoError(m))
                && m@ == fixed_size_message(fixed_check_len(format.user_data_size), v.len())),
            None => true,
        },
{
    let value = match entry.value() {
        None => {
            proof {
                assert(old(writer)@ + Seq::<bool>::empty() =~= old(writer)@);
            }
            return Ok(());
        },
        Some(v) => v,
    };
    if format.user_data_fixed_size {
        let size_bits = format.user_data_size as usize;
        let expected: usize = size_bits / 8 + if size_bits % 8 == 0 { 0 } else { 1 };
        if value.len() != expected {
            return Err(ParserError::IoError(fixed_size_error(expected, value.len())));
        }
        if format.user_data_size < 0 {
            return Err(ParserError::IoError("negative fixed string table value size".to_owned()));
        }
        let size = format.user_data_size as u32;
        proof {
            assert(size_bits == size as usize);
        }
        let _ = writer.write_bits_as_bytes(value, size);
        return Ok(());
    }
    let ghost start = writer@;
    let allow_compression = format.flags % 2 == 1;
    let payload: Vec<u8>;
    let is_compressed: bool;
    if allow_compression {
        match snappy_compress(value) {
            Ok(c) => {
                if c.len() < value.len() || entry.value_compressed() {
                    payload = c;
                    is_compressed = true;
                } else {
                    payload = slice_to_vec(value);
                    is_compressed = false;
                }
            },
            Err(_) => return Err(ParserError::CompressionError),
        }
    } else {
        payload = slice_to_vec(value);
        is_compressed = false;
    }
    proof {
        assert(value_payload(format, value@, entry@.value_compressed) == Some((payload@, is_compressed)));
    }
    if allow_compression {
        let _ = writer.write_bit(is_compressed);
    }
    let ghost after_flag = writer@;
    let len = payload.len();
    if format.var_int_bit_counts {
        let _ = writer.write_ubit_var(len as u32);
    } else {
        let _ = writer.write_bits(17, len as u64);
    }
    let ghost after_count = writer@;
    let bit_count = ((len as u128) * 8) as u32;
    let _ = writer.write_bits_as_bytes(payload.as_slice(), bit_count);
    proof {
        let flag = if format.flags % 2 == 1 { seq![is_compressed] } else { Seq::<bool>::empty() };
        assert(after_flag =~= start + flag);
        assert(writer@ =~= start + (flag + (after_count.subrange(after_flag.len() as int, after_count.len() as int))
            + bytes_as_bits(payload@).take(bit_count as int)));
    }
    Ok(())
}

fn write_entry(
    writer: &mut BitstreamWriter,
    format: PackedStringTableFormat,
    previous_index: i32,
    entry: &StringTableEntryUpdate,
) -> (r: Result<(), ParserError>)
    requires
        old(writer).wf(),
    ensures
        final(writer).wf(),
        match entry_bits(format, previous_index as int, entry@) {
            Some(eb) => r is Ok && final(writer)@ == old(writer)@ + eb,
            None => r is Err,
        },
        r is Ok ==> compression_sound(format, entry@),
{
    let ghost start = writer@;
    let index = entry.index();
    if index as i64 == previous_index as i64 + 1 {
        let _ = writer.write_bit(true);
    } else {
        let _ = writer.write_bit(false);
        let gap = ((index as i64) - (previous_index as i64) - 2) as u32;
        let _ = writer.write_var_u32(gap);
    }
    let ghost after_index = writer@;
    proof {
        assert(after_index =~= start + index_bits(previous_index as int, index));
    }
    match entry.key() {
        Some(k) => {
            let _ = writer.write_bit(true);
            let _ = writer.write_bit(false);
            let _ = writer.write_cstring(k);
        },
        None => {
            let _ = writer.write_bit(false);
        },
    }
    let ghost after_key = writer@;
    proof {
        assert(after_key =~= after_index + key_bits(entry@.key));
    }
    let present = match entry.value() {
        Some(_) => true,
        None => false,
    };
    let _ = writer.write_bit(present);
    let ghost after_presence = writer@;
    match write_entry_value(writer, format, entry) {
        Ok(()) => {},
        Err(e) => return Err(e),
    }
    proof {
        let vb = value_bits(format, entry@)->0;
        assert(writer@ =~= start + (index_bits(previous_index as int, index) + key_bits(entry@.key) + seq![
            entry@.value is Some] + vb));
    }
    Ok(())
}

/// Encodes entries with every key written in full, padded to whole bytes.
///
/// Fails when a fixed-size value has the wrong length or compression fails.
pub fn encode_entries(entries: &[StringTableEntryUpdate], format: PackedStringTableFormat) -> (r: Result<Vec<u8>, ParserError>)
    ensures
        match encode_bits(format, entry_views(entries@)) {
            Some(b) => r matches Ok(out) && bytes_bits(out@) == pad_to_byte(b),
            None => r is Err,
        },
        r is Ok ==> forall|i: int| 0 <= i < entries@.len() ==> compression_sound(format, #[trigger] entries@[i]@),
{
    let mut writer = BitstreamWriter::new();
    let mut previous_index: i32 = -1;
    let mut i: usize = 0;
    proof {
        assert(entry_views(entries@).take(0) =~= Seq::<EntryView>::empty());
    }
    while i < entries.len()
        invariant
            writer.wf(),
            i <= entries@.len(),
            previous_index as int == prev_index(entry_views(entries@), i as int),
            encode_bits(format, entry_views(entries@).take(i as int)) == Some(writer@),
            forall|j: int| 0 <= j < i ==> compression_sound(format, #[trigger] entries@[j]@),
        decreases entries.len() - i,
    {
        let ghost views = entry_views(entries@);
        proof {
            assert(views.take(i + 1).drop_last() =~= views.take(i as int));
            assert(views.take(i + 1).last() == views[i as int]);
            assert(prev_index(views.take(i + 1), i as int) == prev_index(views, i as int));
        }
        match write_entry(&mut writer, format, previous_index, &entries[i]) {
            Ok(()) => {},
            Err(e) => {
                proof {
                    assert(encode_bits(format, views.take(i + 1)) is None);
                    lemma_encode_fail_extends(format, views, (i + 1) as nat);
                    assert(views.take(views.len() as int) =~= views);
                }
                return Err(e);
            },
        }
        previous_index = entries[i].index();
        i = i + 1;
    }
    proof {
        assert(entry_views(entries@).take(entries@.len() as int) =~= entry_views(entries@));
    }
    Ok(writer.into_inner())
}

/// Encoding fails for every longer prefix once it fails for one.
pub proof fn lemma_encode_fail_extends(fmt: PackedStringTableFormat, es: Seq<EntryView>, n: nat)
    requires
        n <= es.len(),
        encode_bits(fmt, es.take(n as int)) is None,
    ensures
        encode_bits(fmt, es) is None,
    decreases es.len() - n,
{
    if n < es.len() {
        let t = es.take((n + 1) as int);
        assert(t.drop_last() =~= es.take(n as int));
        lemma_encode_fail_extends(fmt, es, n + 1);
    } else {
        assert(es.take(n as int) =~= es);
    }
}

} // verus!
