//! Rewriting string table entries, and copying bits from a stream.
use vstd::prelude::*;
use crate::bits::{bytes_bits, pad_to_byte};
use crate::table_laws::compression_sound;
use crate::entry::{EntryRewriter, EntryView, StringTableEntryUpdate};
use crate::error::ParserError;
use crate::reader::SliceReader;
use crate::string_table::{
    decode_entries, decode_index, decode_key, encode_bits, encode_entries, entry_count, entry_views,
    initial_state, value_bits, write_entry_value, DecodeState, PackedStringTableFormat, PackedStringTableState,
    StateView,
};
use crate::writer::BitstreamWriter;

verus! {

/// Copies `bit_len` bits of `source`, from bit `start_bit` on, to the writer.
pub fn copy_original_bits(
    source: &[u8],
    start_bit: usize,
    bit_len: usize,
    writer: &mut BitstreamWriter,
) -> (r: Result<(), ParserError>)
    requires
        old(writer).wf(),
        start_bit + bit_len <= 8 * source@.len(),
        start_bit + bit_len <= usize::MAX,
    ensures
        final(writer).wf(),
        r is Ok,
        final(writer)@ == old(writer)@ + bytes_bits(source@).subrange(start_bit as int, start_bit + bit_len),
{
    let ghost start = writer@;
    let end = start_bit + bit_len;
    let mut bit_index = start_bit;
    proof {
        assert(start + bytes_bits(source@).subrange(start_bit as int, start_bit as int) =~= start);
    }
    while bit_index < end
        invariant
            writer.wf(),
            start_bit <= bit_index <= end,
            end == start_bit + bit_len,
            end <= 8 * source@.len(),
            writer@ == start + bytes_bits(source@).subrange(start_bit as int, bit_index as int),
        decreases end - bit_index,
    {
        let byte = source[bit_index / 8];
        let bit = ((byte >> ((bit_index % 8) as u8)) & 1u8) == 1u8;
        let ghost before = writer@;
        let _ = writer.write_bit(bit);
        proof {
            assert(bit == bytes_bits(source@)[bit_index as int]);
            assert(writer@ =~= start + bytes_bits(source@).subrange(start_bit as int, bit_index + 1));
        }
        bit_index = bit_index + 1;
    }
    Ok(())
}

/// Copies every bit the reader has left to the writer.
pub fn copy_remaining_bits(reader: &mut SliceReader, writer: &mut BitstreamWriter) -> (r: Result<(), ParserError>)
    requires
        old(reader).wf(),
        old(writer).wf(),
    ensures
        final(reader).wf(),
        final(writer).wf(),
        r is Ok,
        final(reader).source() == old(reader).source(),
        final(reader)@.pos == final(reader)@.bits.len(),
        final(reader)@.overrun == old(reader)@.overrun,
        final(writer)@ == old(writer)@ + old(reader)@.bits.subrange(old(reader)@.pos, old(reader)@.bits.len() as int),
{
    let ghost start = writer@;
    let ghost c0 = reader@;
    proof {
        reader.lemma_wf();
        assert(start + c0.bits.subrange(c0.pos, c0.pos) =~= start);
    }
    while reader.remaining_bits() > 0
        invariant
            reader.wf(),
            writer.wf(),
            reader.source() == old(reader).source(),
            reader@.bits == c0.bits,
            reader@.overrun == c0.overrun,
            0 <= c0.pos <= reader@.pos <= c0.bits.len(),
            writer@ == start + c0.bits.subrange(c0.pos, reader@.pos),
        decreases reader@.bits.len() - reader@.pos,
    {
        let ghost p = reader@.pos;
        proof {
            reader.lemma_wf();
        }
        let bit = reader.read_bool();
        let _ = writer.write_bit(bit);
        proof {
            assert(bit == c0.bits[p]);
            assert(c0.bits.subrange(c0.pos, p + 1) =~= c0.bits.subrange(c0.pos, p).push(bit));
            assert(writer@ =~= start + c0.bits.subrange(c0.pos, p + 1));
        }
    }
    Ok(())
}

/// Whether some entry's key or value differs between `before` and `after`.
pub open spec fn entries_changed(before: Seq<EntryView>, after: Seq<EntryView>) -> bool {
    exists|i: int| 0 <= i < before.len() && (before[i].key != after[i].key || before[i].value != after[i].value)
}

/// `after` holds the entries of `before` as a rewriter may leave them: the
/// same indices and compression flags, with any keys and values.
pub open spec fn rewritten_from(before: Seq<EntryView>, after: Seq<EntryView>) -> bool {
    &&& after.len() == before.len()
    &&& forall|i: int|
        0 <= i < before.len() ==> (#[trigger] after[i]).index == before[i].index && after[i].value_compressed
            == before[i].value_compressed
}

/// The entry left in place of `before` when a rewriter hands back `e`: its
/// key and value, with the index and compression flag as read.
pub open spec fn kept_entry(before: EntryView, e: EntryView) -> EntryView {
    EntryView { key: e.key, value: e.value, ..before }
}

/// Hands the entries of `es` from `i` on, in turn, to a rewriter in state
/// `rw` that describes itself, appending what it leaves of each to `out`:
/// the entries left, or the first error it fails with (it sees no entry
/// after that one), and the state it ends in.
pub open spec fn rewrite_from<R: EntryRewriter>(rw: R, es: Seq<EntryView>, i: int, out: Seq<EntryView>) -> (
    Result<Seq<EntryView>, ParserError>,
    R,
)
    decreases es.len() - i,
{
    if i < 0 || i >= es.len() {
        (Ok(out), rw)
    } else {
        let (step, next) = rw.rewrites(es[i]);
        match step {
            Err(e) => (Err(e), next),
            Ok(e) => rewrite_from(next, es, i + 1, out.push(kept_entry(es[i], e))),
        }
    }
}

/// What a rewriter leaves of entries keeps their indices and compression
/// flags.
pub proof fn lemma_rewrite_from_kept<R: EntryRewriter>(rw: R, es: Seq<EntryView>, i: int, out: Seq<EntryView>)
    requires
        0 <= i <= es.len(),
        out.len() == i,
        forall|j: int|
            0 <= j < i ==> (#[trigger] out[j]).index == es[j].index && out[j].value_compressed
                == es[j].value_compressed,
    ensures
        rewrite_from(rw, es, i, out).0 matches Ok(a) ==> rewritten_from(es, a),
    decreases es.len() - i,
{
    if i < es.len() {
        let (step, next) = rw.rewrites(es[i]);
        if let Ok(e) = step {
            let out2 = out.push(kept_entry(es[i], e));
            assert forall|j: int| 0 <= j < i + 1 implies (#[trigger] out2[j]).index == es[j].index
                && out2[j].value_compressed == es[j].value_compressed by {
                if j < i {
                    assert(out2[j] == out[j]);
                }
            }
            lemma_rewrite_from_kept(next, es, i + 1, out2);
        }
    }
}

/// How a rewrite failed, as far as it is stated: an error left unstated,
/// this error, or an `IoError` with this message.
pub enum Failure {
    Unstated,
    Error(ParserError),
    Io(Seq<char>),
}

/// The error `e` is one that failure `f` allows.
pub open spec fn fails_as(e: ParserError, f: Failure) -> bool {
    match f {
        Failure::Unstated => true,
        Failure::Error(x) => e == x,
        Failure::Io(m) => e matches ParserError::IoError(s) && s@ == m,
    }
}

/// The result `r` is what outcome `o` describes: the failure's error, or
/// the new bytes for the new bits.
pub open spec fn run_gives(o: Result<Option<Seq<bool>>, Failure>, r: Result<Option<Vec<u8>>, ParserError>) -> bool {
    match o {
        Err(f) => r matches Err(e) && fails_as(e, f),
        Ok(bits) => r matches Ok(res) && new_bytes(bits, res),
    }
}

/// The message of the error for a rewritten entry whose key changed.
pub open spec fn key_change_text() -> Seq<char> {
    "preserving packed string table rewrite does not support key changes"@
}

/// The message of the error for a rewritten entry whose value appeared or
/// went away.
pub open spec fn presence_change_text() -> Seq<char> {
    "preserving packed string table rewrite does not support value presence changes"@
}

/// What re-encoding yields after a rewrite: `Some(None)` when nothing
/// changed, the new bits when something did, `None` when they cannot be
/// encoded.
pub open spec fn rewrite_outcome(fmt: PackedStringTableFormat, before: Seq<EntryView>, after: Seq<EntryView>) -> Option<
    Option<Seq<bool>>,
> {
    if entries_changed(before, after) {
        match encode_bits(fmt, after) {
            Some(b) => Some(Some(b)),
            None => None,
        }
    } else {
        Some(None)
    }
}

/// The bytes `res` are what outcome `o` describes: nothing for no change,
/// the new bits padded to whole bytes otherwise.
pub open spec fn outcome_bytes(o: Option<Option<Seq<bool>>>, res: Option<Vec<u8>>) -> bool {
    match res {
        None => o == Some(None::<Seq<bool>>),
        Some(out) => o matches Some(Some(b)) && bytes_bits(out@) == pad_to_byte(b),
    }
}

/// Re-encodes rewritten entries when a key or value changed.
///
/// Gives `None` when every entry is unchanged; fails when the rewritten
/// entries cannot be encoded.
pub fn finish_rewrite(
    format: PackedStringTableFormat,
    before: &[StringTableEntryUpdate],
    after: &[StringTableEntryUpdate],
) -> (r: Result<Option<Vec<u8>>, ParserError>)
    requires
        before@.len() == after@.len(),
    ensures
        match rewrite_outcome(format, entry_views(before@), entry_views(after@)) {
            None => r is Err,
            Some(o) => r matches Ok(res) && outcome_bytes(Some(o), res),
        },
        r matches Ok(Some(_)) ==> forall|i: int|
            0 <= i < after@.len() ==> compression_sound(format, #[trigger] entry_views(after@)[i]),
{
    let ghost bv = entry_views(before@);
    let ghost av = entry_views(after@);
    let mut changed = false;
    let mut i: usize = 0;
    while i < before.len()
        invariant
            before@.len() == after@.len(),
            bv == entry_views(before@),
            av == entry_views(after@),
            i <= before@.len(),
            changed == exists|j: int| 0 <= j < i && (bv[j].key != av[j].key || bv[j].value != av[j].value),
        decreases before.len() - i,
    {
        let same = before[i].same_contents(&after[i]);
        proof {
            assert(bv[i as int] == before@[i as int]@);
            assert(av[i as int] == after@[i as int]@);
        }
        if !same {
            changed = true;
        }
        i = i + 1;
    }
    if !changed {
        return Ok(None);
    }
    match encode_entries(after, format) {
        Ok(out) => Ok(Some(out)),
        Err(e) => Err(e),
    }
}

impl PackedStringTableState {
    /// Decodes `num_entries` entries from `data`, hands each to the
    /// rewriter, and re-encodes them, every key in full, when a key or value
    /// changed.
    ///
    /// Fails when decoding fails (the state is then unchanged), when the
    /// rewriter fails, or when the rewritten entries cannot be encoded. On
    /// success the state remembers the decoded keys.
    /// With a rewriter that describes itself, the result and the
    /// rewriter's last state are what `rewrite_run` gives.
    #[verifier::spinoff_prover]
    pub fn rewrite<R: EntryRewriter>(&mut self, data: &[u8], num_entries: i32, rewriter: &mut R) -> (r: Result<
        Option<Vec<u8>>,
        ParserError,
    >)
        requires
            old(self).wf(),
            data@.len() <= usize::MAX / 8,
        ensures
            final(self).wf(),
            rewrite_result(old(self)@, final(self)@, data@, num_entries, *old(rewriter), *final(rewriter), r),
    {
        let ghost rw0 = *rewriter;
        let entries = match self.decode_entries(data, num_entries) {
            Ok(e) => e,
            Err(e) => return Err(e),
        };
        let ghost es = entry_views(entries@);
        let ghost decoded_state = self@;
        let ghost decoded = decode_entries(
            old(self)@.format,
            initial_state(bytes_bits(data@), old(self)@.keys),
            entry_count(num_entries),
        );
        let mut rewritten: Vec<StringTableEntryUpdate> = Vec::new();
        let mut i: usize = 0;
        proof {
            assert(entry_views(rewritten@) =~= Seq::<EntryView>::empty());
        }
        while i < entries.len()
            invariant
                es == entry_views(entries@),
                self.wf(),
                self@ == decoded_state,
                decoded_state.format == old(self)@.format,
                decoded == decode_entries(
                    old(self)@.format,
                    initial_state(bytes_bits(data@), old(self)@.keys),
                    entry_count(num_entries),
                ),
                decoded matches Some((d, st)) && d == es && decoded_state.keys == st.keys,
                rw0 == *old(rewriter),
                i <= entries@.len(),
                rewritten@.len() == i,
                forall|j: int|
                    0 <= j < i ==> (#[trigger] rewritten@[j])@.index == es[j].index && rewritten@[j]@.value_compressed
                        == es[j].value_compressed,
                R::obeys_rewrites() ==> rewrite_from(rw0, es, 0, Seq::empty()) == rewrite_from(
                    *rewriter,
                    es,
                    i as int,
                    entry_views(rewritten@),
                ),
            decreases entries.len() - i,
        {
            let ghost rw_before = *rewriter;
            let ghost views_before = entry_views(rewritten@);
            let mut entry = entries[i].duplicate();
            proof {
                assert(es[i as int] == entries@[i as int]@);
            }
            match rewriter.rewrite_entry(&mut entry) {
                Ok(()) => {},
                Err(e) => {
                    return Err(e);
                },
            }
            let kept = entries[i].with_contents_of(entry);
            rewritten.push(kept);
            proof {
                assert(entry_views(rewritten@) =~= views_before.push(kept@));
                if R::obeys_rewrites() {
                    assert(kept@ == kept_entry(es[i as int], entry@));
                }
            }
            i = i + 1;
        }
        let res = finish_rewrite(self.format(), entries.as_slice(), rewritten.as_slice());
        proof {
            let after = entry_views(rewritten@);
            assert(rewritten_from(es, after));
        }
        res
    }
}

/// The bits that a key-preserving rewrite writes for one entry found at
/// bits `start..end`, whose value follows its presence bit at `value_start`:
/// the bits as read when the value is unchanged, otherwise the bits as read
/// up to the value followed by the new value. `None` when the key or
/// the presence of a value changed, or the new value cannot be written.
pub open spec fn splice_bits(
    fmt: PackedStringTableFormat,
    bits: Seq<bool>,
    start: int,
    value_start: int,
    end: int,
    before: EntryView,
    after: EntryView,
) -> Option<Seq<bool>> {
    if after.key != before.key || (after.value is Some) != (before.value is Some) {
        None
    } else if after.value == before.value {
        Some(bits.subrange(start, end))
    } else {
        match value_bits(fmt, after) {
            Some(vb) => Some(bits.subrange(start, value_start) + vb),
            None => None,
        }
    }
}

/// Writes one entry of a key-preserving rewrite and tells whether its
/// value changed.
pub fn splice_entry(
    source: &[u8],
    format: PackedStringTableFormat,
    start: usize,
    value_start: usize,
    end: usize,
    before: &StringTableEntryUpdate,
    after: &StringTableEntryUpdate,
    writer: &mut BitstreamWriter,
) -> (r: Result<bool, ParserError>)
    requires
        old(writer).wf(),
        start <= value_start <= end <= 8 * source@.len(),
    ensures
        final(writer).wf(),
        match splice_bits(format, bytes_bits(source@), start as int, value_start as int, end as int, before@, after@) {
            None => r is Err,
            Some(b) => r matches Ok(changed) && changed == (after@.value != before@.value) && final(writer)@
                == old(writer)@ + b,
        },
        r matches Ok(true) ==> compression_sound(format, after@),
        after@.key != before@.key ==> (r matches Err(ParserError::IoError(m)) && m@ == key_change_text()),
        after@.key == before@.key && (after@.value is Some) != (before@.value is Some) ==> (r matches Err(
            ParserError::IoError(m),
        ) && m@ == presence_change_text()),
{
    if !before.same_key(after) {
        return Err(
            ParserError::IoError("preserving packed string table rewrite does not support key changes".to_owned()),
        );
    }
    if before.has_value() != after.has_value() {
        return Err(
            ParserError::IoError(
                "preserving packed string table rewrite does not support value presence changes".to_owned(),
            ),
        );
    }
    if before.same_value(after) {
        let _ = copy_original_bits(source, start, end - start, writer);
        return Ok(false);
    }
    let _ = copy_original_bits(source, start, value_start - start, writer);
    let ghost head = writer@;
    match write_entry_value(writer, format, after) {
        Ok(()) => {},
        Err(e) => return Err(e),
    }
    proof {
        let vb = value_bits(format, after@)->0;
        assert(writer@ =~= old(writer)@ + (bytes_bits(source@).subrange(start as int, value_start as int) + vb));
    }
    Ok(true)
}

/// The decoder state before entry `i`.
pub open spec fn state_before(fmt: PackedStringTableFormat, s0: DecodeState, i: nat) -> DecodeState {
    let (_, s) = decode_entries(fmt, s0, i)->0;
    s
}

/// The position right after the value presence bit of the entry read from
/// state `s`.
pub open spec fn value_start(s: DecodeState) -> int {
    let (_, c1) = decode_index(s.cursor, s.index)->0;
    let (_, c2, _, _) = decode_key(c1, s.delta_pos, s.keys)->0;
    c2.pos + 1
}

/// The bits a key-preserving rewrite writes for the first `before.len()`
/// entries decoded from `s0`, rewritten as `after`.
pub open spec fn preserved_bits(
    fmt: PackedStringTableFormat,
    s0: DecodeState,
    before: Seq<EntryView>,
    after: Seq<EntryView>,
) -> Option<Seq<bool>>
    decreases before.len(),
{
    if before.len() == 0 {
        Some(Seq::empty())
    } else {
        let n = (before.len() - 1) as nat;
        match preserved_bits(fmt, s0, before.drop_last(), after.take(n as int)) {
            None => None,
            Some(p) => {
                let s = state_before(fmt, s0, n);
                match splice_bits(
                    fmt,
                    s0.cursor.bits,
                    s.cursor.pos,
                    value_start(s),
                    state_before(fmt, s0, n + 1).cursor.pos,
                    before.last(),
                    after[n as int],
                ) {
                    None => None,
                    Some(b) => Some(p + b),
                }
            },
        }
    }
}

/// Whether some entry's value differs between `before` and `after`.
pub open spec fn values_changed(before: Seq<EntryView>, after: Seq<EntryView>) -> bool {
    exists|i: int| 0 <= i < before.len() && before[i].value != after[i].value
}

/// The bytes `res` are what a key-preserving rewrite gives: nothing when no
/// value changed, otherwise the spliced bits padded to whole bytes.
pub open spec fn preserved_outcome(
    fmt: PackedStringTableFormat,
    s0: DecodeState,
    before: Seq<EntryView>,
    after: Seq<EntryView>,
    res: Option<Vec<u8>>,
) -> bool {
    match res {
        None => preserved_bits(fmt, s0, before, after) is Some && !values_changed(before, after),
        Some(out) => preserved_bits(fmt, s0, before, after) matches Some(b) && values_changed(before, after)
            && bytes_bits(out@) == pad_to_byte(b),
    }
}

/// What rewriting `num_entries` entries of `data` with keys `keys`
/// remembered gives, with a rewriter that starts in state `rw` and
/// describes itself: the new bits when a key or value changed, or how it
/// failed (the rewriter's own error when the rewriter fails), and the
/// state the rewriter ends in.
pub open spec fn rewrite_run<R: EntryRewriter>(
    fmt: PackedStringTableFormat,
    keys: Seq<Seq<char>>,
    data: Seq<u8>,
    num_entries: i32,
    rw: R,
) -> (Result<Option<Seq<bool>>, Failure>, R) {
    match decode_entries(fmt, initial_state(bytes_bits(data), keys), entry_count(num_entries)) {
        None => (Err(Failure::Unstated), rw),
        Some((es, _)) => {
            let (res, rw_end) = rewrite_from(rw, es, 0, Seq::empty());
            match res {
                Err(e) => (Err(Failure::Error(e)), rw_end),
                Ok(after) => match rewrite_outcome(fmt, es, after) {
                    None => (Err(Failure::Unstated), rw_end),
                    Some(o) => (Ok(o), rw_end),
                },
            }
        },
    }
}

/// The re-encoding rewrite, with a rewriter that gets through every
/// decoded entry: the rewriter has each decoded entry once, in order, and
/// leaves entries with the same indices; the rewrite gives nothing when no
/// key or value changed, otherwise the encoding of the rewritten entries
/// with every key in full, or an error when they cannot be encoded.
pub proof fn rewrite_reencodes<R: EntryRewriter>(
    fmt: PackedStringTableFormat,
    keys: Seq<Seq<char>>,
    data: Seq<u8>,
    num_entries: i32,
    rw: R,
)
    requires
        decode_entries(fmt, initial_state(bytes_bits(data), keys), entry_count(num_entries)) matches Some((es, _))
            && rewrite_from(rw, es, 0, Seq::empty()).0 is Ok,
    ensures
        ({
            let es = decode_entries(fmt, initial_state(bytes_bits(data), keys), entry_count(num_entries))->Some_0.0;
            let after = rewrite_from(rw, es, 0, Seq::empty()).0->Ok_0;
            &&& rewritten_from(es, after)
            &&& rewrite_run(fmt, keys, data, num_entries, rw).0 == if !entries_changed(es, after) {
                Ok::<Option<Seq<bool>>, Failure>(None)
            } else {
                match encode_bits(fmt, after) {
                    Some(b) => Ok(Some(b)),
                    None => Err(Failure::Unstated),
                }
            }
        }),
{
    let es = decode_entries(fmt, initial_state(bytes_bits(data), keys), entry_count(num_entries))->Some_0.0;
    lemma_rewrite_from_kept(rw, es, 0, Seq::empty());
}

/// What rewriting `num_entries` entries of `data` from state `before` to
/// state `after`, with a rewriter going from `rw0` to `rw1`, gives: an
/// error and no change when decoding fails; otherwise the decoded keys
/// remembered and, on success, the outcome of some rewrite of the decoded
/// entries. With a rewriter that describes itself, exactly what
/// `rewrite_run` gives.
pub open spec fn rewrite_result<R: EntryRewriter>(
    before: StateView,
    after: StateView,
    data: Seq<u8>,
    num_entries: i32,
    rw0: R,
    rw1: R,
    r: Result<Option<Vec<u8>>, ParserError>,
) -> bool {
    &&& after.format == before.format
    &&& match decode_entries(before.format, initial_state(bytes_bits(data), before.keys), entry_count(num_entries)) {
        None => r is Err && after == before,
        Some((es, st)) => after.keys == st.keys && (r matches Ok(res) ==> exists|rw: Seq<EntryView>|
            rewritten_from(es, rw) && outcome_bytes(rewrite_outcome(before.format, es, rw), res) && (res is Some
                ==> forall|i: int| 0 <= i < rw.len() ==> compression_sound(before.format, #[trigger] rw[i]))),
    }
    &&& R::obeys_rewrites() ==> {
        let (o, rw_end) = rewrite_run(before.format, before.keys, data, num_entries, rw0);
        rw1 == rw_end && run_gives(o, r)
    }
}

/// A key-preserving rewrite of the entries decoded from `s0`, from entry
/// `i` of `n` on, with a rewriter in state `rw` that describes itself,
/// `before` and `after` holding the entries so far as decoded and as
/// rewritten: each entry is decoded, handed to the rewriter, and must keep
/// its key and whether it has a value, and its new value must be writable.
/// Gives the entries as decoded and as rewritten, or how it failed at the
/// first entry where one of these does not hold, and the rewriter's state.
pub open spec fn preserved_from<R: EntryRewriter>(
    fmt: PackedStringTableFormat,
    s0: DecodeState,
    n: nat,
    i: nat,
    rw: R,
    before: Seq<EntryView>,
    after: Seq<EntryView>,
) -> (Result<(Seq<EntryView>, Seq<EntryView>), Failure>, R)
    decreases n - i,
{
    if i >= n {
        (Ok((before, after)), rw)
    } else {
        match decode_entries(fmt, s0, i + 1) {
            None => (Err(Failure::Unstated), rw),
            Some((decoded, _)) => {
                let b = decoded.last();
                let (step, next) = rw.rewrites(b);
                match step {
                    Err(e) => (Err(Failure::Error(e)), next),
                    Ok(e) => {
                        let a = kept_entry(b, e);
                        if a.key != b.key {
                            (Err(Failure::Io(key_change_text())), next)
                        } else if (a.value is Some) != (b.value is Some) {
                            (Err(Failure::Io(presence_change_text())), next)
                        } else if a.value != b.value && value_bits(fmt, a) is None {
                            (Err(Failure::Unstated), next)
                        } else {
                            preserved_from(fmt, s0, n, i + 1, next, decoded, after.push(a))
                        }
                    },
                }
            },
        }
    }
}

/// What a key-preserving rewrite of `num_entries` entries of `data` with
/// keys `keys` remembered gives, with a rewriter that starts in state `rw`
/// and describes itself: the spliced bits when a value changed, or how it
/// failed, and the state the rewriter ends in.
pub open spec fn preserved_run<R: EntryRewriter>(
    fmt: PackedStringTableFormat,
    keys: Seq<Seq<char>>,
    data: Seq<u8>,
    num_entries: i32,
    rw: R,
) -> (Result<Option<Seq<bool>>, Failure>, R) {
    let s0 = initial_state(bytes_bits(data), keys);
    let (res, rw_end) = preserved_from(fmt, s0, entry_count(num_entries), 0, rw, Seq::empty(), Seq::empty());
    match res {
        Err(f) => (Err(f), rw_end),
        Ok((es, after)) => match preserved_bits(fmt, s0, es, after) {
            None => (Err(Failure::Unstated), rw_end),
            Some(b) => (Ok(if values_changed(es, after) { Some(b) } else { None }), rw_end),
        },
    }
}

/// The bytes `res` hold the bits `bits` padded to whole bytes, or nothing
/// when there are none.
pub open spec fn new_bytes(bits: Option<Seq<bool>>, res: Option<Vec<u8>>) -> bool {
    match (bits, res) {
        (None, None) => true,
        (Some(b), Some(out)) => bytes_bits(out@) == pad_to_byte(b),
        _ => false,
    }
}

/// What a key-preserving rewrite of `num_entries` entries of `data` from
/// state `before` to state `after`, with a rewriter going from `rw0` to
/// `rw1`, gives: an error when decoding fails; on success the decoded keys
/// remembered and the spliced outcome of some rewrite of the decoded
/// entries. With a rewriter that describes itself, exactly what
/// `preserved_run` gives, and on success the decoded keys remembered.
pub open spec fn preserved_result<R: EntryRewriter>(
    before: StateView,
    after: StateView,
    data: Seq<u8>,
    num_entries: i32,
    rw0: R,
    rw1: R,
    r: Result<Option<Vec<u8>>, ParserError>,
) -> bool {
    let s0 = initial_state(bytes_bits(data), before.keys);
    &&& after.format == before.format
    &&& decode_entries(before.format, s0, entry_count(num_entries)) is None ==> r is Err
    &&& r matches Ok(res) ==> decode_entries(before.format, s0, entry_count(num_entries)) matches Some((es, st))
        && after.keys == st.keys && exists|rw: Seq<EntryView>|
        rewritten_from(es, rw) && preserved_outcome(before.format, s0, es, rw, res) && changes_compress_soundly(
            before.format,
            es,
            rw,
        )
    &&& R::obeys_rewrites() ==> {
        let (o, rw_end) = preserved_run(before.format, before.keys, data, num_entries, rw0);
        rw1 == rw_end && run_gives(o, r)
    }
}

/// Every changed value of a rewrite that is stored compressed decompresses
/// back.
pub open spec fn changes_compress_soundly(
    fmt: PackedStringTableFormat,
    before: Seq<EntryView>,
    after: Seq<EntryView>,
) -> bool {
    forall|i: int| 0 <= i < before.len() && before[i].value != after[i].value ==> compression_sound(fmt, #[trigger] after[i])
}

} // verus!
