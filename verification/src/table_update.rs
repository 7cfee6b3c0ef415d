//! Rewriting the string table data carried by demo messages.
use vstd::prelude::*;
use vstd::slice::slice_to_vec;
use crate::compression::{snappy_accepts_len, snappy_compress, snappy_compressed, snappy_decompress, snappy_decompressed};
use crate::entry::{
    clone_opt_bytes, clone_opt_string, opt_bytes_view, opt_string_view, EntryRewriter, StringTableEntryUpdate,
};
use crate::error::ParserError;
use crate::bits::{bytes_bits, pad_to_byte};
use crate::entry::EntryView;
use crate::rewrite::{fails_as, preserved_result, preserved_run, rewrite_result, rewrite_run};
use crate::string_table::PackedStringTableState;

verus! {

/// One item of a demo string table snapshot.
pub struct StringTableItem {
    /// The item's key.
    pub str: Option<String>,
    /// The item's data.
    pub data: Option<Vec<u8>>,
}

/// The contents of a string table item.
pub struct ItemView {
    pub key: Option<Seq<char>>,
    pub data: Option<Seq<u8>>,
}

impl View for StringTableItem {
    type V = ItemView;

    open spec fn view(&self) -> ItemView {
        ItemView { key: opt_string_view(self.str), data: opt_bytes_view(self.data) }
    }
}

/// Stores a rewritten entry's key and value in an item, telling whether
/// either differs from what the item held.
pub fn apply_item_update(item: &mut StringTableItem, entry: StringTableEntryUpdate) -> (changed: bool)
    ensures
        changed == (entry@.key != old(item)@.key || entry@.value != old(item)@.data),
        final(item)@ == (ItemView { key: entry@.key, data: entry@.value }),
{
    let before = StringTableEntryUpdate::new(0, clone_opt_string(&item.str), clone_opt_bytes(&item.data));
    if before.same_contents(&entry) {
        return false;
    }
    let (_, key, value) = entry.into_parts();
    item.str = key;
    item.data = value;
    true
}

/// The views of a snapshot's items.
pub open spec fn item_views(items: Seq<StringTableItem>) -> Seq<ItemView> {
    items.map_values(|it: StringTableItem| it@)
}

/// The entry that item `item`, at position `i`, is handed to a rewriter
/// as: numbered by its position, with its key and data as key and value.
pub open spec fn item_entry(i: int, item: ItemView) -> EntryView {
    EntryView { index: i as i32, key: item.key, value: item.data, value_compressed: false }
}

/// Hands the items of `items` from `i` on, in turn, to a rewriter in state
/// `rw` that describes itself, appending what it leaves of each to `done`:
/// the items left, or the first error it fails with together with the
/// items as they then stand (those before rewritten, the failing one and
/// those after as they were); and the state it ends in.
pub open spec fn items_from<R: EntryRewriter>(rw: R, items: Seq<ItemView>, i: int, done: Seq<ItemView>) -> (
    Result<Seq<ItemView>, (ParserError, Seq<ItemView>)>,
    R,
)
    decreases items.len() - i,
{
    if i < 0 || i >= items.len() {
        (Ok(done), rw)
    } else {
        let (step, next) = rw.rewrites(item_entry(i, items[i]));
        match step {
            Err(e) => (Err((e, done + items.subrange(i, items.len() as int))), next),
            Ok(e) => items_from(next, items, i + 1, done.push(ItemView { key: e.key, data: e.value })),
        }
    }
}

/// Hands each item of a demo string table snapshot, as an entry numbered
/// by its position, to the rewriter, and stores what it changed.
///
/// Tells whether some item changed; fails when the rewriter fails.
/// With a rewriter that describes itself, the items and the rewriter end as
/// `run_items` gives.
#[verifier::spinoff_prover]
pub fn rewrite_demo_string_table_items<R: EntryRewriter>(items: &mut Vec<StringTableItem>, rewriter: &mut R) -> (r:
    Result<bool, ParserError>)
    ensures
        final(items)@.len() == old(items)@.len(),
        r matches Ok(changed) ==> changed == exists|i: int|
            0 <= i < old(items)@.len() && (#[trigger] final(items)@[i])@ != old(items)@[i]@,
        R::obeys_rewrites() ==> {
            let (res, rw_end) = items_from(*old(rewriter), item_views(old(items)@), 0, Seq::empty());
            &&& *final(rewriter) == rw_end
            &&& match res {
                Ok(out) => r is Ok && item_views(final(items)@) == out,
                Err((e, held)) => r == Err::<bool, ParserError>(e) && item_views(final(items)@) == held,
            }
        },
{
    let ghost initial = items@;
    let ghost rw0 = *rewriter;
    let mut changed = false;
    let mut i: usize = 0;
    proof {
        assert(item_views(items@).take(0) =~= Seq::<ItemView>::empty());
    }
    while i < items.len()
        invariant
            initial == old(items)@,
            rw0 == *old(rewriter),
            items@.len() == initial.len(),
            i <= items@.len(),
            forall|j: int| i <= j < items@.len() ==> #[trigger] items@[j] == initial[j],
            changed == exists|j: int| 0 <= j < i && (#[trigger] items@[j])@ != initial[j]@,
            R::obeys_rewrites() ==> items_from(rw0, item_views(initial), 0, Seq::empty()) == items_from(
                *rewriter,
                item_views(initial),
                i as int,
                item_views(items@).take(i as int),
            ),
        decreases items.len() - i,
    {
        let ghost views_before = item_views(items@).take(i as int);
        let mut entry = StringTableEntryUpdate::new(
            i as i32,
            clone_opt_string(&items[i].str),
            clone_opt_bytes(&items[i].data),
        );
        proof {
            assert(item_views(initial)[i as int] == initial[i as int]@);
            assert(entry@ == item_entry(i as int, item_views(initial)[i as int]));
        }
        match rewriter.rewrite_entry(&mut entry) {
            Ok(()) => {},
            Err(e) => {
                proof {
                    let held = item_views(items@).take(i as int) + item_views(initial).subrange(
                        i as int,
                        initial.len() as int,
                    );
                    assert(held =~= item_views(items@));
                }
                return Err(e);
            },
        }
        let ghost handed_back = entry@;
        let mut item = StringTableItem { str: clone_opt_string(&items[i].str), data: clone_opt_bytes(&items[i].data) };
        let item_changed = apply_item_update(&mut item, entry);
        let ghost before = items@;
        items.set(i, item);
        proof {
            assert(item_views(items@).take(i + 1) =~= views_before.push(
                ItemView { key: handed_back.key, data: handed_back.value },
            ));
            assert(item_changed == (items@[i as int]@ != initial[i as int]@)) by {
                assert(initial[i as int]@ == before[i as int]@);
                if !item_changed {
                    assert(items@[i as int]@ == initial[i as int]@);
                } else if items@[i as int]@ == initial[i as int]@ {
                    assert(false);
                }
            }
            if item_changed {
                assert(exists|j: int| 0 <= j < i + 1 && (#[trigger] items@[j])@ != initial[j]@);
            }
            if changed {
                let j = choose|j: int| 0 <= j < i && (#[trigger] before[j])@ != initial[j]@;
                assert(items@[j] == before[j]);
            }
            if !changed && !item_changed {
                assert forall|j: int| 0 <= j < i + 1 implies (#[trigger] items@[j])@ == initial[j]@ by {
                    if j < i {
                        assert(items@[j] == before[j]);
                    }
                }
            }
        }
        changed = changed || item_changed;
        i = i + 1;
    }
    proof {
        assert(item_views(items@).take(i as int) =~= item_views(items@));
    }
    Ok(changed)
}

/// The parts of an `svc_UpdateStringTable` message that a rewrite reads and
/// changes.
pub struct StringTableUpdateData {
    /// Number of entries in `string_data`.
    pub num_changed_entries: i32,
    /// The packed entries.
    pub string_data: Vec<u8>,
}

/// The parts of an `svc_CreateStringTable` message that a rewrite reads and
/// changes.
pub struct StringTableCreateData {
    /// Number of entries in the packed data.
    pub num_entries: i32,
    /// Whether `string_data` is Snappy-compressed.
    pub data_compressed: bool,
    /// The packed entries, compressed when `data_compressed` is set.
    pub string_data: Vec<u8>,
    /// Length of the packed entries before compression.
    pub uncompressed_size: Option<i32>,
}

/// The rewrite result that a message update reports: the new data when the
/// message changed, nothing when it did not.
pub open spec fn reported(r: Result<bool, ParserError>, data: Vec<u8>) -> Result<Option<Vec<u8>>, ParserError> {
    match r {
        Ok(true) => Ok(Some(data)),
        Ok(false) => Ok(None),
        Err(e) => Err(e),
    }
}

/// Rewrites the entries of an update message, re-encoding every key in
/// full, and stores the new data when an entry changed.
pub fn rewrite_update_string_table<R: EntryRewriter>(
    msg: &mut StringTableUpdateData,
    state: &mut PackedStringTableState,
    rewriter: &mut R,
) -> (r: Result<bool, ParserError>)
    requires
        old(state).wf(),
        old(msg).string_data@.len() <= usize::MAX / 8,
    ensures
        final(state).wf(),
        final(msg).num_changed_entries == old(msg).num_changed_entries,
        rewrite_result(
            old(state)@,
            final(state)@,
            old(msg).string_data@,
            old(msg).num_changed_entries,
            *old(rewriter),
            *final(rewriter),
            reported(r, final(msg).string_data),
        ),
        !(r matches Ok(true)) ==> final(msg).string_data@ == old(msg).string_data@,
{
    let res = state.rewrite(msg.string_data.as_slice(), msg.num_changed_entries, rewriter);
    match res {
        Ok(Some(rewritten)) => {
            msg.string_data = rewritten;
            Ok(true)
        },
        Ok(None) => Ok(false),
        Err(e) => Err(e),
    }
}

/// Rewrites the entries of an update message in place of the bits they
/// were read from, and stores the new data when a value changed.
pub fn rewrite_update_string_table_preserving_key_bits<R: EntryRewriter>(
    msg: &mut StringTableUpdateData,
    state: &mut PackedStringTableState,
    rewriter: &mut R,
) -> (r: Result<bool, ParserError>)
    requires
        old(state).wf(),
        old(msg).string_data@.len() <= usize::MAX / 8,
    ensures
        final(state).wf(),
        final(msg).num_changed_entries == old(msg).num_changed_entries,
        preserved_result(
            old(state)@,
            final(state)@,
            old(msg).string_data@,
            old(msg).num_changed_entries,
            *old(rewriter),
            *final(rewriter),
            reported(r, final(msg).string_data),
        ),
        !(r matches Ok(true)) ==> final(msg).string_data@ == old(msg).string_data@,
{
    let res = state.rewrite_preserving_key_bits(msg.string_data.as_slice(), msg.num_changed_entries, rewriter);
    match res {
        Ok(Some(rewritten)) => {
            msg.string_data = rewritten;
            Ok(true)
        },
        Ok(None) => Ok(false),
        Err(e) => Err(e),
    }
}

/// The packed entries of a create message: its data, decompressed when it
/// is compressed. `None` when decompression fails.
pub open spec fn create_message_entries(msg: StringTableCreateData) -> Option<Seq<u8>> {
    if msg.data_compressed {
        snappy_decompressed(msg.string_data@)
    } else {
        Some(msg.string_data@)
    }
}

/// A create message after its entries were replaced by `rewritten`: the
/// uncompressed size recorded and the data compressed again when it was,
/// so that the message's entries are the rewritten ones.
pub open spec fn create_message_replaced(
    before: StringTableCreateData,
    after: StringTableCreateData,
    rewritten: Seq<u8>,
) -> bool {
    &&& after.num_entries == before.num_entries
    &&& after.data_compressed == before.data_compressed
    &&& after.uncompressed_size == Some(rewritten.len() as i32)
    &&& after.string_data@ == if before.data_compressed { snappy_compressed(rewritten) } else { rewritten }
    &&& create_message_entries(after) == Some(rewritten)
}

/// What storing the outcome `bits` of a rewrite of a create message's
/// entries gives: the message unchanged and `false` when nothing changed;
/// otherwise the new entries, the bits padded to whole bytes, stored and
/// `true`, or an error when they cannot be compressed again.
pub open spec fn create_outcome(
    before: StringTableCreateData,
    after: StringTableCreateData,
    bits: Option<Seq<bool>>,
    r: Result<bool, ParserError>,
) -> bool {
    match bits {
        None => r == Ok::<bool, ParserError>(false) && after == before,
        Some(b) => exists|out: Seq<u8>|
            bytes_bits(out) == pad_to_byte(b) && if !before.data_compressed || snappy_accepts_len(out.len()) {
                r == Ok::<bool, ParserError>(true) && create_message_replaced(before, after, out)
            } else {
                r is Err
            },
    }
}

/// The entries of a create message, as bytes the reader can address.
fn create_message_data(msg: &StringTableCreateData) -> (r: Result<Vec<u8>, ParserError>)
    ensures
        match create_message_entries(*msg) {
            None => r is Err,
            Some(d) => if d.len() <= usize::MAX / 8 {
                r matches Ok(v) && v@ == d
            } else {
                r is Err
            },
        },
{
    let data = if msg.data_compressed {
        match snappy_decompress(msg.string_data.as_slice()) {
            Ok(d) => d,
            Err(_) => return Err(ParserError::CompressionError),
        }
    } else {
        slice_to_vec(msg.string_data.as_slice())
    };
    if data.len() > usize::MAX / 8 {
        return Err(ParserError::IoError("string table data is too large to address by bit".to_owned()));
    }
    Ok(data)
}

/// Stores rewritten entries in a create message, compressing them again
/// when the message's data was compressed.
fn store_create_message_data(msg: &mut StringTableCreateData, rewritten: Vec<u8>) -> (r: Result<(), ParserError>)
    ensures
        r is Ok <==> (!old(msg).data_compressed || snappy_accepts_len(rewritten@.len())),
        r is Ok ==> create_message_replaced(*old(msg), *final(msg), rewritten@),
{
    msg.uncompressed_size = Some(rewritten.len() as i32);
    if msg.data_compressed {
        match snappy_compress(rewritten.as_slice()) {
            Ok(c) => {
                msg.string_data = c;
                Ok(())
            },
            Err(_) => Err(ParserError::CompressionError),
        }
    } else {
        msg.string_data = rewritten;
        Ok(())
    }
}

/// Rewrites the entries of a create message, re-encoding every key in
/// full, and stores the new data, compressed again when it was, when an
/// entry changed.
///
/// Fails when the data does not decompress, is too large to address by
/// bit, cannot be rewritten, or its new form cannot be compressed.
pub fn rewrite_create_string_table<R: EntryRewriter>(
    msg: &mut StringTableCreateData,
    state: &mut PackedStringTableState,
    rewriter: &mut R,
) -> (r: Result<bool, ParserError>)
    requires
        old(state).wf(),
    ensures
        final(state).wf(),
        create_message_entries(*old(msg)) is None ==> r is Err && final(state)@ == old(state)@,
        create_message_entries(*old(msg)) matches Some(d) && d.len() > usize::MAX / 8 ==> r is Err
            && final(state)@ == old(state)@,
        r matches Ok(false) ==> create_message_entries(*old(msg)) matches Some(d) && rewrite_result(
            old(state)@,
            final(state)@,
            d,
            old(msg).num_entries,
            *old(rewriter),
            *final(rewriter),
            Ok(None),
        ) && *final(msg) == *old(msg),
        r matches Ok(true) ==> create_message_entries(*old(msg)) matches Some(d) && exists|out: Vec<u8>|
            rewrite_result(
                old(state)@,
                final(state)@,
                d,
                old(msg).num_entries,
                *old(rewriter),
                *final(rewriter),
                Ok(Some(out)),
            ) && create_message_replaced(*old(msg), *final(msg), out@),
        R::obeys_rewrites() ==> match create_message_entries(*old(msg)) {
            None => true,
            Some(d) => d.len() <= usize::MAX / 8 ==> {
                let (o, rw_end) = rewrite_run(old(state)@.format, old(state)@.keys, d, old(msg).num_entries, *old(rewriter));
                &&& *final(rewriter) == rw_end
                &&& match o {
                    Err(f) => (r matches Err(e) && fails_as(e, f)),
                    Ok(bits) => create_outcome(*old(msg), *final(msg), bits, r),
                }
            },
        },
{
    let data = match create_message_data(msg) {
        Ok(d) => d,
        Err(e) => return Err(e),
    };
    let rewritten = match state.rewrite(data.as_slice(), msg.num_entries, rewriter) {
        Ok(Some(v)) => v,
        Ok(None) => {
            proof {
                assert(rewrite_result(
                    old(state)@,
                    state@,
                    data@,
                    old(msg).num_entries,
                    *old(rewriter),
                    *rewriter,
                    Ok(None::<Vec<u8>>),
                ));
            }
            return Ok(false);
        },
        Err(e) => return Err(e),
    };
    let ghost out = rewritten;
    match store_create_message_data(msg, rewritten) {
        Ok(()) => {},
        Err(e) => return Err(e),
    }
    proof {
        assert(rewrite_result(
            old(state)@,
            state@,
            data@,
            old(msg).num_entries,
            *old(rewriter),
            *rewriter,
            Ok(Some(out)),
        ));
    }
    Ok(true)
}

/// Rewrites the entries of a create message in place of the bits they
/// were read from, and stores the new data, compressed again when it was, when a
/// value changed.
pub fn rewrite_create_string_table_preserving_key_bits<R: EntryRewriter>(
    msg: &mut StringTableCreateData,
    state: &mut PackedStringTableState,
    rewriter: &mut R,
) -> (r: Result<bool, ParserError>)
    requires
        old(state).wf(),
    ensures
        final(state).wf(),
        create_message_entries(*old(msg)) is None ==> r is Err && final(state)@ == old(state)@,
        create_message_entries(*old(msg)) matches Some(d) && d.len() > usize::MAX / 8 ==> r is Err
            && final(state)@ == old(state)@,
        r matches Ok(false) ==> create_message_entries(*old(msg)) matches Some(d) && preserved_result(
            old(state)@,
            final(state)@,
            d,
            old(msg).num_entries,
            *old(rewriter),
            *final(rewriter),
            Ok(None),
        ) && *final(msg) == *old(msg),
        r matches Ok(true) ==> create_message_entries(*old(msg)) matches Some(d) && exists|out: Vec<u8>|
            preserved_result(
                old(state)@,
                final(state)@,
                d,
                old(msg).num_entries,
                *old(rewriter),
                *final(rewriter),
                Ok(Some(out)),
            ) && create_message_replaced(*old(msg), *final(msg), out@),
        R::obeys_rewrites() ==> match create_message_entries(*old(msg)) {
            None => true,
            Some(d) => d.len() <= usize::MAX / 8 ==> {
                let (o, rw_end) = preserved_run(old(state)@.format, old(state)@.keys, d, old(msg).num_entries, *old(rewriter));
                &&& *final(rewriter) == rw_end
                &&& match o {
                    Err(f) => (r matches Err(e) && fails_as(e, f)),
                    Ok(bits) => create_outcome(*old(msg), *final(msg), bits, r),
                }
            },
        },
{
    let data = match create_message_data(msg) {
        Ok(d) => d,
        Err(e) => return Err(e),
    };
    let rewritten = match state.rewrite_preserving_key_bits(data.as_slice(), msg.num_entries, rewriter) {
        Ok(Some(v)) => v,
        Ok(None) => {
            proof {
                assert(preserved_result(
                    old(state)@,
                    state@,
                    data@,
                    old(msg).num_entries,
                    *old(rewriter),
                    *rewriter,
                    Ok(None::<Vec<u8>>),
                ));
            }
            return Ok(false);
        },
        Err(e) => return Err(e),
    };
    let ghost out = rewritten;
    match store_create_message_data(msg, rewritten) {
        Ok(()) => {},
        Err(e) => return Err(e),
    }
    proof {
        assert(preserved_result(
            old(state)@,
            state@,
            data@,
            old(msg).num_entries,
            *old(rewriter),
            *rewriter,
            Ok(Some(out)),
        ));
    }
    Ok(true)
}

} // verus!
