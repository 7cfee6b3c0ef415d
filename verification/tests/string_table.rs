use source2_demo::entry::{EntryRewriter, StringTableEntryUpdate};
use source2_demo::rewrite::{copy_original_bits, copy_remaining_bits};
use source2_demo::string_table::{encode_entries, PackedStringTableFormat, PackedStringTableState};
use source2_demo::table_update::{
    apply_item_update, rewrite_create_string_table, rewrite_create_string_table_preserving_key_bits,
    rewrite_demo_string_table_items, rewrite_update_string_table,
    rewrite_update_string_table_preserving_key_bits, StringTableCreateData, StringTableItem,
    StringTableUpdateData,
};
use source2_demo::{BitstreamWriter, ParserError, SliceReader};

fn plain_format() -> PackedStringTableFormat {
    PackedStringTableFormat {
        user_data_fixed_size: false,
        user_data_size: 0,
        flags: 0,
        var_int_bit_counts: false,
    }
}

/// Replaces the value of entry 16.
struct ReplaceSixteen;

impl EntryRewriter for ReplaceSixteen {
    fn rewrite_entry(&mut self, entry: &mut StringTableEntryUpdate) -> Result<(), ParserError> {
        if entry.index() == 16 {
            entry.set_value(vec![9, 8, 7, 6]);
        }
        Ok(())
    }
}

/// Leaves every entry as it is, counting the calls.
struct Untouched(usize);

impl EntryRewriter for Untouched {
    fn rewrite_entry(&mut self, _entry: &mut StringTableEntryUpdate) -> Result<(), ParserError> {
        self.0 += 1;
        Ok(())
    }
}

/// Renames every key.
struct Rename;

impl EntryRewriter for Rename {
    fn rewrite_entry(&mut self, entry: &mut StringTableEntryUpdate) -> Result<(), ParserError> {
        entry.set_key("renamed".to_string());
        Ok(())
    }
}

/// Drops every value.
struct DropValues;

impl EntryRewriter for DropValues {
    fn rewrite_entry(&mut self, entry: &mut StringTableEntryUpdate) -> Result<(), ParserError> {
        entry.clear_value();
        Ok(())
    }
}

/// Fails on the first entry.
struct Refuse;

impl EntryRewriter for Refuse {
    fn rewrite_entry(&mut self, _entry: &mut StringTableEntryUpdate) -> Result<(), ParserError> {
        Err(ParserError::ReplayEncodingError)
    }
}

fn two_entries() -> [StringTableEntryUpdate; 2] {
    [
        StringTableEntryUpdate::new(16, Some("16".to_string()), Some(vec![1, 2, 3])),
        StringTableEntryUpdate::new(20, Some("20".to_string()), Some(vec![4, 5, 6])),
    ]
}

#[test]
fn preserving_rewrite_keeps_sparse_index_and_key_bits() {
    let format = plain_format();
    let entries = two_entries();
    let data = encode_entries(&entries, format).unwrap();
    let mut state = PackedStringTableState::new(format);

    let rewritten = state
        .rewrite_preserving_key_bits(&data, entries.len() as i32, &mut ReplaceSixteen)
        .unwrap()
        .unwrap();

    let decoded = PackedStringTableState::new(format)
        .decode_entries(&rewritten, entries.len() as i32)
        .unwrap();

    assert_eq!(decoded[0].index(), 16);
    assert_eq!(decoded[0].key(), Some("16"));
    assert_eq!(decoded[0].value(), Some([9, 8, 7, 6].as_slice()));
    assert_eq!(decoded[1].index(), 20);
    assert_eq!(decoded[1].key(), Some("20"));
    assert_eq!(decoded[1].value(), Some([4, 5, 6].as_slice()));
}

#[test]
fn encoded_entries_decode_back() {
    let format = PackedStringTableFormat {
        user_data_fixed_size: false,
        user_data_size: 0,
        flags: 0,
        var_int_bit_counts: true,
    };
    let entries = [
        StringTableEntryUpdate::new(0, Some("first".to_string()), Some(vec![7; 40])),
        StringTableEntryUpdate::new(1, None, None),
        StringTableEntryUpdate::new(9, Some("ninth".to_string()), Some(Vec::new())),
    ];
    let data = encode_entries(&entries, format).unwrap();
    let decoded = PackedStringTableState::new(format).decode_entries(&data, 3).unwrap();
    assert_eq!(decoded.len(), 3);
    for (got, want) in decoded.iter().zip(entries.iter()) {
        assert_eq!(got.index(), want.index());
        assert_eq!(got.key(), want.key());
        assert_eq!(got.value(), want.value());
    }
}

#[test]
fn encoding_writes_exact_bits() {
    // Entry 0 follows index -1: one set bit. Key "a": bits 1, 0, then the
    // bytes 'a' and 0. Value present: bit 1, then 17 bits of byte count 1,
    // then the byte 0xFF.
    let entries = [StringTableEntryUpdate::new(0, Some("a".to_string()), Some(vec![0xFF]))];
    let data = encode_entries(&entries, plain_format()).unwrap();
    let mut bits = Vec::new();
    bits.extend([true, true, false]);
    for i in 0..8 {
        bits.push((b'a' >> i) & 1 == 1);
    }
    bits.extend([false; 8]);
    bits.push(true);
    for i in 0..17 {
        bits.push(i == 0);
    }
    bits.extend([true; 8]);
    while bits.len() % 8 != 0 {
        bits.push(false);
    }
    let mut expected = vec![0u8; bits.len() / 8];
    for (i, bit) in bits.iter().enumerate() {
        if *bit {
            expected[i / 8] |= 1 << (i % 8);
        }
    }
    assert_eq!(data, expected);
}

#[test]
fn fixed_size_values_round_trip_and_reject_wrong_lengths() {
    let format = PackedStringTableFormat {
        user_data_fixed_size: true,
        user_data_size: 12,
        flags: 0,
        var_int_bit_counts: false,
    };
    let good = [StringTableEntryUpdate::new(0, None, Some(vec![0xAB, 0x0C]))];
    let data = encode_entries(&good, format).unwrap();
    let decoded = PackedStringTableState::new(format).decode_entries(&data, 1).unwrap();
    assert_eq!(decoded[0].value(), Some([0xAB, 0x0C].as_slice()));

    let bad = [StringTableEntryUpdate::new(0, None, Some(vec![1, 2, 3]))];
    assert!(matches!(encode_entries(&bad, format), Err(ParserError::IoError(_))));
}

#[test]
fn compressed_values_decode_to_the_original_bytes() {
    let format = PackedStringTableFormat {
        user_data_fixed_size: false,
        user_data_size: 0,
        flags: 1,
        var_int_bit_counts: false,
    };
    let value = vec![b'z'; 200];
    let entries = [StringTableEntryUpdate::new(0, Some("k".to_string()), Some(value.clone()))];
    let data = encode_entries(&entries, format).unwrap();
    // The compressed form is far shorter than the value.
    assert!(data.len() < 100);
    let decoded = PackedStringTableState::new(format).decode_entries(&data, 1).unwrap();
    assert_eq!(decoded[0].value(), Some(value.as_slice()));
    assert!(decoded[0].value_compressed());
}

#[test]
fn truncated_data_is_refused_and_state_kept() {
    let format = plain_format();
    let data = encode_entries(&two_entries(), format).unwrap();
    let mut state = PackedStringTableState::new(format);
    assert!(state.decode_entries(&data[..data.len() - 2], 2).is_err());
    assert!(state.decode_entries(&data, 2).is_ok());
}

#[test]
fn unchanged_rewrite_gives_nothing() {
    let format = plain_format();
    let data = encode_entries(&two_entries(), format).unwrap();
    let mut counter = Untouched(0);
    let mut state = PackedStringTableState::new(format);
    assert!(state.rewrite(&data, 2, &mut counter).unwrap().is_none());
    assert_eq!(counter.0, 2);
    let mut state = PackedStringTableState::new(format);
    assert!(state.rewrite_preserving_key_bits(&data, 2, &mut counter).unwrap().is_none());
    assert_eq!(counter.0, 4);
}

#[test]
fn full_rewrite_reencodes_changed_keys() {
    let format = plain_format();
    let data = encode_entries(&two_entries(), format).unwrap();
    let mut state = PackedStringTableState::new(format);
    let out = state.rewrite(&data, 2, &mut Rename).unwrap().unwrap();
    let decoded = PackedStringTableState::new(format).decode_entries(&out, 2).unwrap();
    assert_eq!(decoded[0].index(), 16);
    assert_eq!(decoded[0].key(), Some("renamed"));
    assert_eq!(decoded[1].index(), 20);
    assert_eq!(decoded[1].key(), Some("renamed"));
    assert_eq!(decoded[1].value(), Some([4, 5, 6].as_slice()));
}

#[test]
fn preserving_rewrite_refuses_key_and_presence_changes() {
    let format = plain_format();
    let data = encode_entries(&two_entries(), format).unwrap();
    let mut state = PackedStringTableState::new(format);
    assert!(matches!(
        state.rewrite_preserving_key_bits(&data, 2, &mut Rename),
        Err(ParserError::IoError(_))
    ));
    let mut state = PackedStringTableState::new(format);
    assert!(matches!(
        state.rewrite_preserving_key_bits(&data, 2, &mut DropValues),
        Err(ParserError::IoError(_))
    ));
}

#[test]
fn rewriter_errors_pass_through() {
    let format = plain_format();
    let data = encode_entries(&two_entries(), format).unwrap();
    let mut state = PackedStringTableState::new(format);
    assert!(matches!(
        state.rewrite(&data, 2, &mut Refuse),
        Err(ParserError::ReplayEncodingError)
    ));
}

#[test]
fn copying_bits_keeps_them_in_order() {
    let source = [0b1011_0110u8, 0b0000_0001];
    let mut writer = BitstreamWriter::new();
    copy_original_bits(&source, 1, 9, &mut writer).unwrap();
    // Bits 1..10 of the source: 1,1,0,1,1,0,1 from the first byte, 1,0 from the second.
    assert_eq!(writer.into_inner(), vec![0b1101_1011, 0b0000_0000]);
}

#[test]
fn demo_items_rewrite_reports_changes() {
    let mut items = vec![
        StringTableItem { str: Some("a".to_string()), data: None },
        StringTableItem { str: Some("b".to_string()), data: Some(vec![1]) },
    ];
    assert!(!rewrite_demo_string_table_items(&mut items, &mut Untouched(0)).unwrap());
    assert!(rewrite_demo_string_table_items(&mut items, &mut Rename).unwrap());
    assert_eq!(items[0].str.as_deref(), Some("renamed"));
    assert_eq!(items[1].data, Some(vec![1]));

    let mut item = StringTableItem { str: None, data: Some(vec![2]) };
    let entry = StringTableEntryUpdate::new(0, Some("x".to_string()), Some(vec![2]));
    assert!(apply_item_update(&mut item, entry));
    assert_eq!(item.str.as_deref(), Some("x"));
}

#[test]
fn update_message_rewrites_store_new_data() {
    let format = plain_format();
    let data = encode_entries(&two_entries(), format).unwrap();
    let mut msg = StringTableUpdateData { num_changed_entries: 2, string_data: data.clone() };
    let mut state = PackedStringTableState::new(format);
    assert!(!rewrite_update_string_table(&mut msg, &mut state, &mut Untouched(0)).unwrap());
    assert_eq!(msg.string_data, data);

    let mut state = PackedStringTableState::new(format);
    assert!(rewrite_update_string_table_preserving_key_bits(&mut msg, &mut state, &mut ReplaceSixteen).unwrap());
    let decoded = PackedStringTableState::new(format).decode_entries(&msg.string_data, 2).unwrap();
    assert_eq!(decoded[0].value(), Some([9, 8, 7, 6].as_slice()));
}

#[test]
fn create_message_rewrites_recompress() {
    let format = plain_format();
    let data = encode_entries(&two_entries(), format).unwrap();
    let compressed = snap::raw::Encoder::new().compress_vec(&data).unwrap();
    let mut msg = StringTableCreateData {
        num_entries: 2,
        data_compressed: true,
        string_data: compressed,
        uncompressed_size: None,
    };
    let mut state = PackedStringTableState::new(format);
    assert!(rewrite_create_string_table(&mut msg, &mut state, &mut Rename).unwrap());
    let plain = snap::raw::Decoder::new().decompress_vec(&msg.string_data).unwrap();
    assert_eq!(msg.uncompressed_size, Some(plain.len() as i32));
    let decoded = PackedStringTableState::new(format).decode_entries(&plain, 2).unwrap();
    assert_eq!(decoded[1].key(), Some("renamed"));

    let mut state = PackedStringTableState::new(format);
    assert!(rewrite_create_string_table_preserving_key_bits(&mut msg, &mut state, &mut ReplaceSixteen).unwrap());
    let plain = snap::raw::Decoder::new().decompress_vec(&msg.string_data).unwrap();
    let decoded = PackedStringTableState::new(format).decode_entries(&plain, 2).unwrap();
    assert_eq!(decoded[0].key(), Some("renamed"));
    assert_eq!(decoded[0].value(), Some([9, 8, 7, 6].as_slice()));

    let mut broken = StringTableCreateData {
        num_entries: 1,
        data_compressed: true,
        string_data: vec![0xFF, 0xFF],
        uncompressed_size: None,
    };
    let mut state = PackedStringTableState::new(format);
    assert!(matches!(
        rewrite_create_string_table(&mut broken, &mut state, &mut Untouched(0)),
        Err(ParserError::CompressionError)
    ));
}

#[test]
fn entry_updates_edit_in_place() {
    let mut entry = StringTableEntryUpdate::new(3, Some("k".to_string()), Some(vec![1, 2]));
    if let Some(value) = entry.value_mut() {
        value.push(3);
    }
    assert_eq!(entry.value(), Some([1, 2, 3].as_slice()));
    entry.clear_key();
    assert_eq!(entry.key(), None);
    entry.clear_value();
    assert_eq!(entry.value(), None);
    assert!(entry.value_mut().is_none());
    entry.set_key("again".to_string());
    assert_eq!(entry.key(), Some("again"));
    assert_eq!(entry.index(), 3);
    let (index, key, value) = entry.into_parts();
    assert_eq!((index, key.as_deref(), value), (3, Some("again"), None));
}

#[test]
fn create_message_format_takes_its_fields() {
    let format = PackedStringTableFormat::from_create_message(true, 64, -1, false);
    assert!(format.user_data_fixed_size);
    assert_eq!(format.user_data_size, 64);
    assert_eq!(format.flags, u32::MAX);
    assert!(!format.var_int_bit_counts);
}

#[test]
fn remaining_bits_are_copied_through() {
    let data = [0b1010_0101u8, 0b0000_0011];
    let mut reader = SliceReader::new(&data);
    assert_eq!(reader.read_bits(3), 0b101);
    let mut writer = BitstreamWriter::new();
    copy_remaining_bits(&mut reader, &mut writer).unwrap();
    assert_eq!(reader.bit_position(), 16);
    assert_eq!(writer.bit_len(), 13);
    // The thirteen bits left: 0,0,1,0,1 from the first byte, then 1,1,0,...
    assert_eq!(writer.into_inner(), vec![0b0111_0100, 0b0000_0000]);
}
