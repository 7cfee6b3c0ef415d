use source2_demo::codec::{FieldPathCodec, FieldPathTree};
use source2_demo::field_path::FieldPath;
use source2_demo::field_type::FieldType;
use source2_demo::observer::{Matcher, PatternKind};
use source2_demo::packet::{decode_packet_messages, encode_packet_messages, MessageRewrite, PacketMessage};
use source2_demo::type_utils::{
    is_combat_log_type, is_demo_command_type, is_entity_events_ref_type, is_entity_events_type,
    is_entity_type, is_game_event_type, is_payload_type, is_string_table_type,
    canonical_message_type, is_context_type, is_field_paths_type, is_message_type, is_message_type_ref,
    is_modified_indices_type, is_packet_messages_type, is_raw_field_value_type, is_rewrite_field_value_type,
    is_string_table_entry_type,
};
use source2_demo::{BitstreamWriter, SliceReader};

#[test]
fn packet_messages_round_trip() {
    let messages = vec![
        PacketMessage::new(4, vec![1, 2, 3]),
        PacketMessage::new(-1, Vec::new()),
        PacketMessage::new(4096, vec![0xAA; 300]),
    ];
    let data = encode_packet_messages(&messages);
    let decoded = decode_packet_messages(&data).unwrap();
    assert_eq!(decoded.len(), 3);
    for (got, want) in decoded.iter().zip(messages.iter()) {
        assert_eq!(got.msg_type, want.msg_type);
        assert_eq!(got.payload, want.payload);
    }
}

#[test]
fn packet_message_bytes_are_exact() {
    // Type 4 as a ubit var is six bits 0b000100; the length 2 as a varint
    // is the byte 2; then the payload.
    let data = encode_packet_messages(&[PacketMessage::new(4, vec![0x11, 0x22])]);
    let mut writer = BitstreamWriter::new();
    writer.write_bits(6, 4).unwrap();
    writer.write_bits(8, 2).unwrap();
    writer.write_bits(8, 0x11).unwrap();
    writer.write_bits(8, 0x22).unwrap();
    assert_eq!(data, writer.into_inner());
}

#[test]
fn truncated_packet_is_refused() {
    let data = encode_packet_messages(&[PacketMessage::new(7, vec![5; 10])]);
    assert!(decode_packet_messages(&data[..data.len() - 3]).is_err());
    assert!(decode_packet_messages(&[]).unwrap().is_empty());
}

#[test]
fn message_rewrites_settle_and_apply() {
    assert!(MessageRewrite::Rewrite.needs_encoding());
    assert!(!MessageRewrite::Keep.needs_encoding());
    match MessageRewrite::Rewrite.settle(vec![1, 2]) {
        MessageRewrite::Replace(bytes) => assert_eq!(bytes, vec![1, 2]),
        _ => panic!("a rewrite settles into a replacement"),
    }
    assert!(matches!(MessageRewrite::Drop.settle(vec![1]), MessageRewrite::Drop));
    assert_eq!(MessageRewrite::Keep.apply(vec![3]), Some(vec![3]));
    assert_eq!(MessageRewrite::Replace(vec![4]).apply(vec![3]), Some(vec![4]));
    assert_eq!(MessageRewrite::Drop.apply(vec![3]), None);
    assert!(MessageRewrite::Drop.changes_message());
    assert!(!MessageRewrite::Rewrite.changes_message());
}

#[test]
fn field_path_operations() {
    let mut fp = FieldPath::default();
    assert_eq!(fp.last(), 0);
    assert_eq!(fp.component(0), u16::MAX);
    fp.inc_curr(1);
    assert_eq!(fp.component(0), 0);
    fp.push(5);
    assert_eq!(fp.last(), 1);
    assert_eq!(fp.component(1), 5);
    fp.inc(1, 3);
    assert_eq!(fp.component(1), 8);
    fp.sub(1, 10);
    assert_eq!(fp.component(1), u16::MAX - 1);
    fp.pop(1);
    assert_eq!(fp.last(), 0);
    assert_eq!(fp.component(0), 0);
}

#[test]
fn field_types_parse() {
    let t = FieldType::new("CNetworkUtlVectorBase< CHandle< CBaseEntity > >");
    assert_eq!(t.base, "CNetworkUtlVectorBase");
    assert!(!t.pointer);
    assert_eq!(t.count, None);
    let g = t.generic.as_ref().unwrap();
    assert_eq!(g.base, "CHandle");
    assert_eq!(g.generic.as_ref().unwrap().base, "CBaseEntity");

    let a = FieldType::new("uint32[MAX_ITEM_STOCKS]");
    assert_eq!(a.base, "uint32");
    assert_eq!(a.count, Some(8));

    let p = FieldType::new("CDOTAGameRules*");
    assert_eq!(p.base, "CDOTAGameRules");
    assert!(p.pointer);

    let c = FieldType::new("CBodyComponent");
    assert!(c.pointer);
    assert_eq!(c.base, "CBodyComponent");

    let n = FieldType::new("int16[24]");
    assert_eq!(n.count, Some(24));
    assert_eq!(n.base, "int16");
}

#[test]
fn malformed_field_types_are_refused() {
    assert!(FieldType::try_new("int16[24").is_none());
    assert!(FieldType::try_new("int16[x]").is_none());
    assert!(FieldType::try_new("a]b[").is_none());
    assert!(FieldType::try_new("CHandle<int").is_none());
    assert!(FieldType::try_new("CHandle< int16[ >").is_none());
    assert!(FieldType::try_new("float32").is_some());
}

#[test]
fn observer_parameter_types_are_recognised() {
    assert!(is_context_type("& Context"));
    assert!(is_context_type("& :: source2_demo :: Context"));
    assert!(!is_context_type("Context"));
    assert!(is_modified_indices_type("& [i32]"));
    assert!(is_field_paths_type("& [source2_demo :: entity :: field :: FieldPath]"));
    assert!(is_message_type("SvcMessages"));
    assert!(!is_message_type("& SvcMessages"));
    assert!(is_message_type_ref("& source2_demo :: proto :: ECsgoGameEvents"));
    assert!(is_packet_messages_type("& mut Vec < PacketMessage >"));
    assert!(is_string_table_entry_type("& mut StringTableEntryUpdate"));
    assert!(is_raw_field_value_type("& FieldValue"));
    assert!(is_rewrite_field_value_type("[f32 ; 3]"));
    assert!(is_rewrite_field_value_type("FieldValue"));
    assert!(!is_rewrite_field_value_type("f64"));
    assert_eq!(
        canonical_message_type(":: source2_demo :: proto :: NetMessages").as_deref(),
        Some("NetMessages")
    );
    assert_eq!(canonical_message_type("Nothing"), None);
}

#[test]
fn name_patterns_match() {
    let any = Matcher::new(None);
    assert!(any.matches("CDOTA_Unit_Hero_Axe"));
    let exact = Matcher::new(Some(("CDOTAPlayer", PatternKind::Exact)));
    assert!(exact.matches("CDOTAPlayer"));
    assert!(!exact.matches("CDOTAPlayerController"));
    let everything = Matcher::new(Some((".*", PatternKind::Regex)));
    assert!(matches!(everything, Matcher::Any));
    let heroes = Matcher::new(Some(("^CDOTA_Unit_Hero_", PatternKind::Regex)));
    assert!(heroes.matches("CDOTA_Unit_Hero_Axe"));
    assert!(!heroes.matches("CDOTA_BaseNPC"));
    assert!(Matcher::try_new(Some(("(", PatternKind::Regex))).is_none());
}

#[test]
fn huffman_codes_read_back() {
    // Weights 5, 1, 1, 2: the queue merges operations 2 and 1 into node 4,
    // node 4 and operation 3 into node 5, node 5 and operation 0 into the
    // root, node 6. Codes, first bit first: 0 is `1`, 3 is `01`, 1 is
    // `001`, 2 is `000`.
    let tree = FieldPathTree::from_weights(&[5, 1, 1, 2]);
    assert_eq!(tree.weight(), 9);
    assert_eq!(tree.value(), 6);
    assert_eq!(tree.right().value(), 0);
    assert_eq!(tree.left().value(), 5);
    assert_eq!(tree.left().right().value(), 3);
    assert_eq!(tree.left().left().left().value(), 2);

    let table = tree.decode_table();
    assert_eq!(table.len(), 256);
    let first = table[0b0000_0001].unwrap();
    assert_eq!((first.value, first.bit_len), (0, 1));
    let second = table[0b0000_0010].unwrap();
    assert_eq!((second.value, second.bit_len), (3, 2));
    let third = table[0b0000_0100].unwrap();
    assert_eq!((third.value, third.bit_len), (1, 3));
    let fourth = table[0b0000_0000].unwrap();
    assert_eq!((fourth.value, fourth.bit_len), (2, 3));

    let codec = FieldPathCodec::from_weights(&[5, 1, 1, 2]);
    let ops = [0u32, 3, 1, 2, 0, 0, 3, 2];
    let mut writer = BitstreamWriter::new();
    for op in ops {
        let code: &[bool] = match op {
            0 => &[true],
            3 => &[false, true],
            1 => &[false, false, true],
            _ => &[false, false, false],
        };
        for bit in code {
            writer.write_bit(*bit).unwrap();
        }
    }
    let data = writer.into_inner();
    assert_eq!(data.len(), 2);
    let mut reader = SliceReader::new(&data);
    for op in ops {
        assert_eq!(codec.read_op(&mut reader), op);
    }
    assert_eq!(reader.bit_position(), 16);
}

#[test]
fn reader_reads_signed_and_wide_varints() {
    let mut writer = BitstreamWriter::new();
    writer.write_var_i32(-300).unwrap();
    writer.write_var_u64(u64::MAX).unwrap();
    writer.write_bits(8, 0x5A).unwrap();
    let data = writer.into_inner();
    let mut reader = SliceReader::new(&data);
    assert_eq!(reader.read_var_i32(), -300);
    assert_eq!(reader.read_var_u64(), u64::MAX);
    let at = reader.bit_position() / 8;
    assert_eq!(reader.read_bits(8), 0x5A);
    reader.seek(at);
    assert_eq!(reader.read_bits(8), 0x5A);
    assert_eq!(reader.source_buffer(), data.as_slice());
    assert_eq!(reader.remaining_bytes(), 0);
}

#[test]
fn more_parameter_types_are_recognised() {
    assert!(is_entity_type("& source2_demo :: Entity"));
    assert!(is_entity_events_type("EntityEvents"));
    assert!(!is_entity_events_type("& EntityEvents"));
    assert!(is_entity_events_ref_type("& EntityEvents"));
    assert!(is_game_event_type("& GameEvent"));
    assert!(is_string_table_type("& :: source2_demo :: StringTable"));
    assert!(is_combat_log_type("& CombatLogEntry"));
    assert!(is_demo_command_type("source2_demo :: proto :: EDemoCommands"));
    assert!(is_payload_type("& [u8]"));
    assert!(!is_payload_type("& [u8 ]"));
}

#[test]
fn invalid_utf8_keys_read_with_replacement_characters() {
    let mut writer = BitstreamWriter::new();
    writer.write_bytes(&[b'a', 0xFF, b'b', 0]).unwrap();
    let data = writer.into_inner();
    let mut reader = SliceReader::new(&data);
    assert_eq!(reader.read_cstring(), "a\u{FFFD}b");
}

#[test]
fn field_type_names_are_trimmed_of_unicode_whitespace() {
    let t = FieldType::new("CHandle<\u{3000}CBaseEntity\u{a0}>");
    assert_eq!(t.base, "CHandle");
    assert_eq!(t.generic.as_ref().unwrap().base, "CBaseEntity");
    let n = FieldType::new("int16[-7]");
    assert_eq!(n.count, Some(-7));
}
