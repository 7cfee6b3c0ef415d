use source2_demo::type_utils::{canonical_message_type, is_message_type};
use source2_demo::demo_run::{demo_step, file_info_offset_field, record_write, WriterAction, WriterState};
use source2_demo::entity_splice::{splice_field_values, FieldReplacement};
use source2_demo::entry::StringTableEntryUpdate;
use source2_demo::error::ParserError;
use source2_demo::message::{DemoMessage, EDemoCommands};
use source2_demo::packet::{decode_packet_messages, encode_packet_messages, MessageRewrite, PacketMessage};
use source2_demo::packet_rewrite::{
    rewrite_packet_data, PacketRewriter, PACKET_MESSAGES_INTEREST, PACKET_MESSAGE_INTEREST,
};
use source2_demo::string_table::{encode_entries, PackedStringTableFormat};

struct Quiet;

impl PacketRewriter for Quiet {
    fn interests(&self) -> u32 {
        0
    }
    fn rewrite_packet_message(&mut self, _tick: u32, _t: i32, _p: &[u8]) -> Result<MessageRewrite, ParserError> {
        Ok(MessageRewrite::Drop)
    }
    fn rewrite_packet_messages(&mut self, _tick: u32, _m: &mut Vec<PacketMessage>) -> Result<(), ParserError> {
        Ok(())
    }
}

struct DropFours {
    seen: u32,
}

impl PacketRewriter for DropFours {
    fn interests(&self) -> u32 {
        PACKET_MESSAGE_INTEREST
    }
    fn rewrite_packet_message(&mut self, _tick: u32, t: i32, _p: &[u8]) -> Result<MessageRewrite, ParserError> {
        self.seen += 1;
        if t == 4 {
            Ok(MessageRewrite::Drop)
        } else {
            Ok(MessageRewrite::Replace(vec![9, 9]))
        }
    }
    fn rewrite_packet_messages(&mut self, _tick: u32, _m: &mut Vec<PacketMessage>) -> Result<(), ParserError> {
        Ok(())
    }
}

struct Appender;

impl PacketRewriter for Appender {
    fn interests(&self) -> u32 {
        PACKET_MESSAGES_INTEREST
    }
    fn rewrite_packet_message(&mut self, _tick: u32, _t: i32, _p: &[u8]) -> Result<MessageRewrite, ParserError> {
        Ok(MessageRewrite::Keep)
    }
    fn rewrite_packet_messages(&mut self, _tick: u32, m: &mut Vec<PacketMessage>) -> Result<(), ParserError> {
        m.push(PacketMessage::new(7, vec![1]));
        Ok(())
    }
}

struct Failing;

impl PacketRewriter for Failing {
    fn interests(&self) -> u32 {
        PACKET_MESSAGE_INTEREST
    }
    fn rewrite_packet_message(&mut self, _tick: u32, _t: i32, _p: &[u8]) -> Result<MessageRewrite, ParserError> {
        Err(ParserError::WrongMagic)
    }
    fn rewrite_packet_messages(&mut self, _tick: u32, _m: &mut Vec<PacketMessage>) -> Result<(), ParserError> {
        Ok(())
    }
}

fn sample_packet() -> Vec<u8> {
    encode_packet_messages(&[PacketMessage::new(4, vec![1, 2, 3]), PacketMessage::new(5, vec![4])])
}

#[test]
fn uninterested_rewriters_keep_the_packet_bytes() {
    let data = sample_packet();
    let mut rewriters = vec![Quiet, Quiet];
    let out = rewrite_packet_data(&data, 10, &mut rewriters).unwrap();
    assert_eq!(out, data);
}

#[test]
fn packet_messages_are_dropped_and_replaced() {
    let data = sample_packet();
    let mut rewriters = vec![DropFours { seen: 0 }, DropFours { seen: 0 }];
    let out = rewrite_packet_data(&data, 10, &mut rewriters).unwrap();
    let messages = decode_packet_messages(&out).unwrap();
    assert_eq!(messages.len(), 1);
    assert_eq!(messages[0].msg_type, 5);
    assert_eq!(messages[0].payload, vec![9, 9]);
    // The dropped message reaches only the first rewriter.
    assert_eq!(rewriters[0].seen, 2);
    assert_eq!(rewriters[1].seen, 1);
}

#[test]
fn message_list_rewriters_see_the_whole_packet() {
    let data = sample_packet();
    let mut rewriters = vec![Appender];
    let out = rewrite_packet_data(&data, 0, &mut rewriters).unwrap();
    let messages = decode_packet_messages(&out).unwrap();
    assert_eq!(messages.len(), 3);
    assert_eq!(messages[2].msg_type, 7);
}

#[test]
fn packet_rewriter_error_is_returned() {
    let data = sample_packet();
    let mut rewriters = vec![Failing];
    assert!(matches!(rewrite_packet_data(&data, 0, &mut rewriters), Err(ParserError::WrongMagic)));
}

fn fresh_state() -> WriterState {
    WriterState { bytes_written: 16, file_info_offset: None, last_full_packet_tick: u32::MAX, skip_deltas: false }
}

#[test]
fn demo_step_decides_per_command() {
    let msg = DemoMessage { msg_type: EDemoCommands::DemPacket, tick: 3, buf: vec![1], compressed: false };
    let (_, action) = demo_step(fresh_state(), msg, MessageRewrite::Keep);
    assert!(matches!(action, WriterAction::RewritePacket(ref p) if *p == vec![1]));

    let msg = DemoMessage { msg_type: EDemoCommands::DemConsoleCmd, tick: 3, buf: vec![1], compressed: false };
    let (_, action) = demo_step(fresh_state(), msg, MessageRewrite::Replace(vec![2]));
    assert!(matches!(action, WriterAction::Write(ref p) if *p == vec![2]));

    let msg = DemoMessage { msg_type: EDemoCommands::DemStop, tick: 3, buf: vec![], compressed: false };
    let (_, action) = demo_step(fresh_state(), msg, MessageRewrite::Drop);
    assert!(matches!(action, WriterAction::Skip));
}

#[test]
fn full_packets_are_processed_until_one_was_seen() {
    let msg = DemoMessage { msg_type: EDemoCommands::DemFullPacket, tick: 30, buf: vec![], compressed: false };
    let (state, action) = demo_step(fresh_state(), msg, MessageRewrite::Keep);
    assert!(matches!(action, WriterAction::RewriteFullPacket(_, true)));
    assert_eq!(state.last_full_packet_tick, 30);
    let msg = DemoMessage { msg_type: EDemoCommands::DemFullPacket, tick: 60, buf: vec![], compressed: false };
    let (_, action) = demo_step(state, msg, MessageRewrite::Keep);
    assert!(matches!(action, WriterAction::RewriteFullPacket(_, false)));
}

#[test]
fn the_first_file_info_offset_is_recorded() {
    let state = record_write(fresh_state(), EDemoCommands::DemPacket, 10).unwrap();
    assert_eq!(state.bytes_written, 26);
    let state = record_write(state, EDemoCommands::DemFileInfo, 5).unwrap();
    let state = record_write(state, EDemoCommands::DemFileInfo, 5).unwrap();
    assert_eq!(state.file_info_offset, Some(26));
    assert_eq!(file_info_offset_field(&state).unwrap(), Some(26));
    let far = WriterState { file_info_offset: Some(1u64 << 33), ..state };
    assert!(matches!(file_info_offset_field(&far), Err(ParserError::ReplayEncodingError)));
    assert!(record_write(far, EDemoCommands::DemStop, u64::MAX).is_none());
}

#[test]
fn field_values_are_spliced_in_place() {
    // Bits of 0b1111_0000: 0,0,0,0,1,1,1,1 (lowest first). Replace bits 2..6
    // (0,0,1,1) with the two bits 1,0.
    let data = vec![0b1111_0000u8];
    let reps = vec![FieldReplacement { value_start: 2, value_end: 6, encoded: vec![0b01], encoded_bits: 2 }];
    let out = splice_field_values(&data, &reps);
    // 0,0 then 1,0 then 1,1 -> 0b0011_0100
    assert_eq!(out, vec![0b0011_0100u8]);
    assert_eq!(splice_field_values(&data, &[]), data);
}

#[test]
fn fixed_size_values_of_the_wrong_length_are_refused() {
    let format =
        PackedStringTableFormat { user_data_fixed_size: true, user_data_size: 12, flags: 0, var_int_bit_counts: false };
    let entries = vec![StringTableEntryUpdate::new(0, Some("a".to_owned()), Some(vec![1, 2, 3]))];
    match encode_entries(&entries, format) {
        Err(ParserError::IoError(m)) => {
            assert_eq!(m, "fixed-size string table entry expected 2 bytes, got 3")
        },
        _ => panic!("expected an IoError"),
    }
}

#[test]
fn edits_keep_the_entry_index() {
    let mut e = StringTableEntryUpdate::new(17, Some("k".to_owned()), Some(vec![1]));
    e.set_key("other".to_owned());
    e.clear_key();
    if let Some(v) = e.value_mut() {
        v.push(2);
    }
    e.set_value(vec![3]);
    e.clear_value();
    assert_eq!(e.index(), 17);
    assert_eq!(e.value(), None);
}

#[test]
fn canonical_message_names_are_their_own() {
    let c = canonical_message_type(":: source2_demo :: proto :: SvcMessages").unwrap();
    assert_eq!(c, "SvcMessages");
    assert!(is_message_type(&c));
    assert_eq!(canonical_message_type(&c), Some(c.clone()));
    assert_eq!(canonical_message_type("Nope"), None);
    assert!(!is_message_type("Nope"));
}
