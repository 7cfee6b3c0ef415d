use bitter::{BitReader, LittleEndianReader};
use source2_demo::message::{
    read_file_info_message, read_file_info_offset, write_demo_message, write_demo_message_with_compression,
    EDemoCommands,
};
use source2_demo::varint::{write_var_u32_to_vec, write_var_u64_to_vec};
use source2_demo::{BitstreamWriter, ParserError, SliceReader};

fn read_var_u64_from_bytes(bytes: &[u8]) -> u64 {
    let mut reader = LittleEndianReader::new(bytes);
    let mut value = 0_u64;
    let mut shift = 0;
    loop {
        let byte = reader.read_u8().expect("varint byte");
        value |= u64::from(byte & 0x7f) << shift;
        if byte & 0x80 == 0 {
            return value;
        }
        shift += 7;
    }
}

fn read_var_u32_from_bytes(bytes: &[u8]) -> u32 {
    read_var_u64_from_bytes(bytes) as u32
}

fn decode_zigzag_i32(value: u32) -> i32 {
    ((value >> 1) as i32) ^ (-((value & 1) as i32))
}

#[test]
fn ubit_var_round_trips_bucket_boundaries() {
    for value in [0, 1, 15, 16, 255, 256, 4095, 4096, u32::MAX] {
        let mut writer = BitstreamWriter::new();
        writer.write_ubit_var(value).expect("write ubit_var");
        writer.flush().expect("flush");
        let out = writer.into_inner();

        let mut reader = SliceReader::new(&out);
        assert_eq!(reader.read_ubit_var(), value);
    }
}

#[test]
fn var_u32_round_trips_boundaries() {
    for value in [0, 1, 127, 128, 16_384, u32::MAX] {
        let mut writer = BitstreamWriter::new();
        writer.write_var_u32(value).expect("write var_u32");
        writer.flush().expect("flush");
        let out = writer.into_inner();

        let mut reader = SliceReader::new(&out);
        assert_eq!(reader.read_var_u32(), value);
    }
}

#[test]
fn var_i32_round_trips_zigzag_edges() {
    for value in [0, 1, -1, 2, -2, i32::MAX, i32::MIN] {
        let mut writer = BitstreamWriter::new();
        writer.write_var_i32(value).expect("write var_i32");
        writer.flush().expect("flush");
        let out = writer.into_inner();

        assert_eq!(decode_zigzag_i32(read_var_u32_from_bytes(&out)), value);
    }
}

#[test]
fn byte_var_u64_round_trips_boundaries() {
    for value in [0, 1, 127, 128, 16_384, u32::MAX as u64, u64::MAX] {
        let bytes = write_var_u64_to_vec(value);
        assert_eq!(read_var_u64_from_bytes(&bytes), value);
    }
}

#[test]
fn demo_message_writer_emits_header_and_payload() {
    let payload = [0xAA, 0xBB, 0xCC];
    let mut out = Vec::new();

    let written = write_demo_message(&mut out, EDemoCommands::DemPacket, 123, &payload)
        .expect("write demo message");

    assert_eq!(written, out.len());

    let mut reader = SliceReader::new(&out);
    assert_eq!(reader.read_var_u32(), EDemoCommands::DemPacket as u32);
    assert_eq!(reader.read_var_u32(), 123);
    assert_eq!(reader.read_var_u32(), payload.len() as u32);
    assert_eq!(reader.read_bytes(payload.len() as u32), payload);
}

#[test]
fn compressed_demo_message_flags_type_and_compresses_payload() {
    let payload = b"aaaaaaaaaaaaaaaaaaaaaaaaaaaaaaaaaaaaaaaaaaaaaaaa";
    let mut out = Vec::new();

    let written =
        write_demo_message_with_compression(&mut out, EDemoCommands::DemPacket, 123, payload, true)
            .expect("write compressed demo message");
    assert_eq!(written, out.len());

    let mut reader = SliceReader::new(&out);
    assert_eq!(reader.read_var_u32(), EDemoCommands::DemPacket as u32 + 64);
    assert_eq!(reader.read_var_u32(), 123);
    let len = reader.read_var_u32();
    let body = reader.read_bytes(len);
    assert!(body.len() < payload.len());
    let decoded = snap::raw::Decoder::new().decompress_vec(&body).expect("snappy");
    assert_eq!(decoded.as_slice(), payload.as_slice());
}

#[test]
fn command_ids_match_demo_file_numbers() {
    assert_eq!(EDemoCommands::DemStop.id(), 0);
    assert_eq!(EDemoCommands::DemPacket.id(), 7);
    assert_eq!(EDemoCommands::DemFullPacket.id(), 13);
    assert_eq!(EDemoCommands::DemMax.id(), 19);
    assert_eq!(EDemoCommands::DemFullPacket as u32, 13);
}

#[test]
fn var_u32_bytes_match_known_encoding() {
    assert_eq!(write_var_u32_to_vec(0), vec![0]);
    assert_eq!(write_var_u32_to_vec(127), vec![0x7f]);
    assert_eq!(write_var_u32_to_vec(128), vec![0x80, 0x01]);
    assert_eq!(write_var_u32_to_vec(300), vec![0xac, 0x02]);
    assert_eq!(write_var_u32_to_vec(u32::MAX), vec![0xff, 0xff, 0xff, 0xff, 0x0f]);
}

#[test]
fn ubit_var_uses_shortest_bucket() {
    for (value, bits) in [(15u32, 6usize), (16, 10), (255, 10), (256, 14), (4095, 14), (4096, 34)] {
        let mut writer = BitstreamWriter::new();
        writer.write_ubit_var(value).unwrap();
        assert_eq!(writer.bit_len(), bits);
    }
}

#[test]
fn bits_are_packed_lowest_first() {
    let mut writer = BitstreamWriter::new();
    writer.write_bit(true).unwrap();
    writer.write_bit(false).unwrap();
    writer.write_bits(3, 0b101).unwrap();
    assert!(writer.write_bits(65, 0).is_err());
    let out = writer.into_inner();
    assert_eq!(out, vec![0b1_0101]);
}

#[test]
fn reader_reads_zeros_past_the_end_and_flags_it() {
    let data = [0xff];
    let mut reader = SliceReader::new(&data);
    assert_eq!(reader.read_bits(4), 0xf);
    assert!(!reader.overrun());
    assert_eq!(reader.read_bits(8), 0xf);
    assert!(reader.overrun());
    assert_eq!(reader.bit_position(), 8);
}

#[test]
fn cstring_and_bits_as_bytes_round_trip() {
    let mut writer = BitstreamWriter::new();
    writer.write_cstring("hello").unwrap();
    writer.write_bits_as_bytes(&[0xab, 0x05], 11).unwrap();
    assert!(writer.write_bits_as_bytes(&[0xab], 9).is_err());
    let out = writer.into_inner();
    let mut reader = SliceReader::new(&out);
    assert_eq!(reader.read_cstring(), "hello");
    assert_eq!(reader.read_bits_as_bytes(11), vec![0xab, 0x05]);
}

#[test]
fn compressed_demo_message_round_trips_through_reader() {
    let payload = b"aaaaaaaaaaaaaaaaaaaaaaaaaaaaaaaaaaaaaaaaaaaaaaaa";
    let mut out = Vec::new();

    let written = write_demo_message_with_compression(
        &mut out,
        EDemoCommands::DemPacket,
        123,
        payload,
        true,
    )
    .expect("write compressed demo message");

    assert_eq!(written, out.len());

    let mut reader = SliceReader::new(&out);
    let message = reader
        .read_next_message()
        .expect("read message")
        .expect("message");
    assert_eq!(message.msg_type, EDemoCommands::DemPacket);
    assert_eq!(message.tick, 123);
    assert_eq!(message.buf, payload);
    assert!(message.compressed);
}

#[test]
fn demo_messages_read_back_in_order() {
    let mut out = Vec::new();
    write_demo_message(&mut out, EDemoCommands::DemSyncTick, 0, &[]).unwrap();
    write_demo_message(&mut out, EDemoCommands::DemStop, 77, &[1, 2, 3]).unwrap();
    let mut reader = SliceReader::new(&out);
    let first = reader.read_next_message().unwrap().unwrap();
    assert_eq!(first.msg_type, EDemoCommands::DemSyncTick);
    assert!(first.buf.is_empty());
    assert!(!first.compressed);
    let second = reader.read_next_message().unwrap().unwrap();
    assert_eq!(second.msg_type, EDemoCommands::DemStop);
    assert_eq!(second.tick, 77);
    assert_eq!(second.buf, vec![1, 2, 3]);
    assert!(reader.read_next_message().unwrap().is_none());

    let unknown = [50u8, 0, 0];
    assert!(SliceReader::new(&unknown).read_next_message().is_err());
    let short = [7u8, 0, 5, 1];
    assert!(SliceReader::new(&short).read_next_message().is_err());
}

#[test]
fn file_info_is_found_through_the_header() {
    let mut replay = b"PBDEMS2\0".to_vec();
    replay.extend_from_slice(&[0, 0, 0, 0, 0, 0, 0, 0]);
    write_demo_message(&mut replay, EDemoCommands::DemSyncTick, 0, &[]).unwrap();
    let offset = replay.len() as u32;
    write_demo_message(&mut replay, EDemoCommands::DemFileInfo, 9, &[4, 5]).unwrap();
    replay[8..12].copy_from_slice(&offset.to_le_bytes());

    assert_eq!(read_file_info_offset(&replay).unwrap(), offset);
    let info = read_file_info_message(&replay).unwrap();
    assert_eq!(info.msg_type, EDemoCommands::DemFileInfo);
    assert_eq!(info.tick, 9);
    assert_eq!(info.buf, vec![4, 5]);

    let mut wrong = replay.clone();
    wrong[0] = b'X';
    assert!(matches!(read_file_info_offset(&wrong), Err(ParserError::WrongMagic)));
    assert!(matches!(read_file_info_message(&replay[..12]), Err(ParserError::WrongMagic)));

    let mut far = replay.clone();
    far[8..12].copy_from_slice(&1000u32.to_le_bytes());
    assert!(matches!(read_file_info_message(&far), Err(ParserError::ReplayEncodingError)));
    let mut at_end = replay.clone();
    let end = at_end.len() as u32;
    at_end[8..12].copy_from_slice(&end.to_le_bytes());
    assert!(matches!(read_file_info_message(&at_end), Err(ParserError::ReplayEncodingError)));
}
