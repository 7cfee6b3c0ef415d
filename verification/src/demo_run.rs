//! The decisions a demo rewrite takes for each outer demo message.
use vstd::prelude::*;
use crate::error::ParserError;
use crate::message::{DemoMessage, DemoMessageView, EDemoCommands};
use crate::packet::{MessageRewrite, MessageRewriteView};

verus! {

/// What a demo rewrite remembers between outer messages.
pub struct WriterState {
    /// Bytes written so far, the header included.
    pub bytes_written: u64,
    /// Where the first file info message was written, once it was.
    pub file_info_offset: Option<u64>,
    /// The tick of the last full packet, `u32::MAX` before the first.
    pub last_full_packet_tick: u32,
    /// Whether the parser skips delta packets.
    pub skip_deltas: bool,
}

/// What to do with one outer demo message, once the demo rewriter has
/// answered for it.
pub enum WriterAction {
    /// Leave the message out.
    Skip,
    /// Write the message with this payload.
    Write(Vec<u8>),
    /// Hand this payload to the parser, then write it.
    ProcessAndWrite(Vec<u8>),
    /// Decode this payload as a packet, rewrite its data, processing the
    /// parser's state, and write it.
    RewritePacket(Vec<u8>),
    /// Decode this payload as a full packet, rewrite its string tables and
    /// data, processing the parser's state when the flag is set, and write
    /// it.
    RewriteFullPacket(Vec<u8>, bool),
    /// Decode this payload as string tables, rewrite them, hand them to the
    /// parser and write them.
    RewriteStringTables(Vec<u8>),
}

/// The contents of a writer action.
pub enum WriterActionView {
    Skip,
    Write(Seq<u8>),
    ProcessAndWrite(Seq<u8>),
    RewritePacket(Seq<u8>),
    RewriteFullPacket(Seq<u8>, bool),
    RewriteStringTables(Seq<u8>),
}

impl View for WriterAction {
    type V = WriterActionView;

    open spec fn view(&self) -> WriterActionView {
        match self {
            WriterAction::Skip => WriterActionView::Skip,
            WriterAction::Write(p) => WriterActionView::Write(p@),
            WriterAction::ProcessAndWrite(p) => WriterActionView::ProcessAndWrite(p@),
            WriterAction::RewritePacket(p) => WriterActionView::RewritePacket(p@),
            WriterAction::RewriteFullPacket(p, s) => WriterActionView::RewriteFullPacket(p@, *s),
            WriterAction::RewriteStringTables(p) => WriterActionView::RewriteStringTables(p@),
        }
    }
}

/// The payload a message keeps after the demo rewriter's answer: `None`
/// when it is dropped, the replacement when it is replaced, its own
/// otherwise.
pub open spec fn kept_payload(payload: Seq<u8>, outcome: MessageRewriteView) -> Option<Seq<u8>> {
    match outcome {
        MessageRewriteView::Drop => None,
        MessageRewriteView::Replace(b) => Some(b),
        _ => Some(payload),
    }
}

/// What a demo rewrite does with message `msg` after the demo rewriter
/// answered `outcome`: packets and string tables are rewritten, full
/// packets processed when no full packet was seen yet or deltas are
/// skipped, send tables, class info and stop messages handed to the
/// parser, the rest written as they are. A full packet records its tick.
pub open spec fn demo_step_spec(state: WriterState, msg: DemoMessageView, outcome: MessageRewriteView) -> (
    WriterState,
    WriterActionView,
) {
    match kept_payload(msg.buf, outcome) {
        None => (state, WriterActionView::Skip),
        Some(p) => match msg.msg_type {
            EDemoCommands::DemPacket | EDemoCommands::DemSignonPacket => (state, WriterActionView::RewritePacket(p)),
            EDemoCommands::DemFullPacket => (
                WriterState { last_full_packet_tick: msg.tick, ..state },
                WriterActionView::RewriteFullPacket(p, state.last_full_packet_tick == u32::MAX || state.skip_deltas),
            ),
            EDemoCommands::DemSendTables | EDemoCommands::DemClassInfo | EDemoCommands::DemStop => (
                state,
                WriterActionView::ProcessAndWrite(p),
            ),
            EDemoCommands::DemStringTables => (state, WriterActionView::RewriteStringTables(p)),
            _ => (state, WriterActionView::Write(p)),
        },
    }
}



/// What a demo rewrite does with each command, for a message the demo
/// rewriter keeps with payload `p` (its own, or the replacement): packets
/// and signon packets are rewritten, full packets rewritten and processed
/// until one was seen or when deltas are skipped, string tables rewritten,
/// send tables, class info and stop messages handed to the parser, and
/// every other message written as it is. A dropped message is skipped. Only
/// a full packet changes the state, recording its tick.
pub proof fn demo_step_per_command(state: WriterState, msg: DemoMessageView, outcome: MessageRewriteView)
    ensures
        outcome is Drop ==> demo_step_spec(state, msg, outcome) == (state, WriterActionView::Skip),
        ({
            let p = match outcome {
                MessageRewriteView::Replace(b) => b,
                _ => msg.buf,
            };
            let (next, action) = demo_step_spec(state, msg, outcome);
            !(outcome is Drop) ==> {
                &&& (msg.msg_type == EDemoCommands::DemPacket || msg.msg_type == EDemoCommands::DemSignonPacket)
                    ==> action == WriterActionView::RewritePacket(p) && next == state
                &&& msg.msg_type == EDemoCommands::DemFullPacket ==> action == WriterActionView::RewriteFullPacket(
                    p,
                    state.last_full_packet_tick == u32::MAX || state.skip_deltas,
                ) && next.last_full_packet_tick == msg.tick && next.bytes_written == state.bytes_written
                    && next.file_info_offset == state.file_info_offset && next.skip_deltas == state.skip_deltas
                &&& msg.msg_type == EDemoCommands::DemStringTables ==> action
                    == WriterActionView::RewriteStringTables(p) && next == state
                &&& (msg.msg_type == EDemoCommands::DemSendTables || msg.msg_type == EDemoCommands::DemClassInfo
                    || msg.msg_type == EDemoCommands::DemStop) ==> action == WriterActionView::ProcessAndWrite(p)
                    && next == state
                &&& !(msg.msg_type == EDemoCommands::DemPacket || msg.msg_type == EDemoCommands::DemSignonPacket
                    || msg.msg_type == EDemoCommands::DemFullPacket || msg.msg_type == EDemoCommands::DemStringTables
                    || msg.msg_type == EDemoCommands::DemSendTables || msg.msg_type == EDemoCommands::DemClassInfo
                    || msg.msg_type == EDemoCommands::DemStop) ==> action == WriterActionView::Write(p) && next
                    == state
            }
        }),
{
}

/// Decides what a demo rewrite does with one outer message, given the
/// demo rewriter's answer for it; the caller then does it.
pub fn demo_step(state: WriterState, msg: DemoMessage, outcome: MessageRewrite) -> (r: (WriterState, WriterAction))
    ensures
        (r.0, r.1@) == demo_step_spec(state, msg@, outcome@),
{
    let payload = match outcome {
        MessageRewrite::Drop => return (state, WriterAction::Skip),
        MessageRewrite::Replace(bytes) => bytes,
        _ => msg.buf,
    };
    match msg.msg_type {
        EDemoCommands::DemPacket | EDemoCommands::DemSignonPacket => (state, WriterAction::RewritePacket(payload)),
        EDemoCommands::DemFullPacket => {
            let process = state.last_full_packet_tick == u32::MAX || state.skip_deltas;
            (WriterState { last_full_packet_tick: msg.tick, ..state }, WriterAction::RewriteFullPacket(payload, process))
        },
        EDemoCommands::DemSendTables | EDemoCommands::DemClassInfo | EDemoCommands::DemStop => (
            state,
            WriterAction::ProcessAndWrite(payload),
        ),
        EDemoCommands::DemStringTables => (state, WriterAction::RewriteStringTables(payload)),
        _ => (state, WriterAction::Write(payload)),
    }
}

/// The state after a message of command `msg_type` was written in
/// `written` bytes: the first file info message records where it starts.
/// `None` when the count of bytes written would overflow.
pub fn record_write(state: WriterState, msg_type: EDemoCommands, written: u64) -> (r: Option<WriterState>)
    ensures
        match r {
            None => state.bytes_written + written > u64::MAX,
            Some(s) => state.bytes_written + written <= u64::MAX && s == (WriterState {
                bytes_written: (state.bytes_written + written) as u64,
                file_info_offset: if msg_type == EDemoCommands::DemFileInfo && state.file_info_offset is None {
                    Some(state.bytes_written)
                } else {
                    state.file_info_offset
                },
                ..state
            }),
        },
{
    let offset = match (msg_type, state.file_info_offset) {
        (EDemoCommands::DemFileInfo, None) => Some(state.bytes_written),
        (_, o) => o,
    };
    match state.bytes_written.checked_add(written) {
        None => None,
        Some(total) => Some(WriterState { bytes_written: total, file_info_offset: offset, ..state }),
    }
}

/// The file info offset to store in the header once the demo is written:
/// none when no file info message was written, an error when the offset
/// does not fit in 32 bits.
pub fn file_info_offset_field(state: &WriterState) -> (r: Result<Option<u32>, ParserError>)
    ensures
        match state.file_info_offset {
            None => r matches Ok(None),
            Some(o) => if o <= u32::MAX {
                r matches Ok(Some(v)) && v == o
            } else {
                r matches Err(ParserError::ReplayEncodingError)
            },
        },
{
    match state.file_info_offset {
        None => Ok(None),
        Some(o) => if o <= 0xffff_ffffu64 {
            Ok(Some(o as u32))
        } else {
            Err(ParserError::ReplayEncodingError)
        },
    }
}

} // verus!
