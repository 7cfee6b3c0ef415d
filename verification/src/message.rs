//! Outer demo message framing.
use vstd::prelude::*;
use crate::bits::{bytes_as_bits, bytes_bits, lemma_bytes_bits_as_bits, BitCursor};
use crate::compression::{snappy_accepts_len, snappy_compress, snappy_compressed, snappy_decompress, snappy_decompressed};
use crate::error::ParserError;
use crate::reader::{lemma_var_from_advances, spec_bytes, spec_var_u32, SliceReader};
use crate::roundtrip::{bytes_round_trip, holds_at, lemma_holds_split, var_u32_round_trip};
use crate::varint::{leb128_bytes, lemma_bytes_as_bits_concat, lemma_bytes_as_bits_len, lemma_leb128_len, write_var_u32_to_buf};

verus! {

/// Outer demo commands, numbered as in demo files (`DemStop` is 0).
#[derive(Clone, Copy, Debug, PartialEq, Eq)]
pub enum EDemoCommands {
    DemStop,
    DemFileHeader,
    DemFileInfo,
    DemSyncTick,
    DemSendTables,
    DemClassInfo,
    DemStringTables,
    DemPacket,
    DemSignonPacket,
    DemConsoleCmd,
    DemCustomData,
    DemCustomDataCallbacks,
    DemUserCmd,
    DemFullPacket,
    DemSaveGame,
    DemSpawnGroups,
    DemAnimationData,
    DemAnimationHeader,
    DemRecovery,
    DemMax,
}

/// The flag added to a command id whose payload is Snappy-compressed.
pub const DEM_IS_COMPRESSED: u32 = 64;

impl EDemoCommands {
    /// The command's number in a demo file.
    pub open spec fn spec_id(self) -> u32 {
        match self {
            EDemoCommands::DemStop => 0,
            EDemoCommands::DemFileHeader => 1,
            EDemoCommands::DemFileInfo => 2,
            EDemoCommands::DemSyncTick => 3,
            EDemoCommands::DemSendTables => 4,
            EDemoCommands::DemClassInfo => 5,
            EDemoCommands::DemStringTables => 6,
            EDemoCommands::DemPacket => 7,
            EDemoCommands::DemSignonPacket => 8,
            EDemoCommands::DemConsoleCmd => 9,
            EDemoCommands::DemCustomData => 10,
            EDemoCommands::DemCustomDataCallbacks => 11,
            EDemoCommands::DemUserCmd => 12,
            EDemoCommands::DemFullPacket => 13,
            EDemoCommands::DemSaveGame => 14,
            EDemoCommands::DemSpawnGroups => 15,
            EDemoCommands::DemAnimationData => 16,
            EDemoCommands::DemAnimationHeader => 17,
            EDemoCommands::DemRecovery => 18,
            EDemoCommands::DemMax => 19,
        }
    }

    /// The command's number in a demo file.
    pub fn id(&self) -> (n: u32)
        ensures
            n == self.spec_id(),
    {
        match self {
            EDemoCommands::DemStop => 0,
            EDemoCommands::DemFileHeader => 1,
            EDemoCommands::DemFileInfo => 2,
            EDemoCommands::DemSyncTick => 3,
            EDemoCommands::DemSendTables => 4,
            EDemoCommands::DemClassInfo => 5,
            EDemoCommands::DemStringTables => 6,
            EDemoCommands::DemPacket => 7,
            EDemoCommands::DemSignonPacket => 8,
            EDemoCommands::DemConsoleCmd => 9,
            EDemoCommands::DemCustomData => 10,
            EDemoCommands::DemCustomDataCallbacks => 11,
            EDemoCommands::DemUserCmd => 12,
            EDemoCommands::DemFullPacket => 13,
            EDemoCommands::DemSaveGame => 14,
            EDemoCommands::DemSpawnGroups => 15,
            EDemoCommands::DemAnimationData => 16,
            EDemoCommands::DemAnimationHeader => 17,
            EDemoCommands::DemRecovery => 18,
            EDemoCommands::DemMax => 19,
        }
    }
}

/// The bytes of one outer demo message: command id, tick and payload
/// length as varints, then the payload.
pub open spec fn demo_message_bytes(id: u32, tick: u32, payload: Seq<u8>) -> Seq<u8> {
    leb128_bytes(id as nat) + leb128_bytes(tick as nat) + leb128_bytes(payload.len()) + payload
}

fn write_frame(out: &mut Vec<u8>, id: u32, tick: u32, payload: &[u8]) -> (n: usize)
    requires
        payload@.len() <= u32::MAX,
    ensures
        final(out)@ == old(out)@ + demo_message_bytes(id, tick, payload@),
        n == demo_message_bytes(id, tick, payload@).len(),
{
    proof {
        vstd::arithmetic::power2::lemma2_to64();
        vstd::arithmetic::power2::lemma_pow2_adds(32, 3);
        crate::varint::lemma_leb128_len_le(id as nat, 5);
        crate::varint::lemma_leb128_len_le(tick as nat, 5);
        crate::varint::lemma_leb128_len_le(payload@.len(), 5);
    }
    let start = out.len();
    write_var_u32_to_buf(out, id);
    write_var_u32_to_buf(out, tick);
    write_var_u32_to_buf(out, payload.len() as u32);
    out.extend_from_slice(payload);
    proof {
        assert(final(out)@ =~= old(out)@ + demo_message_bytes(id, tick, payload@));
    }
    out.len() - start
}

/// Appends one outer demo message to `out` and returns the number of bytes
/// appended.
///
/// Fails when the payload is longer than `u32::MAX` bytes.
pub fn write_demo_message(
    out: &mut Vec<u8>,
    msg_type: EDemoCommands,
    tick: u32,
    payload: &[u8],
) -> (r: Result<usize, ParserError>)
    ensures
        r is Ok <==> payload@.len() <= u32::MAX,
        r matches Ok(n) ==> final(out)@ == old(out)@ + demo_message_bytes(msg_type.spec_id(), tick, payload@)
            && n == demo_message_bytes(msg_type.spec_id(), tick, payload@).len(),
        r is Err ==> final(out)@ == old(out)@,
{
    if payload.len() > u32::MAX as usize {
        return Err(ParserError::IoError("demo message payload is too long".to_owned()));
    }
    Ok(write_frame(out, msg_type.id(), tick, payload))
}

/// Appends one outer demo message to `out`, Snappy-compressing the payload
/// and flagging the command id when `compressed` is set, and returns the
/// number of bytes appended.
pub fn write_demo_message_with_compression(
    out: &mut Vec<u8>,
    msg_type: EDemoCommands,
    tick: u32,
    payload: &[u8],
    compressed: bool,
) -> (r: Result<usize, ParserError>)
    ensures
        !compressed ==> (r is Ok <==> payload@.len() <= u32::MAX),
        compressed ==> (r is Ok <==> snappy_accepts_len(payload@.len())),
        r matches Ok(n) ==> {
            let id = if compressed { (msg_type.spec_id() + DEM_IS_COMPRESSED) as u32 } else { msg_type.spec_id() };
            let body = if compressed { snappy_compressed(payload@) } else { payload@ };
            &&& final(out)@ == old(out)@ + demo_message_bytes(id, tick, body)
            &&& n == demo_message_bytes(id, tick, body).len()
            &&& compressed ==> snappy_decompressed(snappy_compressed(payload@)) == Some(payload@)
        },
        r is Err ==> final(out)@ == old(out)@,
{
    if !compressed {
        return write_demo_message(out, msg_type, tick, payload);
    }
    let data = match snappy_compress(payload) {
        Ok(d) => d,
        Err(_) => return Err(ParserError::CompressionError),
    };
    Ok(write_frame(out, msg_type.id() + DEM_IS_COMPRESSED, tick, data.as_slice()))
}

/// The command with number `id`, if there is one.
pub open spec fn command_of(id: u32) -> Option<EDemoCommands> {
    if id == 0 {
        Some(EDemoCommands::DemStop)
    } else if id == 1 {
        Some(EDemoCommands::DemFileHeader)
    } else if id == 2 {
        Some(EDemoCommands::DemFileInfo)
    } else if id == 3 {
        Some(EDemoCommands::DemSyncTick)
    } else if id == 4 {
        Some(EDemoCommands::DemSendTables)
    } else if id == 5 {
        Some(EDemoCommands::DemClassInfo)
    } else if id == 6 {
        Some(EDemoCommands::DemStringTables)
    } else if id == 7 {
        Some(EDemoCommands::DemPacket)
    } else if id == 8 {
        Some(EDemoCommands::DemSignonPacket)
    } else if id == 9 {
        Some(EDemoCommands::DemConsoleCmd)
    } else if id == 10 {
        Some(EDemoCommands::DemCustomData)
    } else if id == 11 {
        Some(EDemoCommands::DemCustomDataCallbacks)
    } else if id == 12 {
        Some(EDemoCommands::DemUserCmd)
    } else if id == 13 {
        Some(EDemoCommands::DemFullPacket)
    } else if id == 14 {
        Some(EDemoCommands::DemSaveGame)
    } else if id == 15 {
        Some(EDemoCommands::DemSpawnGroups)
    } else if id == 16 {
        Some(EDemoCommands::DemAnimationData)
    } else if id == 17 {
        Some(EDemoCommands::DemAnimationHeader)
    } else if id == 18 {
        Some(EDemoCommands::DemRecovery)
    } else if id == 19 {
        Some(EDemoCommands::DemMax)
    } else {
        None
    }
}

impl EDemoCommands {
    /// The command with number `id`, if there is one.
    pub fn from_id(id: u32) -> (c: Option<EDemoCommands>)
        ensures
            c == command_of(id),
    {
        if id == 0 {
            Some(EDemoCommands::DemStop)
        } else if id == 1 {
            Some(EDemoCommands::DemFileHeader)
        } else if id == 2 {
            Some(EDemoCommands::DemFileInfo)
        } else if id == 3 {
            Some(EDemoCommands::DemSyncTick)
        } else if id == 4 {
            Some(EDemoCommands::DemSendTables)
        } else if id == 5 {
            Some(EDemoCommands::DemClassInfo)
        } else if id == 6 {
            Some(EDemoCommands::DemStringTables)
        } else if id == 7 {
            Some(EDemoCommands::DemPacket)
        } else if id == 8 {
            Some(EDemoCommands::DemSignonPacket)
        } else if id == 9 {
            Some(EDemoCommands::DemConsoleCmd)
        } else if id == 10 {
            Some(EDemoCommands::DemCustomData)
        } else if id == 11 {
            Some(EDemoCommands::DemCustomDataCallbacks)
        } else if id == 12 {
            Some(EDemoCommands::DemUserCmd)
        } else if id == 13 {
            Some(EDemoCommands::DemFullPacket)
        } else if id == 14 {
            Some(EDemoCommands::DemSaveGame)
        } else if id == 15 {
            Some(EDemoCommands::DemSpawnGroups)
        } else if id == 16 {
            Some(EDemoCommands::DemAnimationData)
        } else if id == 17 {
            Some(EDemoCommands::DemAnimationHeader)
        } else if id == 18 {
            Some(EDemoCommands::DemRecovery)
        } else if id == 19 {
            Some(EDemoCommands::DemMax)
        } else {
            None
        }
    }
}

/// One outer demo message as read back.
#[derive(Debug)]
pub struct DemoMessage {
    /// The message's command.
    pub msg_type: EDemoCommands,
    /// The tick the message belongs to.
    pub tick: u32,
    /// The payload, decompressed when it was compressed.
    pub buf: Vec<u8>,
    /// Whether the payload was compressed.
    pub compressed: bool,
}

/// The contents of a demo message.
pub struct DemoMessageView {
    pub msg_type: EDemoCommands,
    pub tick: u32,
    pub buf: Seq<u8>,
    pub compressed: bool,
}

impl View for DemoMessage {
    type V = DemoMessageView;

    open spec fn view(&self) -> DemoMessageView {
        DemoMessageView { msg_type: self.msg_type, tick: self.tick, buf: self.buf@, compressed: self.compressed }
    }
}

/// Reads the next outer demo message at `c`: `Some(None)` when less than a
/// byte is left, `None` when the message runs past the end, names no
/// command, or does not decompress.
pub open spec fn next_message(c: BitCursor) -> (Option<Option<DemoMessageView>>, BitCursor) {
    if c.remaining_bytes() == 0 {
        (Some(None), c)
    } else {
        let (cmd, c1) = spec_var_u32(c);
        let (tick, c2) = spec_var_u32(c1);
        let (size, c3) = spec_var_u32(c2);
        let (raw, c4) = spec_bytes(c3, size as nat);
        let compressed = (cmd / 64) % 2 == 1;
        let id = if compressed { (cmd - 64) as u32 } else { cmd };
        if c4.overrun {
            (None, c4)
        } else {
            match command_of(id) {
                None => (None, c4),
                Some(t) => if compressed {
                    match snappy_decompressed(raw) {
                        Some(d) => (Some(Some(DemoMessageView { msg_type: t, tick, buf: d, compressed: true })), c4),
                        None => (None, c4),
                    }
                } else {
                    (Some(Some(DemoMessageView { msg_type: t, tick, buf: raw, compressed: false })), c4)
                },
            }
        }
    }
}

impl<'a> SliceReader<'a> {
    /// Reads the next outer demo message: its command id, with the
    /// compression flag, its tick and its payload length as varints, then
    /// the payload, which is decompressed when flagged. Gives `None` when
    /// less than a byte is left.
    ///
    /// Fails when the message runs past the end of the data, its command id
    /// names no command, or its payload does not decompress.
    #[verifier::spinoff_prover]
    pub fn read_next_message(&mut self) -> (r: Result<Option<DemoMessage>, ParserError>)
        requires
            old(self).wf(),
        ensures
            final(self).wf(),
            final(self).source() == old(self).source(),
            match next_message(old(self)@).0 {
                None => r is Err,
                Some(None) => r matches Ok(None) && final(self)@ == old(self)@,
                Some(Some(m)) => r matches Ok(Some(x)) && x@ == m && final(self)@ == next_message(old(self)@).1,
            },
    {
        if self.remaining_bytes() == 0 {
            return Ok(None);
        }
        let ghost c = self@;
        proof {
            self.lemma_wf();
            lemma_var_from_advances(c, 0, 0, 35);
            let c1 = spec_var_u32(c).1;
            lemma_var_from_advances(c1, 0, 0, 35);
            let c2 = spec_var_u32(c1).1;
            lemma_var_from_advances(c2, 0, 0, 35);
        }
        let cmd = self.read_var_u32();
        let tick = self.read_var_u32();
        let size = self.read_var_u32();
        proof {
            self.lemma_wf();
        }
        if self.overrun() || (size as u64) * 8 > self.remaining_bits() as u64 {
            return Err(ParserError::IoError("demo message runs past the end of the data".to_owned()));
        }
        let raw = self.read_bytes(size);
        let compressed = (cmd / 64) % 2 == 1;
        let id = if compressed { cmd - 64 } else { cmd };
        let msg_type = match EDemoCommands::from_id(id) {
            Some(t) => t,
            None => return Err(ParserError::IoError("unknown demo command".to_owned())),
        };
        if compressed {
            match snappy_decompress(raw.as_slice()) {
                Ok(buf) => Ok(Some(DemoMessage { msg_type, tick, buf, compressed: true })),
                Err(_) => Err(ParserError::CompressionError),
            }
        } else {
            Ok(Some(DemoMessage { msg_type, tick, buf: raw, compressed: false }))
        }
    }
}

/// A demo message written with `id`, `tick` and `body` reads back as its
/// three numbers and its body, at the start of the data.
#[verifier::spinoff_prover]
proof fn lemma_frame_reads_back(id: u32, tick: u32, body: Seq<u8>)
    requires
        body.len() <= u32::MAX,
    ensures
        ({
            let c = BitCursor { bits: bytes_bits(demo_message_bytes(id, tick, body)), pos: 0, overrun: false };
            let (cmd, c1) = spec_var_u32(c);
            let (t, c2) = spec_var_u32(c1);
            let (size, c3) = spec_var_u32(c2);
            let (raw, c4) = spec_bytes(c3, size as nat);
            &&& c.remaining_bytes() > 0
            &&& cmd == id && t == tick && raw == body && !c4.overrun
            &&& c4.pos == c.bits.len()
        }),
{
    let a = leb128_bytes(id as nat);
    let b = leb128_bytes(tick as nat);
    let l = leb128_bytes(body.len());
    let all = demo_message_bytes(id, tick, body);
    lemma_bytes_bits_as_bits(all);
    lemma_bytes_as_bits_concat(a + b + l, body);
    lemma_bytes_as_bits_concat(a + b, l);
    lemma_bytes_as_bits_concat(a, b);
    lemma_leb128_len(id as nat);
    lemma_bytes_as_bits_len(all);
    let c = BitCursor { bits: bytes_bits(all), pos: 0, overrun: false };
    let ba = bytes_as_bits(a);
    let bb = bytes_as_bits(b);
    let bl = bytes_as_bits(l);
    let bp = bytes_as_bits(body);
    assert(c.bits == ba + bb + bl + bp);
    assert(c.bits.subrange(0, c.bits.len() as int) =~= c.bits);
    assert(holds_at(c, ba + bb + bl + bp));
    lemma_holds_split(c, ba + bb + bl, bp);
    lemma_holds_split(c, ba + bb, bl);
    lemma_holds_split(c, ba, bb);
    var_u32_round_trip(c, id);
    lemma_bytes_as_bits_len(a);
    let c1 = c.advance(ba.len());
    var_u32_round_trip(c1, tick);
    lemma_bytes_as_bits_len(b);
    let c2 = c1.advance(bb.len());
    assert((body.len() as u32) as nat == body.len());
    var_u32_round_trip(c2, body.len() as u32);
    lemma_bytes_as_bits_len(l);
    let c3 = c2.advance(bl.len());
    bytes_round_trip(c3, body);
    lemma_bytes_as_bits_len(body);
}

/// A demo message reads back as written: its command, tick and payload,
/// and whether it was compressed, when a compressed payload decompresses
/// back to the payload, as the compressing writer guarantees.
pub proof fn demo_message_round_trip(msg_type: EDemoCommands, tick: u32, payload: Seq<u8>, compressed: bool)
    requires
        compressed ==> snappy_decompressed(snappy_compressed(payload)) == Some(payload),
        compressed ==> snappy_compressed(payload).len() <= u32::MAX,
        payload.len() <= u32::MAX,
    ensures
        ({
            let id = if compressed { (msg_type.spec_id() + DEM_IS_COMPRESSED) as u32 } else { msg_type.spec_id() };
            let body = if compressed { snappy_compressed(payload) } else { payload };
            let c = BitCursor { bits: bytes_bits(demo_message_bytes(id, tick, body)), pos: 0, overrun: false };
            next_message(c).0 == Some(Some(DemoMessageView { msg_type, tick, buf: payload, compressed }))
        }),
{
    let id = if compressed { (msg_type.spec_id() + DEM_IS_COMPRESSED) as u32 } else { msg_type.spec_id() };
    let body = if compressed { snappy_compressed(payload) } else { payload };
    lemma_frame_reads_back(id, tick, body);
}

/// The eight bytes that open a Source 2 demo file: `PBDEMS2` and a zero.
pub open spec fn demo_magic() -> Seq<u8> {
    seq![0x50u8, 0x42u8, 0x44u8, 0x45u8, 0x4Du8, 0x53u8, 0x32u8, 0x00u8]
}

/// The little-endian `u32` at byte `at` of `s`.
pub open spec fn le_u32(s: Seq<u8>, at: int) -> u32 {
    (s[at] + 0x100 * s[at + 1] + 0x10000 * s[at + 2] + 0x1000000 * s[at + 3]) as u32
}

/// Whether `replay` starts with a demo file header: the magic, then eight
/// bytes that hold the file info offset.
pub open spec fn has_demo_header(replay: Seq<u8>) -> bool {
    replay.len() >= 16 && replay.take(8) == demo_magic()
}

/// Checks a demo file's header and reads the byte offset of its file info
/// message.
///
/// Fails with `WrongMagic` when the data is shorter than the sixteen-byte
/// header or does not start with the magic.
pub fn read_file_info_offset(replay: &[u8]) -> (r: Result<u32, ParserError>)
    ensures
        match r {
            Ok(offset) => has_demo_header(replay@) && offset == le_u32(replay@, 8),
            Err(e) => e is WrongMagic && !has_demo_header(replay@),
        },
{
    if replay.len() < 16 {
        return Err(ParserError::WrongMagic);
    }
    let magic: [u8; 8] = [0x50, 0x42, 0x44, 0x45, 0x4D, 0x53, 0x32, 0x00];
    let mut i: usize = 0;
    while i < 8
        invariant
            replay@.len() >= 16,
            i <= 8,
            magic@ == demo_magic(),
            forall|j: int| 0 <= j < i ==> replay@[j] == demo_magic()[j],
        decreases 8 - i,
    {
        if replay[i] != magic[i] {
            proof {
                assert(replay@.take(8)[i as int] != demo_magic()[i as int]);
            }
            return Err(ParserError::WrongMagic);
        }
        i = i + 1;
    }
    proof {
        assert(replay@.take(8) =~= demo_magic());
    }
    let offset = replay[8] as u32 + 0x100 * (replay[9] as u32) + 0x10000 * (replay[10] as u32) + 0x1000000 * (
    replay[11] as u32);
    Ok(offset)
}

/// Reads the file info message of a demo file: the message at the offset
/// that the header holds.
///
/// Fails with `WrongMagic` when the header is missing, with
/// `ReplayEncodingError` when the offset lies past the end or no message
/// starts there, and as `read_next_message` fails.
pub fn read_file_info_message(replay: &[u8]) -> (r: Result<DemoMessage, ParserError>)
    requires
        replay@.len() <= usize::MAX / 8,
    ensures
        !has_demo_header(replay@) ==> (r matches Err(e) && e is WrongMagic),
        has_demo_header(replay@) ==> {
            let offset = le_u32(replay@, 8);
            let c = BitCursor { bits: bytes_bits(replay@), pos: 8 * offset, overrun: false };
            if offset > replay@.len() {
                r matches Err(e) && e is ReplayEncodingError
            } else {
                match next_message(c).0 {
                    None => r is Err,
                    Some(None) => r matches Err(e) && e is ReplayEncodingError,
                    Some(Some(m)) => r matches Ok(x) && x@ == m,
                }
            }
        },
{
    let offset = match read_file_info_offset(replay) {
        Ok(o) => o,
        Err(e) => return Err(e),
    };
    if offset as usize > replay.len() {
        return Err(ParserError::ReplayEncodingError);
    }
    let mut reader = SliceReader::new(replay);
    reader.seek(offset as usize);
    match reader.read_next_message() {
        Ok(Some(m)) => Ok(m),
        Ok(None) => Err(ParserError::ReplayEncodingError),
        Err(e) => Err(e),
    }
}

} // verus!
