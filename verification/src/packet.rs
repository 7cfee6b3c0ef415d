//! The inner messages of a demo packet, and message rewrite outcomes.
use vstd::prelude::*;
use crate::bits::{bytes_as_bits, bytes_bits, pad_to_byte, BitCursor};
use crate::error::ParserError;
use crate::reader::{
    lemma_ubit_var_advances, lemma_var_from_advances, spec_bytes, spec_ubit_var, spec_var_u32, SliceReader,
};
use crate::roundtrip::{bytes_round_trip, holds_at, lemma_holds_split, ubit_var_round_trip, var_u32_round_trip};
use crate::varint::{leb128_bytes, lemma_bytes_as_bits_len, lemma_leb128_len, ubit_var_bits};
use crate::writer::BitstreamWriter;

verus! {

/// Outcome for a demo message rewrite operation.
pub enum MessageRewrite {
    /// Leave the message unchanged.
    Keep,
    /// Encode and replace the message payload from the mutated message.
    Rewrite,
    /// Replace the message payload with the provided bytes.
    Replace(Vec<u8>),
    /// Drop the message entirely.
    Drop,
}

/// The contents of a message rewrite outcome.
pub enum MessageRewriteView {
    Keep,
    Rewrite,
    Replace(Seq<u8>),
    Drop,
}

impl View for MessageRewrite {
    type V = MessageRewriteView;

    open spec fn view(&self) -> MessageRewriteView {
        match self {
            MessageRewrite::Keep => MessageRewriteView::Keep,
            MessageRewrite::Rewrite => MessageRewriteView::Rewrite,
            MessageRewrite::Replace(b) => MessageRewriteView::Replace(b@),
            MessageRewrite::Drop => MessageRewriteView::Drop,
        }
    }
}

impl MessageRewrite {
    /// Whether settling this outcome needs the mutated message's encoding.
    pub fn needs_encoding(&self) -> (b: bool)
        ensures
            b == (*self is Rewrite),
    {
        match self {
            MessageRewrite::Rewrite => true,
            _ => false,
        }
    }

    /// The outcome of rewriting a decoded message: `Rewrite` becomes a
    /// replacement by `encoded`, the mutated message's encoding; the other
    /// outcomes stand.
    pub fn settle(self, encoded: Vec<u8>) -> (r: MessageRewrite)
        ensures
            match self {
                MessageRewrite::Rewrite => r == MessageRewrite::Replace(encoded),
                _ => r == self,
            },
    {
        match self {
            MessageRewrite::Rewrite => MessageRewrite::Replace(encoded),
            other => other,
        }
    }

    /// Whether this outcome changes the message it answers.
    pub fn changes_message(&self) -> (b: bool)
        ensures
            b == (*self is Replace || *self is Drop),
    {
        match self {
            MessageRewrite::Replace(_) | MessageRewrite::Drop => true,
            _ => false,
        }
    }

    /// The payload a packet message keeps after this outcome: none when it
    /// is dropped, the replacement when it is replaced, `payload` otherwise.
    pub fn apply(self, payload: Vec<u8>) -> (r: Option<Vec<u8>>)
        ensures
            match self {
                MessageRewrite::Drop => r is None,
                MessageRewrite::Replace(bytes) => r == Some(bytes),
                _ => r == Some(payload),
            },
    {
        match self {
            MessageRewrite::Drop => None,
            MessageRewrite::Replace(bytes) => Some(bytes),
            _ => Some(payload),
        }
    }
}

/// Decoded packet message passed to packet-list rewriters.
#[derive(Clone, Debug)]
pub struct PacketMessage {
    /// Inner packet message type.
    pub msg_type: i32,
    /// Encoded inner packet message payload.
    pub payload: Vec<u8>,
}

impl View for PacketMessage {
    type V = (i32, Seq<u8>);

    open spec fn view(&self) -> (i32, Seq<u8>) {
        (self.msg_type, self.payload@)
    }
}

impl PacketMessage {
    /// Creates a packet message from a message type and encoded payload.
    pub fn new(msg_type: i32, payload: Vec<u8>) -> (m: Self)
        ensures
            m@ == (msg_type, payload@),
    {
        PacketMessage { msg_type, payload }
    }
}

/// The views of packet messages.
pub open spec fn packet_views(v: Seq<PacketMessage>) -> Seq<(i32, Seq<u8>)> {
    v.map_values(|m: PacketMessage| m@)
}

/// The bits of one packet message: its type as a `ubit var`, its payload
/// length as a varint, then the payload.
pub open spec fn message_bits(m: (i32, Seq<u8>)) -> Seq<bool> {
    ubit_var_bits(m.0 as u32) + bytes_as_bits(leb128_bytes(m.1.len())) + bytes_as_bits(m.1)
}

/// The bits of a sequence of packet messages, in order.
pub open spec fn packet_bits(ms: Seq<(i32, Seq<u8>)>) -> Seq<bool>
    decreases ms.len(),
{
    if ms.len() == 0 {
        Seq::empty()
    } else {
        message_bits(ms[0]) + packet_bits(ms.drop_first())
    }
}

/// Reads packet messages from bit `pos` on until less than a byte is
/// left. `None` when a message runs past the end of the data.
pub open spec fn decode_packet_from(bits: Seq<bool>, pos: int) -> Option<Seq<(i32, Seq<u8>)>>
    decreases bits.len() - pos,
{
    let c = BitCursor { bits, pos, overrun: false };
    if pos < 0 || bits.len() - pos < 8 {
        Some(Seq::empty())
    } else {
        let (t, c1) = spec_ubit_var(c);
        let (n, c2) = spec_var_u32(c1);
        let (p, c3) = spec_bytes(c2, n as nat);
        if c3.overrun || !(pos < c3.pos <= bits.len()) {
            None
        } else {
            match decode_packet_from(bits, c3.pos) {
                None => None,
                Some(rest) => Some(seq![(t as i32, p)] + rest),
            }
        }
    }
}

pub proof fn lemma_packet_bits_push(ms: Seq<(i32, Seq<u8>)>, m: (i32, Seq<u8>))
    ensures
        packet_bits(ms.push(m)) == packet_bits(ms) + message_bits(m),
    decreases ms.len(),
{
    if ms.len() == 0 {
        assert(ms.push(m).drop_first() =~= Seq::<(i32, Seq<u8>)>::empty());
        assert(ms.push(m)[0] == m);
        assert(packet_bits(ms.push(m).drop_first()) == Seq::<bool>::empty());
        assert(packet_bits(ms.push(m)) == message_bits(m) + Seq::<bool>::empty());
        assert(packet_bits(ms.push(m)) =~= packet_bits(ms) + message_bits(m));
    } else {
        lemma_packet_bits_push(ms.drop_first(), m);
        assert(ms.push(m).drop_first() =~= ms.drop_first().push(m));
        assert(ms.push(m)[0] == ms[0]);
        let head = message_bits(ms[0]);
        assert(packet_bits(ms.push(m)) == head + (packet_bits(ms.drop_first()) + message_bits(m)));
        assert(packet_bits(ms.push(m)) =~= packet_bits(ms) + message_bits(m));
    }
}

/// Writes packet messages, each as its type, payload length and payload,
/// padded to whole bytes.
pub fn encode_packet_messages(messages: &[PacketMessage]) -> (out: Vec<u8>)
    requires
        forall|i: int| 0 <= i < messages@.len() ==> (#[trigger] messages@[i]).payload@.len() <= u32::MAX,
    ensures
        bytes_bits(out@) == pad_to_byte(packet_bits(packet_views(messages@))),
{
    let mut writer = BitstreamWriter::new();
    let mut i: usize = 0;
    proof {
        assert(packet_views(messages@).take(0) =~= Seq::<(i32, Seq<u8>)>::empty());
    }
    while i < messages.len()
        invariant
            writer.wf(),
            i <= messages@.len(),
            forall|j: int| 0 <= j < messages@.len() ==> (#[trigger] messages@[j]).payload@.len() <= u32::MAX,
            writer@ == packet_bits(packet_views(messages@).take(i as int)),
        decreases messages.len() - i,
    {
        let message = &messages[i];
        let ghost before = writer@;
        let _ = writer.write_ubit_var(message.msg_type as u32);
        let _ = writer.write_var_u32(message.payload.len() as u32);
        let _ = writer.write_bytes(message.payload.as_slice());
        proof {
            let views = packet_views(messages@);
            assert(views.take(i + 1) =~= views.take(i as int).push(message@));
            lemma_packet_bits_push(views.take(i as int), message@);
            assert(writer@ =~= before + message_bits(message@));
        }
        i = i + 1;
    }
    proof {
        assert(packet_views(messages@).take(messages@.len() as int) =~= packet_views(messages@));
    }
    writer.into_inner()
}

/// Reads packet messages until less than a byte is left.
///
/// Fails when a message runs past the end of the data.
#[verifier::spinoff_prover]
pub fn decode_packet_messages(data: &[u8]) -> (r: Result<Vec<PacketMessage>, ParserError>)
    requires
        data@.len() <= usize::MAX / 8,
    ensures
        match decode_packet_from(bytes_bits(data@), 0) {
            Some(ms) => r matches Ok(v) && packet_views(v@) == ms,
            None => r is Err,
        },
{
    let mut reader = SliceReader::new(data);
    let mut messages: Vec<PacketMessage> = Vec::new();
    let ghost bits = bytes_bits(data@);
    proof {
        assert(packet_views(messages@) =~= Seq::<(i32, Seq<u8>)>::empty());
        assert(decode_packet_from(bits, 0) matches Some(ms) ==> Seq::<(i32, Seq<u8>)>::empty() + ms =~= ms);
    }
    while reader.remaining_bytes() != 0
        invariant
            reader.wf(),
            reader.source() == data@,
            reader@.bits == bits,
            !reader@.overrun,
            decode_packet_from(bits, 0) == match decode_packet_from(bits, reader@.pos) {
                Some(rest) => Some(packet_views(messages@) + rest),
                None => None,
            },
        decreases bits.len() - reader@.pos,
    {
        let ghost c = reader@;
        proof {
            reader.lemma_wf();
            lemma_ubit_var_advances(c);
            let c1 = spec_ubit_var(c).1;
            lemma_var_from_advances(c1, 0, 0, 35);
        }
        let msg_type = reader.read_ubit_var() as i32;
        let size = reader.read_var_u32();
        proof {
            reader.lemma_wf();
        }
        if reader.overrun() || (size as u64) * 8 > reader.remaining_bits() as u64 {
            return Err(ParserError::IoError("packet message runs past the end of the data".to_owned()));
        }
        let payload = reader.read_bytes(size);
        let ghost views = packet_views(messages@);
        let message = PacketMessage::new(msg_type, payload);
        messages.push(message);
        proof {
            assert(packet_views(messages@) =~= views.push(message@));
            if let Some(rest) = decode_packet_from(bits, reader@.pos) {
                assert(views + (seq![message@] + rest) =~= views.push(message@) + rest);
            }
        }
    }
    proof {
        reader.lemma_wf();
        assert(decode_packet_from(bits, reader@.pos) == Some(Seq::<(i32, Seq<u8>)>::empty()));
        assert(packet_views(messages@) + Seq::<(i32, Seq<u8>)>::empty() =~= packet_views(messages@));
    }
    Ok(messages)
}

/// Messages decode back from a stream that holds their bits at `pos`
/// followed by less than a byte.
#[verifier::spinoff_prover]
pub proof fn lemma_packet_round_trip(bits: Seq<bool>, pos: int, ms: Seq<(i32, Seq<u8>)>)
    requires
        0 <= pos,
        pos + packet_bits(ms).len() <= bits.len() < pos + packet_bits(ms).len() + 8,
        bits.subrange(pos, pos + packet_bits(ms).len()) == packet_bits(ms),
        forall|i: int| 0 <= i < ms.len() ==> (#[trigger] ms[i]).1.len() <= u32::MAX,
    ensures
        decode_packet_from(bits, pos) == Some(ms),
    decreases ms.len(),
{
    if ms.len() == 0 {
        assert(ms =~= Seq::<(i32, Seq<u8>)>::empty());
    } else {
        let m = ms[0];
        let rest = ms.drop_first();
        let c = BitCursor { bits, pos, overrun: false };
        let ub = ubit_var_bits(m.0 as u32);
        let lb = bytes_as_bits(leb128_bytes(m.1.len()));
        let pb = bytes_as_bits(m.1);
        let tail = packet_bits(rest);
        assert(packet_bits(ms) == ub + lb + pb + tail);
        assert(holds_at(c, ub + lb + pb + tail));
        lemma_holds_split(c, ub + lb + pb, tail);
        lemma_holds_split(c, ub + lb, pb);
        lemma_holds_split(c, ub, lb);
        ubit_var_round_trip(c, m.0 as u32);
        let c1 = c.advance(ub.len());
        assert((m.1.len() as u32) as nat == m.1.len());
        var_u32_round_trip(c1, m.1.len() as u32);
        lemma_leb128_len(m.1.len());
        lemma_bytes_as_bits_len(leb128_bytes(m.1.len()));
        let c2 = c1.advance(lb.len());
        bytes_round_trip(c2, m.1);
        lemma_bytes_as_bits_len(m.1);
        let c3 = c2.advance(pb.len());
        let t = m.0;
        assert(((t as u32) as i32) == t) by (bit_vector);
        assert(c3.pos == pos + (ub + lb + pb).len());
        assert(bits.subrange(c3.pos, c3.pos + tail.len()) =~= tail) by {
            assert forall|j: int| 0 <= j < tail.len() implies bits.subrange(c3.pos, c3.pos + tail.len())[j]
                == tail[j] by {
                assert(bits.subrange(pos, pos + packet_bits(ms).len())[(ub + lb + pb).len() + j]
                    == packet_bits(ms)[(ub + lb + pb).len() + j]);
            }
        }
        assert forall|i: int| 0 <= i < rest.len() implies (#[trigger] rest[i]).1.len() <= u32::MAX by {
            assert(rest[i] == ms[i + 1]);
        }
        lemma_packet_round_trip(bits, c3.pos, rest);
        assert(seq![m] + rest =~= ms);
    }
}

/// Packet messages read back as written.
pub proof fn packet_round_trip(ms: Seq<(i32, Seq<u8>)>)
    requires
        forall|i: int| 0 <= i < ms.len() ==> (#[trigger] ms[i]).1.len() <= u32::MAX,
    ensures
        decode_packet_from(pad_to_byte(packet_bits(ms)), 0) == Some(ms),
{
    let b = packet_bits(ms);
    let bits = pad_to_byte(b);
    assert(bits.subrange(0, b.len() as int) =~= b);
    lemma_packet_round_trip(bits, 0, ms);
}

} // verus!
