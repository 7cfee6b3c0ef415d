//! Rewriting the inner messages of a demo packet.
use vstd::prelude::*;
use vstd::slice::slice_to_vec;
use crate::bits::{bytes_bits, pad_to_byte};
use crate::error::ParserError;
use crate::packet::{
    decode_packet_from, decode_packet_messages, encode_packet_messages, packet_bits, packet_views, MessageRewrite,
    MessageRewriteView, PacketMessage,
};

verus! {

/// The interest bit of rewriters that rewrite packet messages one at a time.
pub const PACKET_MESSAGE_INTEREST: u32 = 2;

/// The interest bit of rewriters that rewrite the whole message list of a
/// packet.
pub const PACKET_MESSAGES_INTEREST: u32 = 4;

/// Rewrites the inner messages of demo packets.
pub trait PacketRewriter: Sized {
    /// Whether the spec functions below describe this rewriter. A rewriter
    /// that does not describe itself is promised nothing by the functions
    /// that call it.
    open spec fn obeys_packet_rewrites() -> bool {
        false
    }

    /// The rewriter's interests, as bits: `PACKET_MESSAGE_INTEREST` and
    /// `PACKET_MESSAGES_INTEREST`.
    open spec fn interest_bits(&self) -> u32 {
        0
    }

    /// What rewriting one message does from this state: the outcome, or
    /// the error, and the state the rewriter moves to.
    open spec fn message_rewrite(&self, tick: u32, msg_type: i32, payload: Seq<u8>) -> (
        Result<MessageRewriteView, ParserError>,
        Self,
    ) {
        (Ok(MessageRewriteView::Keep), *self)
    }

    /// What rewriting a packet's message list does from this state: the new
    /// list, or the error, and the state the rewriter moves to.
    open spec fn messages_rewrite(&self, tick: u32, messages: Seq<(i32, Seq<u8>)>) -> (
        Result<Seq<(i32, Seq<u8>)>, ParserError>,
        Self,
    ) {
        (Ok(messages), *self)
    }

    /// Declares which rewrites this rewriter wants to take part in.
    fn interests(&self) -> (r: u32)
        ensures
            Self::obeys_packet_rewrites() ==> r == self.interest_bits(),
    ;

    /// Rewrites one packet message payload.
    fn rewrite_packet_message(&mut self, tick: u32, msg_type: i32, payload: &[u8]) -> (r: Result<
        MessageRewrite,
        ParserError,
    >)
        ensures
            Self::obeys_packet_rewrites() ==> ({
                let (res, next) = old(self).message_rewrite(tick, msg_type, payload@);
                &&& *final(self) == next
                &&& match res {
                    Ok(v) => (r matches Ok(m) && m@ == v),
                    Err(e) => r == Err::<MessageRewrite, ParserError>(e),
                }
            }),
    ;

    /// Mutates the full packet message list after per-message rewrites.
    fn rewrite_packet_messages(&mut self, tick: u32, messages: &mut Vec<PacketMessage>) -> (r: Result<
        (),
        ParserError,
    >)
        ensures
            Self::obeys_packet_rewrites() ==> ({
                let (res, next) = old(self).messages_rewrite(tick, packet_views(old(messages)@));
                &&& *final(self) == next
                &&& match res {
                    Ok(ms) => r is Ok && packet_views(final(messages)@) == ms,
                    Err(e) => r == Err::<(), ParserError>(e),
                }
            }),
    ;
}

/// Hands the payload of one message of type `t` to the rewriters from `j`
/// on that want single messages, in order: each sees the payload the ones
/// before it left. Gives the payload kept (`None` once one drops the
/// message, which the rest then do not see) and whether it changed, or the
/// first error, and the rewriters' states.
pub open spec fn message_pass<R: PacketRewriter>(
    rws: Seq<R>,
    j: int,
    tick: u32,
    t: i32,
    payload: Seq<u8>,
    changed: bool,
) -> (Result<(Option<Seq<u8>>, bool), ParserError>, Seq<R>)
    decreases rws.len() - j,
{
    if j < 0 || j >= rws.len() {
        (Ok((Some(payload), changed)), rws)
    } else if rws[j].interest_bits() & PACKET_MESSAGE_INTEREST == 0 {
        message_pass(rws, j + 1, tick, t, payload, changed)
    } else {
        let (res, next) = rws[j].message_rewrite(tick, t, payload);
        let rws2 = rws.update(j, next);
        match res {
            Err(e) => (Err(e), rws2),
            Ok(MessageRewriteView::Drop) => (Ok((None, true)), rws2),
            Ok(MessageRewriteView::Replace(b)) => message_pass(rws2, j + 1, tick, t, b, true),
            Ok(_) => message_pass(rws2, j + 1, tick, t, payload, changed),
        }
    }
}

/// Passes the messages of `ms` from `i` on, in order, each through
/// `message_pass`, appending the kept ones to `out`.
pub open spec fn messages_pass<R: PacketRewriter>(
    rws: Seq<R>,
    tick: u32,
    ms: Seq<(i32, Seq<u8>)>,
    i: int,
    out: Seq<(i32, Seq<u8>)>,
    changed: bool,
) -> (Result<(Seq<(i32, Seq<u8>)>, bool), ParserError>, Seq<R>)
    decreases ms.len() - i,
{
    if i < 0 || i >= ms.len() {
        (Ok((out, changed)), rws)
    } else {
        let (res, rws2) = message_pass(rws, 0, tick, ms[i].0, ms[i].1, changed);
        match res {
            Err(e) => (Err(e), rws2),
            Ok((None, c)) => messages_pass(rws2, tick, ms, i + 1, out, c),
            Ok((Some(p), c)) => messages_pass(rws2, tick, ms, i + 1, out.push((ms[i].0, p)), c),
        }
    }
}

/// Hands the message list `ms` to the rewriters from `j` on that want the
/// whole list, in order; the list counts as changed once one of them has
/// had it.
pub open spec fn list_pass<R: PacketRewriter>(
    rws: Seq<R>,
    j: int,
    tick: u32,
    ms: Seq<(i32, Seq<u8>)>,
    changed: bool,
) -> (Result<(Seq<(i32, Seq<u8>)>, bool), ParserError>, Seq<R>)
    decreases rws.len() - j,
{
    if j < 0 || j >= rws.len() {
        (Ok((ms, changed)), rws)
    } else if rws[j].interest_bits() & PACKET_MESSAGES_INTEREST == 0 {
        list_pass(rws, j + 1, tick, ms, changed)
    } else {
        let (res, next) = rws[j].messages_rewrite(tick, ms);
        let rws2 = rws.update(j, next);
        match res {
            Err(e) => (Err(e), rws2),
            Ok(ms2) => list_pass(rws2, j + 1, tick, ms2, true),
        }
    }
}

/// The messages a packet holds after its rewriters had them, and whether
/// they changed, or the first error; and the rewriters' states.
pub open spec fn packet_pass<R: PacketRewriter>(rws: Seq<R>, tick: u32, ms: Seq<(i32, Seq<u8>)>) -> (
    Result<(Seq<(i32, Seq<u8>)>, bool), ParserError>,
    Seq<R>,
) {
    let (res, rws2) = messages_pass(rws, tick, ms, 0, Seq::empty(), false);
    match res {
        Err(e) => (Err(e), rws2),
        Ok((out, c)) => list_pass(rws2, 0, tick, out, c),
    }
}

/// Whether no rewriter of `rws` wants single messages or message lists.
pub open spec fn none_interested<R: PacketRewriter>(rws: Seq<R>) -> bool {
    forall|j: int|
        0 <= j < rws.len() ==> (#[trigger] rws[j].interest_bits()) & PACKET_MESSAGE_INTEREST == 0
            && rws[j].interest_bits() & PACKET_MESSAGES_INTEREST == 0
}

proof fn lemma_message_pass_uninterested<R: PacketRewriter>(
    rws: Seq<R>,
    j: int,
    tick: u32,
    t: i32,
    payload: Seq<u8>,
    changed: bool,
)
    requires
        none_interested(rws),
        0 <= j,
    ensures
        message_pass(rws, j, tick, t, payload, changed) == (
            Ok::<(Option<Seq<u8>>, bool), ParserError>((Some(payload), changed)),
            rws,
        ),
    decreases rws.len() - j,
{
    if j < rws.len() {
        lemma_message_pass_uninterested(rws, j + 1, tick, t, payload, changed);
    }
}

proof fn lemma_messages_pass_uninterested<R: PacketRewriter>(
    rws: Seq<R>,
    tick: u32,
    ms: Seq<(i32, Seq<u8>)>,
    i: int,
    out: Seq<(i32, Seq<u8>)>,
)
    requires
        none_interested(rws),
        0 <= i <= ms.len(),
    ensures
        messages_pass(rws, tick, ms, i, out, false) == (
            Ok::<(Seq<(i32, Seq<u8>)>, bool), ParserError>((out + ms.subrange(i, ms.len() as int), false)),
            rws,
        ),
    decreases ms.len() - i,
{
    if i == ms.len() {
        assert(out + ms.subrange(i, ms.len() as int) =~= out);
    } else {
        lemma_message_pass_uninterested(rws, 0, tick, ms[i].0, ms[i].1, false);
        lemma_messages_pass_uninterested(rws, tick, ms, i + 1, out.push((ms[i].0, ms[i].1)));
        assert(out.push((ms[i].0, ms[i].1)) + ms.subrange(i + 1, ms.len() as int) =~= out + ms.subrange(
            i,
            ms.len() as int,
        ));
    }
}

proof fn lemma_list_pass_uninterested<R: PacketRewriter>(
    rws: Seq<R>,
    j: int,
    tick: u32,
    ms: Seq<(i32, Seq<u8>)>,
)
    requires
        none_interested(rws),
        0 <= j,
    ensures
        list_pass(rws, j, tick, ms, false) == (
            Ok::<(Seq<(i32, Seq<u8>)>, bool), ParserError>((ms, false)),
            rws,
        ),
    decreases rws.len() - j,
{
    if j < rws.len() {
        lemma_list_pass_uninterested(rws, j + 1, tick, ms);
    }
}

/// Rewriters that want neither single messages nor message lists leave a
/// packet's messages as they were, unchanged, and are not called; so
/// `rewrite_packet_data` gives the packet back as it was.
pub proof fn uninterested_rewriters_keep_packet<R: PacketRewriter>(
    rws: Seq<R>,
    tick: u32,
    ms: Seq<(i32, Seq<u8>)>,
)
    requires
        none_interested(rws),
    ensures
        packet_pass(rws, tick, ms) == (Ok::<(Seq<(i32, Seq<u8>)>, bool), ParserError>((ms, false)), rws),
{
    lemma_messages_pass_uninterested(rws, tick, ms, 0, Seq::empty());
    assert(Seq::<(i32, Seq<u8>)>::empty() + ms.subrange(0, ms.len() as int) =~= ms);
    lemma_list_pass_uninterested(rws, 0, tick, ms);
}

proof fn lemma_message_pass_unchanged<R: PacketRewriter>(
    rws: Seq<R>,
    j: int,
    tick: u32,
    t: i32,
    payload: Seq<u8>,
    changed: bool,
)
    requires
        0 <= j,
    ensures
        message_pass(rws, j, tick, t, payload, changed).0 matches Ok((kept, c)) ==> (c || (!changed && kept
            == Some(payload))),
    decreases rws.len() - j,
{
    if j < rws.len() {
        if rws[j].interest_bits() & PACKET_MESSAGE_INTEREST == 0 {
            lemma_message_pass_unchanged(rws, j + 1, tick, t, payload, changed);
        } else {
            let (res, next) = rws[j].message_rewrite(tick, t, payload);
            let rws2 = rws.update(j, next);
            match res {
                Ok(MessageRewriteView::Replace(b)) => {
                    lemma_message_pass_unchanged(rws2, j + 1, tick, t, b, true);
                },
                Ok(MessageRewriteView::Drop) => {},
                Ok(_) => {
                    lemma_message_pass_unchanged(rws2, j + 1, tick, t, payload, changed);
                },
                Err(_) => {},
            }
        }
    }
}

proof fn lemma_messages_pass_unchanged<R: PacketRewriter>(
    rws: Seq<R>,
    tick: u32,
    ms: Seq<(i32, Seq<u8>)>,
    i: int,
    out: Seq<(i32, Seq<u8>)>,
    changed: bool,
)
    requires
        0 <= i <= ms.len(),
    ensures
        messages_pass(rws, tick, ms, i, out, changed).0 matches Ok((o, c)) ==> (c || (!changed && o == out
            + ms.subrange(i, ms.len() as int))),
    decreases ms.len() - i,
{
    if i == ms.len() {
        assert(out + ms.subrange(i, ms.len() as int) =~= out);
    } else {
        lemma_message_pass_unchanged(rws, 0, tick, ms[i].0, ms[i].1, changed);
        let (res, rws2) = message_pass(rws, 0, tick, ms[i].0, ms[i].1, changed);
        match res {
            Ok((None, c)) => {
                lemma_messages_pass_unchanged(rws2, tick, ms, i + 1, out, c);
            },
            Ok((Some(p), c)) => {
                lemma_messages_pass_unchanged(rws2, tick, ms, i + 1, out.push((ms[i].0, p)), c);
                assert(out.push((ms[i].0, ms[i].1)) + ms.subrange(i + 1, ms.len() as int) =~= out + ms.subrange(
                    i,
                    ms.len() as int,
                ));
            },
            Err(_) => {},
        }
    }
}

proof fn lemma_list_pass_unchanged<R: PacketRewriter>(
    rws: Seq<R>,
    j: int,
    tick: u32,
    ms: Seq<(i32, Seq<u8>)>,
    changed: bool,
)
    requires
        0 <= j,
    ensures
        list_pass(rws, j, tick, ms, changed).0 matches Ok((o, c)) ==> (c || (!changed && o == ms)),
    decreases rws.len() - j,
{
    if j < rws.len() {
        if rws[j].interest_bits() & PACKET_MESSAGES_INTEREST == 0 {
            lemma_list_pass_unchanged(rws, j + 1, tick, ms, changed);
        } else {
            let (res, next) = rws[j].messages_rewrite(tick, ms);
            if let Ok(ms2) = res {
                lemma_list_pass_unchanged(rws.update(j, next), j + 1, tick, ms2, true);
            }
        }
    }
}

/// A packet counts as unchanged only when its messages are: every message
/// kept with the payload it was read with, none added. So a replaced or
/// dropped message, or a list rewriter's turn, always has the messages
/// written again, and an unchanged packet is given back as it was.
pub proof fn unchanged_packets_keep_their_messages<R: PacketRewriter>(
    rws: Seq<R>,
    tick: u32,
    ms: Seq<(i32, Seq<u8>)>,
)
    ensures
        packet_pass(rws, tick, ms).0 matches Ok((out, changed)) ==> (changed || out == ms),
{
    lemma_messages_pass_unchanged(rws, tick, ms, 0, Seq::empty(), false);
    assert(Seq::<(i32, Seq<u8>)>::empty() + ms.subrange(0, ms.len() as int) =~= ms);
    let (res, rws2) = messages_pass(rws, tick, ms, 0, Seq::empty(), false);
    if let Ok((out, c)) = res {
        lemma_list_pass_unchanged(rws2, 0, tick, out, c);
    }
}

proof fn lemma_message_pass_skips<R: PacketRewriter>(
    rws: Seq<R>,
    j: int,
    k: int,
    tick: u32,
    t: i32,
    payload: Seq<u8>,
    changed: bool,
)
    requires
        0 <= j <= k <= rws.len(),
        forall|x: int| j <= x < k ==> #[trigger] rws[x].interest_bits() & PACKET_MESSAGE_INTEREST == 0,
    ensures
        message_pass(rws, j, tick, t, payload, changed) == message_pass(rws, k, tick, t, payload, changed),
    decreases k - j,
{
    if j < k {
        lemma_message_pass_skips(rws, j + 1, k, tick, t, payload, changed);
    }
}

/// A message that only one rewriter wants, and that it answers with a
/// replacement `b`, keeps `b` as its payload and counts as changed; the
/// other rewriters keep their states.
pub proof fn a_replacement_is_kept<R: PacketRewriter>(
    rws: Seq<R>,
    j: int,
    tick: u32,
    t: i32,
    payload: Seq<u8>,
    changed: bool,
    b: Seq<u8>,
)
    requires
        0 <= j < rws.len(),
        forall|x: int| 0 <= x < rws.len() && x != j ==> #[trigger] rws[x].interest_bits() & PACKET_MESSAGE_INTEREST == 0,
        rws[j].interest_bits() & PACKET_MESSAGE_INTEREST != 0,
        rws[j].message_rewrite(tick, t, payload).0 == Ok::<MessageRewriteView, ParserError>(
            MessageRewriteView::Replace(b),
        ),
    ensures
        message_pass(rws, 0, tick, t, payload, changed) == (
            Ok::<(Option<Seq<u8>>, bool), ParserError>((Some(b), true)),
            rws.update(j, rws[j].message_rewrite(tick, t, payload).1),
        ),
{
    lemma_message_pass_skips(rws, 0, j, tick, t, payload, changed);
    let rws2 = rws.update(j, rws[j].message_rewrite(tick, t, payload).1);
    assert forall|x: int| j + 1 <= x < rws2.len() implies #[trigger] rws2[x].interest_bits()
        & PACKET_MESSAGE_INTEREST == 0 by {
        assert(rws2[x] == rws[x]);
    }
    lemma_message_pass_skips(rws2, j + 1, rws2.len() as int, tick, t, b, true);
}

/// Every payload of `ms` can have its length written as a `u32`.
pub open spec fn payloads_fit(ms: Seq<(i32, Seq<u8>)>) -> bool {
    forall|i: int| 0 <= i < ms.len() ==> (#[trigger] ms[i]).1.len() <= u32::MAX
}

/// Rewrites the messages of a demo packet: each message goes through the
/// rewriters that want single messages, then the message list through those
/// that want it whole. The packet is given back as it was when nothing
/// changed, otherwise the messages left are written again.
///
/// Fails when a message runs past the end of the data, when a rewriter
/// fails (with its error), or when a payload is too long for its length to
/// be written.
#[verifier::spinoff_prover]
pub fn rewrite_packet_data<R: PacketRewriter>(data: &[u8], tick: u32, rewriters: &mut Vec<R>) -> (r: Result<
    Vec<u8>,
    ParserError,
>)
    requires
        data@.len() <= usize::MAX / 8,
    ensures
        final(rewriters)@.len() == old(rewriters)@.len(),
        decode_packet_from(bytes_bits(data@), 0) is None ==> r is Err && final(rewriters)@ == old(rewriters)@,
        R::obeys_packet_rewrites() ==> match decode_packet_from(bytes_bits(data@), 0) {
            None => true,
            Some(ms) => {
                let (res, rws) = packet_pass(old(rewriters)@, tick, ms);
                &&& final(rewriters)@ == rws
                &&& match res {
                    Err(e) => r == Err::<Vec<u8>, ParserError>(e),
                    Ok((out, changed)) => if !changed {
                        r matches Ok(v) && v@ == data@
                    } else if payloads_fit(out) {
                        r matches Ok(v) && bytes_bits(v@) == pad_to_byte(packet_bits(out))
                    } else {
                        r is Err
                    },
                }
            },
        },
{
    let decoded = match decode_packet_messages(data) {
        Ok(v) => v,
        Err(e) => return Err(e),
    };
    let ghost ms = packet_views(decoded@);
    let ghost rws0 = rewriters@;
    let mut messages: Vec<PacketMessage> = Vec::new();
    let mut changed = false;
    let mut i: usize = 0;
    proof {
        assert(packet_views(messages@) =~= Seq::<(i32, Seq<u8>)>::empty());
    }
    while i < decoded.len()
        invariant
            ms == packet_views(decoded@),
            decode_packet_from(bytes_bits(data@), 0) == Some(ms),
            rws0 == old(rewriters)@,
            rewriters@.len() == rws0.len(),
            i <= decoded@.len(),
            R::obeys_packet_rewrites() ==> messages_pass(rws0, tick, ms, 0, Seq::empty(), false) == messages_pass(
                rewriters@,
                tick,
                ms,
                i as int,
                packet_views(messages@),
                changed,
            ),
        decreases decoded.len() - i,
    {
        let msg_type = decoded[i].msg_type;
        let mut payload = slice_to_vec(decoded[i].payload.as_slice());
        let ghost rws_i = rewriters@;
        let ghost changed_i = changed;
        let ghost views_i = packet_views(messages@);
        let mut dropped = false;
        let mut j: usize = 0;
        proof {
            assert(ms[i as int] == (msg_type, payload@));
        }
        while j < rewriters.len() && !dropped
            invariant
                ms == packet_views(decoded@),
                decode_packet_from(bytes_bits(data@), 0) == Some(ms),
                rws0 == old(rewriters)@,
                rws_i.len() == rws0.len(),
                rewriters@.len() == rws_i.len(),
                i < decoded@.len(),
                views_i == packet_views(messages@),
                msg_type == ms[i as int].0,
                R::obeys_packet_rewrites() ==> messages_pass(rws0, tick, ms, 0, Seq::empty(), false) == messages_pass(
                    rws_i,
                    tick,
                    ms,
                    i as int,
                    views_i,
                    changed_i,
                ),
                j <= rewriters@.len(),
                R::obeys_packet_rewrites() ==> message_pass(rws_i, 0, tick, msg_type, ms[i as int].1, changed_i) == if dropped {
                    (Ok((None::<Seq<u8>>, changed)), rewriters@)
                } else {
                    message_pass(rewriters@, j as int, tick, msg_type, payload@, changed)
                },
            decreases rewriters.len() - j,
        {
            let wants = rewriters[j].interests() & PACKET_MESSAGE_INTEREST != 0;
            if wants {
                let ghost before = rewriters@;
                let mut rw = rewriters.remove(j);
                let res = rw.rewrite_packet_message(tick, msg_type, payload.as_slice());
                rewriters.insert(j, rw);
                proof {
                    assert(rewriters@ =~= before.update(j as int, rw));
                }
                match res {
                    Ok(MessageRewrite::Drop) => {
                        changed = true;
                        dropped = true;
                    },
                    Ok(MessageRewrite::Replace(bytes)) => {
                        changed = true;
                        payload = bytes;
                    },
                    Ok(_) => {},
                    Err(e) => {
                        proof {
                            if R::obeys_packet_rewrites() {
                                assert(messages_pass(rws0, tick, ms, 0, Seq::empty(), false) == (
                                    Err::<(Seq<(i32, Seq<u8>)>, bool), ParserError>(e),
                                    rewriters@,
                                ));
                            }
                        }
                        return Err(e);
                    },
                }
            }
            j = j + 1;
        }
        proof {
            if R::obeys_packet_rewrites() && !dropped {
                assert(message_pass(rewriters@, j as int, tick, msg_type, payload@, changed) == (
                    Ok::<(Option<Seq<u8>>, bool), ParserError>((Some(payload@), changed)),
                    rewriters@,
                ));
            }
        }
        if !dropped {
            let ghost before = packet_views(messages@);
            messages.push(PacketMessage::new(msg_type, payload));
            proof {
                assert(packet_views(messages@) =~= before.push((ms[i as int].0, payload@)));
            }
        }
        i = i + 1;
    }
    proof {
        if R::obeys_packet_rewrites() {
            assert(messages_pass(rewriters@, tick, ms, i as int, packet_views(messages@), changed) == (
                Ok::<(Seq<(i32, Seq<u8>)>, bool), ParserError>((packet_views(messages@), changed)),
                rewriters@,
            ));
        }
    }
    let ghost listed = packet_views(messages@);
    let ghost rws_l = rewriters@;
    let ghost changed_l = changed;
    proof {
        if R::obeys_packet_rewrites() {
            assert(packet_pass(rws0, tick, ms) == list_pass(rws_l, 0, tick, listed, changed_l));
        }
    }
    let mut j: usize = 0;
    while j < rewriters.len()
        invariant
            decode_packet_from(bytes_bits(data@), 0) == Some(ms),
            rws0 == old(rewriters)@,
            R::obeys_packet_rewrites() ==> packet_pass(rws0, tick, ms) == list_pass(rws_l, 0, tick, listed, changed_l),
            rws_l.len() == old(rewriters)@.len(),
            rewriters@.len() == rws_l.len(),
            j <= rewriters@.len(),
            R::obeys_packet_rewrites() ==> list_pass(rws_l, 0, tick, listed, changed_l) == list_pass(
                rewriters@,
                j as int,
                tick,
                packet_views(messages@),
                changed,
            ),
        decreases rewriters.len() - j,
    {
        let wants = rewriters[j].interests() & PACKET_MESSAGES_INTEREST != 0;
        if wants {
            let ghost before = rewriters@;
            let mut rw = rewriters.remove(j);
            let res = rw.rewrite_packet_messages(tick, &mut messages);
            rewriters.insert(j, rw);
            proof {
                assert(rewriters@ =~= before.update(j as int, rw));
            }
            match res {
                Ok(()) => {
                    changed = true;
                },
                Err(e) => {
                    return Err(e);
                },
            }
        }
        j = j + 1;
    }
    proof {
        if R::obeys_packet_rewrites() {
            assert(list_pass(rewriters@, j as int, tick, packet_views(messages@), changed) == (
                Ok::<(Seq<(i32, Seq<u8>)>, bool), ParserError>((packet_views(messages@), changed)),
                rewriters@,
            ));
        }
    }
    if !changed {
        return Ok(slice_to_vec(data));
    }
    let mut k: usize = 0;
    while k < messages.len()
        invariant
            k <= messages@.len(),
            changed,
            rws0 == old(rewriters)@,
            rewriters@.len() == old(rewriters)@.len(),
            decode_packet_from(bytes_bits(data@), 0) == Some(ms),
            R::obeys_packet_rewrites() ==> packet_pass(rws0, tick, ms) == (
                Ok::<(Seq<(i32, Seq<u8>)>, bool), ParserError>((packet_views(messages@), changed)),
                rewriters@,
            ),
            forall|m: int| 0 <= m < k ==> (#[trigger] messages@[m]).payload@.len() <= u32::MAX,
        decreases messages.len() - k,
    {
        if messages[k].payload.len() > 0xffff_ffffusize {
            proof {
                assert(packet_views(messages@)[k as int].1.len() > u32::MAX);
            }
            return Err(ParserError::IoError("packet message payload is too long to write".to_owned()));
        }
        k = k + 1;
    }
    proof {
        assert forall|m: int| 0 <= m < packet_views(messages@).len() implies (#[trigger] packet_views(
            messages@,
        )[m]).1.len() <= u32::MAX by {
            assert(packet_views(messages@)[m] == messages@[m]@);
        }
    }
    Ok(encode_packet_messages(messages.as_slice()))
}

} // verus!
