//! Laws of the calls by which the loops around a transfer decide.
use crate::config::QBlockError;
use crate::drive::datagram_taken;
use crate::drive::reassembled;
use crate::drive::receive_datagram;
use crate::drive::receive_message;
use crate::drive::receive_tick;
use crate::drive::resume_send;
use crate::drive::send_wait;
use crate::drive::ReceiveEvent;
use crate::drive::ReceiveTick;
use crate::drive::SendEvent;
use crate::drive::SendNext;
use crate::drive::SendWait;
use crate::laws::bursts::law_sender_is_done_when_nothing_is_left;
use crate::packet::has_short_fields;
use crate::packet::packet_contents;
use crate::packet::reads_as;
use crate::packet::spells;
use crate::packet::wire_decoding;
use crate::packet::wire_encoding;
use crate::packet::ByteOrder;
use crate::packet::Message;
use crate::receiver::BlockOutcome;
use crate::receiver::Outcome;
use crate::receiver::QBlockReceiver;
use crate::receiver::RecoveryOutcome;
use crate::sender::QBlockSender;
use crate::time::nanos;
use coap_lite::Packet;
use std::time::Duration;
use vstd::prelude::*;

verus! {

/// A sender waits for reports once it has sent all it had to, and for the delay between bursts
/// before that.
pub proof fn law_sender_lingers_when_all_is_sent(sender: &QBlockSender, wait: SendWait, done: bool)
    requires
        sender.wf(),
        call_ensures(send_wait, (sender,), wait),
        call_ensures(QBlockSender::is_done, (sender,), done),
    ensures
        wait == SendWait::Linger <==> done,
        wait == SendWait::Pace <==> !done,
        done <==> sender@.started && forall|n: u32| !sender@.outstanding.blocks.contains(n),
{
    law_sender_is_done_when_nothing_is_left(sender, done);
}

/// A report of missing blocks is always answered: its blocks are queued as by a refill, and a burst
/// is next. Otherwise nothing is queued; a sender that lingered is finished, and one that paused
/// between bursts goes on when the pause is over, and not before, though no more reports can come.
pub proof fn law_waits_end_as_they_should(
    sender: &mut QBlockSender,
    wait: SendWait,
    event: SendEvent,
    next: SendNext,
    other: &mut QBlockSender,
)
    requires
        old(sender).wf(),
        old(other).wf(),
        old(other)@ == old(sender)@,
        call_ensures(resume_send, (sender, wait, event), next),
        event matches SendEvent::Missing(blocks) ==> exists|list: &[u32]|
            list@ == blocks@ && call_ensures(QBlockSender::refill, (other, list), ()),
    ensures
        final(sender).wf(),
        event is Missing ==> next == SendNext::Burst && final(sender)@ == final(other)@,
        !(event is Missing) ==> final(sender)@ == old(sender)@,
        !(event is Missing) && wait == SendWait::Linger ==> next == SendNext::Finish,
        event is Elapsed && wait == SendWait::Pace ==> next == SendNext::Burst,
        event is Closed && wait == SendWait::Pace ==> next == SendNext::KeepPausing,
{
}

/// A tick is a poll: it waits as long as the poll says, sends the bytes of the request that the
/// poll yields, and gives up when the poll says that the transfer has expired. It fails only where
/// the request has no bytes. The receiver is then as after the poll.
pub proof fn law_tick_does_what_the_poll_says(
    receiver: &mut QBlockReceiver,
    since_activity: Duration,
    tick: Result<ReceiveTick, QBlockError>,
    other: &mut QBlockReceiver,
    outcome: RecoveryOutcome,
)
    requires
        old(receiver).wf(),
        old(other).wf(),
        old(other)@ == old(receiver)@,
        call_ensures(receive_tick, (receiver, since_activity), tick),
        call_ensures(QBlockReceiver::poll_recovery, (other, since_activity), outcome),
    ensures
        final(receiver)@ == final(other)@,
        match outcome {
            RecoveryOutcome::Wait(span) => tick matches Ok(ReceiveTick::Wait(same)) && nanos(same)
                == nanos(span),
            RecoveryOutcome::Expired => tick matches Ok(ReceiveTick::GiveUp),
            RecoveryOutcome::Resend(packet) => match wire_encoding(packet_contents(packet)) {
                Some(bytes) => tick matches Ok(ReceiveTick::Send(sent)) && sent@ == bytes && spells(
                    bytes,
                    packet_contents(packet),
                ),
                None => tick matches Err(QBlockError::Encode(_)),
            },
        },
{
}

/// A message that is fed to a receiver does what its block does. It counts as activity if and only
/// if the block was recorded and the body is still incomplete; a complete body comes with the
/// message that completed it; an error is passed on; all else is ignored. What is no message is
/// ignored and changes nothing.
pub proof fn law_fed_messages_do_what_their_blocks_do(
    receiver: &mut QBlockReceiver,
    packet: Option<Packet>,
    event: Result<ReceiveEvent, QBlockError>,
    other: &mut QBlockReceiver,
    outcome: Result<BlockOutcome, QBlockError>,
)
    requires
        old(receiver).wf(),
        old(other).wf(),
        old(other)@ == old(receiver)@,
        call_ensures(receive_message, (receiver, packet), event),
        packet matches Some(packet) ==> call_ensures(
            QBlockReceiver::accept,
            (other, &packet),
            outcome,
        ),
    ensures
        packet is None ==> (event matches Ok(ReceiveEvent::Ignored)) && final(receiver)@
            == old(receiver)@,
        packet matches Some(packet) ==> {
            &&& final(receiver)@ == final(other)@
            &&& match outcome {
                Ok(BlockOutcome::Accepted) => event matches Ok(ReceiveEvent::Activity),
                Ok(BlockOutcome::Complete(body)) => event matches Ok(
                    ReceiveEvent::Complete(whole, carrier),
                ) && whole@ == body@ && packet_contents(carrier) == packet_contents(packet),
                Ok(BlockOutcome::Dropped) => event matches Ok(ReceiveEvent::Ignored),
                Ok(BlockOutcome::NotQBlock) => event matches Ok(ReceiveEvent::Ignored),
                Err(e) => event matches Err(f) && f == e,
            }
        },
{
}

/// A datagram that is fed to a receiver does what the message does that it reads as: on a machine
/// of one byte order or the other, and on every machine alike if it has no two-byte fields. What
/// reads as no message is ignored.
pub proof fn law_fed_datagrams_do_what_they_read_as(
    receiver: &mut QBlockReceiver,
    bytes: &[u8],
    event: Result<ReceiveEvent, QBlockError>,
)
    requires
        old(receiver).wf(),
        call_ensures(receive_datagram, (receiver, bytes), event),
    ensures
        exists|machine: ByteOrder|
            match #[trigger] wire_decoding(bytes@, machine) {
                None => (event matches Ok(ReceiveEvent::Ignored)) && final(receiver)@
                    == old(receiver)@,
                Some(message) => final(receiver)@ == old(receiver)@.receive(message).0
                    && match old(receiver)@.receive(message).1 {
                    Ok(Outcome::Accepted) => event matches Ok(ReceiveEvent::Activity),
                    Ok(Outcome::Complete(body)) => event matches Ok(
                        ReceiveEvent::Complete(whole, carrier),
                    ) && whole@ == body && packet_contents(carrier) == message,
                    Ok(_) => event matches Ok(ReceiveEvent::Ignored),
                    Err(e) => event matches Err(f) && f == e,
                },
            },
        has_short_fields(bytes@) ==> wire_decoding(bytes@, ByteOrder::Little) == wire_decoding(
            bytes@,
            ByteOrder::Big,
        ),
{
    let message = choose|message: Option<Message>| #[trigger]
        reads_as(bytes@, message) && datagram_taken(
            old(receiver)@,
            message,
            final(receiver)@,
            event,
        );
    assert(reads_as(bytes@, message));
    if message == wire_decoding(bytes@, ByteOrder::Little) {
        assert(message == wire_decoding(bytes@, ByteOrder::Little));
    } else {
        assert(message == wire_decoding(bytes@, ByteOrder::Big));
    }
}

/// The request that a body makes is the message that completed it, with the body for its payload.
pub proof fn law_body_makes_a_request(carrier: Packet, body: Vec<u8>, request: Packet)
    requires
        call_ensures(reassembled, (carrier, body), request),
    ensures
        packet_contents(request).payload == body@,
        packet_contents(request) == (Message {
            payload: packet_contents(request).payload,
            ..packet_contents(carrier)
        }),
{
}

} // verus!
