//! The decisions of the loops that drive a transfer. The loops themselves wait and do I/O; they
//! hand in what happened and carry out what is decided here.
use crate::config::QBlockError;
use crate::packet::contents_of;
use crate::packet::from_bytes;
use crate::packet::packet_contents;
use crate::packet::reads_as;
use crate::packet::set_payload;
use crate::packet::spells;
use crate::packet::to_bytes;
use crate::packet::wire_encoding;
use crate::packet::Message;
use crate::receiver::BlockOutcome;
use crate::receiver::Outcome;
use crate::receiver::QBlockReceiver;
use crate::receiver::ReceiverState;
use crate::receiver::RecoveryOutcome;
use crate::sender::QBlockSender;
use crate::sender::SenderState;
use crate::time::nanos;
use coap_lite::Packet;
use std::time::Duration;
use vstd::prelude::*;

verus! {

/// What a sender waits for after a burst.
#[derive(Debug, Clone, Copy, PartialEq, Eq, Structural)]
pub enum SendWait {
    /// Blocks are left: wait for the delay between bursts.
    Pace,
    /// All is sent: wait for the peer to report missing blocks.
    Linger,
}

/// What ended the wait of a sender.
#[derive(Debug, PartialEq, Eq)]
pub enum SendEvent {
    /// The peer reported missing blocks.
    Missing(Vec<u32>),
    /// No more reports can come.
    Closed,
    /// The time is up.
    Elapsed,
}

/// What a receiver has to do when its recovery timer is looked at.
#[derive(Debug, PartialEq, Eq)]
pub enum ReceiveTick {
    /// Look again after this long.
    Wait(Duration),
    /// Send these bytes, a request for missing blocks.
    Send(Vec<u8>),
    /// Give the body up.
    GiveUp,
}

/// What a sender does after a wait.
#[derive(Debug, Clone, Copy, PartialEq, Eq, Structural)]
pub enum SendNext {
    /// Send the next burst.
    Burst,
    /// Wait for what is left of the delay between bursts; no more reports can come.
    KeepPausing,
    /// The transfer is over.
    Finish,
}

/// What a datagram did to a receiver.
#[derive(Debug, PartialEq)]
pub enum ReceiveEvent {
    /// It is no message, or brought no block that was recorded. It counts for nothing.
    Ignored,
    /// It brought a block that was recorded; the time since the last activity starts anew.
    Activity,
    /// It completed the body. The message that did comes with it.
    Complete(Vec<u8>, Packet),
}

impl SenderState {
    /// What to wait for after a burst.
    pub open spec fn wait(self) -> SendWait {
        if self.started && self.idle() {
            SendWait::Linger
        } else {
            SendWait::Pace
        }
    }

    /// The sender after a wait.
    pub open spec fn resumed(self, event: SendEvent) -> SenderState {
        match event {
            SendEvent::Missing(blocks) => self.refilled(blocks@),
            _ => self,
        }
    }
}

/// What to wait for after a burst.
pub fn send_wait(sender: &QBlockSender) -> (wait: SendWait)
    requires
        sender.wf(),
    ensures
        wait == sender@.wait(),
{
    if sender.is_done() {
        SendWait::Linger
    } else {
        SendWait::Pace
    }
}

/// What a sender does after a wait: a report of missing blocks is answered by a burst; a pause
/// between bursts otherwise lasts its time, though no more reports can come; and a sender that has
/// sent all is done when nothing was reported in time.
pub open spec fn next_after(wait: SendWait, event: SendEvent) -> SendNext {
    match (event, wait) {
        (SendEvent::Missing(_), _) => SendNext::Burst,
        (_, SendWait::Linger) => SendNext::Finish,
        (SendEvent::Closed, SendWait::Pace) => SendNext::KeepPausing,
        (SendEvent::Elapsed, SendWait::Pace) => SendNext::Burst,
    }
}

/// Takes in what ended a wait, and says what is next. That no more reports can come does not end
/// the pause between bursts.
pub fn resume_send(sender: &mut QBlockSender, wait: SendWait, event: SendEvent) -> (next: SendNext)
    requires
        old(sender).wf(),
    ensures
        final(sender).wf(),
        final(sender)@ == old(sender)@.resumed(event),
        next == next_after(wait, event),
{
    match event {
        SendEvent::Missing(blocks) => {
            sender.refill(blocks.as_slice());
            SendNext::Burst
        },
        SendEvent::Closed => match wait {
            SendWait::Pace => SendNext::KeepPausing,
            SendWait::Linger => SendNext::Finish,
        },
        SendEvent::Elapsed => match wait {
            SendWait::Pace => SendNext::Burst,
            SendWait::Linger => SendNext::Finish,
        },
    }
}

impl ReceiverState {
    /// The request that is due `since_activity` after the last activity, if one is.
    pub open spec fn due(self, since_activity: Duration) -> Option<Message> {
        if nanos(since_activity) < self.deadline() || self.retry
            >= self.config.non_max_retransmit {
            None
        } else {
            self.recovery_message()
        }
    }

    /// The receiver after its timer was looked at: a request that is due counts as a round.
    pub open spec fn after_tick(self, since_activity: Duration) -> ReceiverState {
        if self.due(since_activity) is Some {
            self.asked()
        } else {
            self
        }
    }

    /// Whether `tick` is what the timer asks for.
    pub open spec fn ticked(
        self,
        since_activity: Duration,
        tick: Result<ReceiveTick, QBlockError>,
    ) -> bool {
        match self.due(since_activity) {
            Some(message) => match wire_encoding(message) {
                Some(bytes) => {
                    &&& tick matches Ok(ReceiveTick::Send(sent)) && sent@ == bytes
                    &&& spells(bytes, message)
                },
                None => tick matches Err(QBlockError::Encode(_)),
            },
            None => if nanos(since_activity) < self.deadline() {
                tick matches Ok(ReceiveTick::Wait(span)) && nanos(span) == self.deadline() - nanos(
                    since_activity,
                )
            } else if self.retry >= self.config.non_max_retransmit {
                tick matches Ok(ReceiveTick::GiveUp)
            } else {
                tick matches Ok(ReceiveTick::Wait(span)) && nanos(span) == nanos(
                    self.config.non_receive_timeout,
                )
            },
        }
    }
}

/// Looks at the recovery timer of a receiver, `since_activity` after the last recorded block or
/// request.
pub fn receive_tick(receiver: &mut QBlockReceiver, since_activity: Duration) -> (tick: Result<
    ReceiveTick,
    QBlockError,
>)
    requires
        old(receiver).wf(),
        old(receiver)@.deadline_fits(),
    ensures
        final(receiver).wf(),
        final(receiver)@ == old(receiver)@.after_tick(since_activity),
        old(receiver)@.ticked(since_activity, tick),
{
    match receiver.poll_recovery(since_activity) {
        RecoveryOutcome::Wait(span) => Ok(ReceiveTick::Wait(span)),
        RecoveryOutcome::Resend(request) => match to_bytes(&request) {
            Ok(bytes) => Ok(ReceiveTick::Send(bytes)),
            Err(e) => Err(QBlockError::Encode(e)),
        },
        RecoveryOutcome::Expired => Ok(ReceiveTick::GiveUp),
    }
}

/// What a datagram that reads as `message` does to a receiver.
pub open spec fn datagram_taken(
    before: ReceiverState,
    message: Option<Message>,
    after: ReceiverState,
    event: Result<ReceiveEvent, QBlockError>,
) -> bool {
    match message {
        None => event matches Ok(ReceiveEvent::Ignored) && after == before,
        Some(message) => {
            let (state, outcome) = before.receive(message);
            &&& after == state
            &&& match outcome {
                Ok(Outcome::Complete(body)) => {
                    &&& event matches Ok(ReceiveEvent::Complete(whole, carrier))
                    &&& whole@ == body
                    &&& packet_contents(carrier) == message
                },
                Ok(Outcome::Accepted) => event matches Ok(ReceiveEvent::Activity),
                Ok(_) => event matches Ok(ReceiveEvent::Ignored),
                Err(e) => event matches Err(f) && f == e,
            }
        },
    }
}

/// Feeds a message to a receiver, or none where a datagram held none.
pub fn receive_message(receiver: &mut QBlockReceiver, packet: Option<Packet>) -> (event: Result<
    ReceiveEvent,
    QBlockError,
>)
    requires
        old(receiver).wf(),
    ensures
        final(receiver).wf(),
        datagram_taken(old(receiver)@, contents_of(packet), final(receiver)@, event),
{
    match packet {
        None => Ok(ReceiveEvent::Ignored),
        Some(packet) => match receiver.accept(&packet) {
            Ok(BlockOutcome::Complete(body)) => Ok(ReceiveEvent::Complete(body, packet)),
            Ok(BlockOutcome::Accepted) => Ok(ReceiveEvent::Activity),
            Ok(_) => Ok(ReceiveEvent::Ignored),
            Err(e) => Err(e),
        },
    }
}

/// Feeds a datagram to a receiver. One that is no message is ignored, and so is one that brings no
/// block that is recorded.
pub fn receive_datagram(receiver: &mut QBlockReceiver, bytes: &[u8]) -> (event: Result<
    ReceiveEvent,
    QBlockError,
>)
    requires
        old(receiver).wf(),
    ensures
        final(receiver).wf(),
        exists|message: Option<Message>| #[trigger]
            reads_as(bytes@, message) && datagram_taken(
                old(receiver)@,
                message,
                final(receiver)@,
                event,
            ),
{
    let packet = from_bytes(bytes);
    let ghost message = contents_of(packet);
    assert(reads_as(bytes@, message));
    receive_message(receiver, packet)
}

/// The request that a completed body makes: the message that completed it, with the whole body as
/// its payload.
pub fn reassembled(carrier: Packet, body: Vec<u8>) -> (request: Packet)
    ensures
        packet_contents(request) == packet_contents(carrier).with_payload(body@),
{
    let mut request = carrier;
    set_payload(&mut request, body);
    request
}

} // verus!
