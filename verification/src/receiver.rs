//! The receiving side of a transfer: blocks put together to a body, and requests for the ones
//! that are missing.
use crate::body::block_count;
use crate::body::block_len;
use crate::body::block_size;
use crate::body::count_blocks;
use crate::body::lemma_block_count;
use crate::body::lemma_small_sizes;
use crate::config::QBlockConfig;
use crate::config::QBlockError;
use crate::missing_blocks::cbor_sequence;
use crate::missing_blocks::encode;
use crate::packet::add_block_option;
use crate::packet::add_u16_option;
use crate::packet::block_bytes;
use crate::packet::block_for;
use crate::packet::clone_packet;
use crate::packet::first_block;
use crate::packet::first_u32;
use crate::packet::lemma_decoded_block;
use crate::packet::new_block;
use crate::packet::packet_contents;
use crate::packet::payload;
use crate::packet::set_code;
use crate::packet::set_payload;
use crate::packet::size_option;
use crate::packet::spec_size_option;
use crate::packet::BlockValue;
use crate::packet::Message;
use crate::packet::CONTENT_FORMAT;
use crate::packet::MISSING_BLOCKS_CBOR_SEQ;
use crate::packet::Q_BLOCK1;
use crate::packet::Q_BLOCK2;
use crate::packet::REQUEST_ENTITY_INCOMPLETE;
use crate::range_set::BlockSet;
use crate::range_set::RangeSet;
use crate::time::as_nanos;
use crate::time::from_nanos;
use crate::time::max_nanos;
use crate::time::nanos;
use crate::time::NANOS_PER_SEC;
use crate::uint::uint_bytes;
use coap_lite::Packet;
use std::time::Duration;
use vstd::arithmetic::power2::pow2;
use vstd::bits::lemma_u32_pow2_no_overflow;
use vstd::bits::lemma_u32_shl_is_mul;
use vstd::prelude::*;

verus! {

/// What became of one message that was fed to a [`QBlockReceiver`].
#[derive(Debug, Clone, PartialEq, Eq)]
pub enum BlockOutcome {
    /// The block was recorded; the body is still incomplete.
    Accepted,
    /// The body is complete.
    Complete(Vec<u8>),
    /// The block could not be tracked, because there are too many gaps or it lies beyond the
    /// known end. Its payload was not written.
    Dropped,
    /// The message carries no block of this transfer.
    NotQBlock,
}

/// What a [`BlockOutcome`] stands for.
#[verifier::ext_equal]
pub enum Outcome {
    Accepted,
    Complete(Seq<u8>),
    Dropped,
    NotQBlock,
}

impl View for BlockOutcome {
    type V = Outcome;

    open spec fn view(&self) -> Outcome {
        match self {
            BlockOutcome::Accepted => Outcome::Accepted,
            BlockOutcome::Complete(body) => Outcome::Complete(body@),
            BlockOutcome::Dropped => Outcome::Dropped,
            BlockOutcome::NotQBlock => Outcome::NotQBlock,
        }
    }
}

/// Whether a returned outcome is the stated one.
pub open spec fn same_outcome(
    returned: Result<BlockOutcome, QBlockError>,
    stated: Result<Outcome, QBlockError>,
) -> bool {
    match (returned, stated) {
        (Ok(outcome), Ok(view)) => outcome@ == view,
        (Err(e), Err(f)) => e == f,
        _ => false,
    }
}

/// What the recovery timer wants done for a stalled transfer.
#[derive(Debug, PartialEq)]
pub enum RecoveryOutcome {
    /// Nothing is due; ask again after this long.
    Wait(Duration),
    /// Send this request for missing blocks; a round has been counted.
    Resend(Packet),
    /// All rounds are spent; give the partial body up.
    Expired,
}

impl Clone for RecoveryOutcome {
    fn clone(&self) -> (copy: RecoveryOutcome)
        ensures
            match (*self, copy) {
                (RecoveryOutcome::Wait(a), RecoveryOutcome::Wait(b)) => a == b,
                (RecoveryOutcome::Resend(a), RecoveryOutcome::Resend(b)) => packet_contents(a)
                    == packet_contents(b),
                (RecoveryOutcome::Expired, RecoveryOutcome::Expired) => true,
                _ => false,
            },
    {
        match self {
            RecoveryOutcome::Wait(span) => RecoveryOutcome::Wait(*span),
            RecoveryOutcome::Resend(packet) => RecoveryOutcome::Resend(clone_packet(packet)),
            RecoveryOutcome::Expired => RecoveryOutcome::Expired,
        }
    }
}

/// A buffer with `payload` written at `offset`, grown with zeros as far as needed.
pub open spec fn written(buffer: Seq<u8>, offset: nat, payload: Seq<u8>) -> Seq<u8> {
    let end = offset + payload.len();
    let len = if buffer.len() < end {
        end
    } else {
        buffer.len()
    };
    Seq::new(
        len,
        |i: int|
            if offset <= i < end {
                payload[i - offset]
            } else if i < buffer.len() {
                buffer[i]
            } else {
                0
            },
    )
}

/// What a [`QBlockReceiver`] holds.
#[verifier::ext_equal]
pub struct ReceiverState {
    /// The option that names a block.
    pub option: u16,
    /// The blocks received so far.
    pub received: BlockSet,
    /// The bytes received so far, each at its place in the body.
    pub body: Seq<u8>,
    /// The length of the body, once its last block was received.
    pub final_len: Option<usize>,
    /// The length of the body that the sender announced.
    pub total_len: Option<u32>,
    /// The size exponent of the blocks, once a block was seen.
    pub szx: Option<u8>,
    /// The rounds of asking for missing blocks since the last recorded block.
    pub retry: u32,
    /// What a request for missing blocks starts from.
    pub template: Message,
    pub max_body_len: usize,
    pub config: QBlockConfig,
}

/// A message with one more Q-Block2 option for each of `blocks`.
pub open spec fn with_block_requests(message: Message, blocks: Seq<u32>, size: nat) -> Message
    decreases blocks.len(),
{
    if blocks.len() == 0 {
        message
    } else {
        with_block_requests(message, blocks.drop_last(), size).with_option(
            Q_BLOCK2,
            block_bytes(block_for(blocks.last() as nat, false, size)->0),
        )
    }
}

impl ReceiverState {
    /// Block sizes are those of a block option, and the buffer stays within the limit.
    pub open spec fn inv(self) -> bool {
        &&& self.szx matches Some(szx) ==> szx < 8
        &&& self.body.len() <= self.max_body_len
    }

    /// With the block size and the announced length noted, as far as they were not known.
    pub open spec fn learned(self, block: BlockValue, size: Option<u32>) -> ReceiverState {
        ReceiverState {
            szx: if self.szx is None {
                Some(block.size_exponent)
            } else {
                self.szx
            },
            total_len: if self.total_len is None {
                size
            } else {
                self.total_len
            },
            ..self
        }
    }

    /// With a block recorded and its payload written.
    pub open spec fn stored(self, block: BlockValue, payload: Seq<u8>) -> ReceiverState {
        let offset = block.num as nat * block_len(block.size_exponent);
        ReceiverState {
            received: self.received.with(block.num as u32, block.more),
            body: written(self.body, offset, payload),
            final_len: if block.more {
                self.final_len
            } else {
                Some((offset + payload.len()) as usize)
            },
            retry: 0,
            ..self
        }
    }

    /// The body as it is handed out.
    pub open spec fn assembled(self) -> Seq<u8> {
        match self.final_len {
            Some(len) => if len <= self.body.len() {
                self.body.take(len as int)
            } else {
                self.body
            },
            None => self.body,
        }
    }

    /// What a block with its announced body length and payload does.
    pub open spec fn step(
        self,
        block: BlockValue,
        size: Option<u32>,
        payload: Seq<u8>,
    ) -> (ReceiverState, Result<Outcome, QBlockError>) {
        let end = block.num as nat * block_len(block.size_exponent) + payload.len();
        if self.szx is Some && self.szx != Some(block.size_exponent) {
            (self, Err(QBlockError::SizeChanged))
        } else if end > self.max_body_len {
            (self.learned(block, size), Err(QBlockError::BodyTooLong))
        } else if !self.received.admits(block.num as u32) {
            (self.learned(block, size), Ok(Outcome::Dropped))
        } else {
            let stored = self.learned(block, size).stored(block, payload);
            if stored.received.complete() {
                (
                    ReceiverState { body: Seq::empty(), ..stored },
                    Ok(Outcome::Complete(stored.assembled())),
                )
            } else {
                (stored, Ok(Outcome::Accepted))
            }
        }
    }

    /// What a message does.
    pub open spec fn receive(self, message: Message) -> (
        ReceiverState,
        Result<Outcome, QBlockError>,
    ) {
        match message.first_block(self.option) {
            Some(block) => self.step(
                block,
                message.first_u32(spec_size_option(self.option)),
                message.payload,
            ),
            None => (self, Ok(Outcome::NotQBlock)),
        }
    }

    /// The number of the last block: from the last block itself if it was received, else from
    /// the announced length.
    pub open spec fn last_block(self, size: nat) -> Option<u32> {
        match self.received.total {
            Some(total) => Some((total - 1) as u32),
            None => match self.total_len {
                Some(len) => Some((block_count(len as nat, size) - 1) as u32),
                None => None,
            },
        }
    }

    /// The blocks to ask for: the first missing ones, at most `MAX_PAYLOADS`. None where
    /// nothing is known to be missing.
    pub open spec fn wanted(self) -> Option<Seq<u32>> {
        match self.szx {
            Some(szx) => match self.last_block(block_len(szx)) {
                Some(last) => {
                    let missing = self.received.missing(last);
                    if missing.len() == 0 {
                        None
                    } else if missing.len() <= self.config.max_payloads {
                        Some(missing)
                    } else {
                        Some(missing.take(self.config.max_payloads as int))
                    }
                },
                None => None,
            },
            None => None,
        }
    }

    /// The request for missing blocks: for a response body one Q-Block2 option per block, for a
    /// request body a 4.08 response that lists the blocks. None where nothing is known to be
    /// missing, or a block option cannot name a block.
    pub open spec fn recovery_message(self) -> Option<Message> {
        match self.wanted() {
            Some(wanted) => if self.option == Q_BLOCK2 {
                if forall|i: int| 0 <= i < wanted.len() ==> (#[trigger] wanted[i]) < 0x1_0000 {
                    Some(with_block_requests(self.template, wanted, block_len(self.szx->0)))
                } else {
                    None
                }
            } else if self.option == Q_BLOCK1 {
                Some(
                    self.template.with_code(REQUEST_ENTITY_INCOMPLETE).with_option(
                        CONTENT_FORMAT,
                        uint_bytes(MISSING_BLOCKS_CBOR_SEQ as nat),
                    ).with_payload(cbor_sequence(wanted)),
                )
            } else {
                None
            },
            None => None,
        }
    }

    /// How long after the last activity the next request is due, in nanoseconds: the base
    /// timeout, doubled by every round.
    pub open spec fn deadline(self) -> nat {
        nanos(self.config.non_receive_timeout) * pow2(self.retry as nat)
    }

    /// Whether the deadline is a span of time that can be expressed.
    pub open spec fn deadline_fits(self) -> bool {
        &&& self.retry < 32
        &&& self.deadline() <= max_nanos()
    }

    /// Whether `outcome` is what is due `since_activity` after the last activity: to wait while
    /// the deadline is ahead; then to give up if all rounds are spent, or else to ask for the
    /// missing blocks, or to wait for more if nothing is known to be missing.
    pub open spec fn polled(self, since_activity: Duration, outcome: RecoveryOutcome) -> bool {
        if nanos(since_activity) < self.deadline() {
            outcome matches RecoveryOutcome::Wait(span) && nanos(span) == self.deadline() - nanos(
                since_activity,
            )
        } else if self.retry >= self.config.non_max_retransmit {
            outcome is Expired
        } else {
            match self.recovery_message() {
                Some(message) => outcome matches RecoveryOutcome::Resend(packet)
                    && packet_contents(packet) == message,
                None => outcome matches RecoveryOutcome::Wait(span) && nanos(span) == nanos(
                    self.config.non_receive_timeout,
                ),
            }
        }
    }

    /// The receiver after a poll: a request counts as a round.
    pub open spec fn after_poll(self, outcome: RecoveryOutcome) -> ReceiverState {
        if outcome is Resend {
            self.asked()
        } else {
            self
        }
    }

    /// With one more round counted.
    pub open spec fn asked(self) -> ReceiverState {
        ReceiverState { retry: (self.retry + 1) as u32, ..self }
    }
}

/// Reassembles one body that arrives as Q-Block blocks.
pub struct QBlockReceiver {
    option: u16,
    rec_blocks: RangeSet,
    body: Vec<u8>,
    final_len: Option<usize>,
    total_len: Option<u32>,
    szx: Option<u8>,
    retry: u32,
    recovery_template: Packet,
    max_body_len: usize,
    config: QBlockConfig,
}

impl View for QBlockReceiver {
    type V = ReceiverState;

    closed spec fn view(&self) -> ReceiverState {
        ReceiverState {
            option: self.option,
            received: self.rec_blocks@,
            body: self.body@,
            final_len: self.final_len,
            total_len: self.total_len,
            szx: self.szx,
            retry: self.retry,
            template: packet_contents(self.recovery_template),
            max_body_len: self.max_body_len,
            config: self.config,
        }
    }
}

impl QBlockReceiver {
    pub closed spec fn wf(&self) -> bool {
        &&& self.rec_blocks.wf()
        &&& self@.inv()
    }

    /// Block sizes are those of a block option, and the buffer stays within the limit.
    pub proof fn lemma_inv(&self)
        requires
            self.wf(),
        ensures
            self@.inv(),
    {
    }

    /// A receiver for blocks that carry `option`. Requests for missing blocks are built from
    /// `recovery_template`; no body longer than `max_body_len` is accepted.
    pub fn new(
        option: u16,
        recovery_template: Packet,
        max_body_len: usize,
        config: QBlockConfig,
    ) -> (receiver: QBlockReceiver)
        ensures
            receiver.wf(),
            receiver@ == (ReceiverState {
                option,
                received: BlockSet::empty(),
                body: Seq::empty(),
                final_len: None,
                total_len: None,
                szx: None,
                retry: 0,
                template: packet_contents(recovery_template),
                max_body_len,
                config,
            }),
    {
        QBlockReceiver {
            option,
            rec_blocks: RangeSet::new(),
            body: Vec::new(),
            final_len: None,
            total_len: None,
            szx: None,
            retry: 0,
            recovery_template,
            max_body_len,
            config,
        }
    }

    /// The blocks received so far.
    pub fn rec_blocks(&self) -> (blocks: &RangeSet)
        requires
            self.wf(),
        ensures
            blocks.wf(),
            blocks@ == self@.received,
    {
        &self.rec_blocks
    }

    /// Whether the whole body was received.
    pub fn is_complete(&self) -> (complete: bool)
        requires
            self.wf(),
        ensures
            complete == self@.received.complete(),
    {
        self.rec_blocks.is_complete()
    }

    /// Feeds one message: takes its block option and its payload, and records the block.
    pub fn accept(&mut self, pdu: &Packet) -> (outcome: Result<BlockOutcome, QBlockError>)
        requires
            old(self).wf(),
        ensures
            final(self).wf(),
            final(self)@ == old(self)@.receive(packet_contents(*pdu)).0,
            same_outcome(outcome, old(self)@.receive(packet_contents(*pdu)).1),
    {
        match first_block(pdu, self.option) {
            None => Ok(BlockOutcome::NotQBlock),
            Some(block) => {
                proof {
                    let message = packet_contents(*pdu);
                    lemma_decoded_block(message.first_value(self.option)->0);
                }
                let size = first_u32(pdu, size_option(self.option));
                self.accept_block(block, size, payload(pdu).as_slice())
            },
        }
    }

    /// Feeds one block: `size` is the length of the body that came with it, if one did.
    pub fn accept_block(&mut self, block: BlockValue, size: Option<u32>, payload: &[u8]) -> (outcome:
        Result<BlockOutcome, QBlockError>)
        requires
            old(self).wf(),
            block.size_exponent < 8,
        ensures
            final(self).wf(),
            final(self)@ == old(self)@.step(block, size, payload@).0,
            same_outcome(outcome, old(self)@.step(block, size, payload@).1),
    {
        match self.szx {
            Some(szx) => {
                if szx != block.size_exponent {
                    return Err(QBlockError::SizeChanged);
                }
            },
            None => {
                self.szx = Some(block.size_exponent);
            },
        }
        if self.total_len.is_none() {
            self.total_len = size;
        }
        let ghost learned = self@;
        assert(learned == old(self)@.learned(block, size));
        proof {
            lemma_small_sizes(block.size_exponent);
            let num = block.num as int;
            let len = block_len(block.size_exponent) as int;
            assert(0 <= num * len <= 0xFFFF * 2048) by (nonlinear_arith)
                requires
                    0 <= num <= 0xFFFF,
                    0 <= len <= 2048,
            ;
        }
        let offset: usize = block.num as usize * block_size(block.size_exponent);
        if offset > self.max_body_len || payload.len() > self.max_body_len - offset {
            return Err(QBlockError::BodyTooLong);
        }
        let end: usize = offset + payload.len();
        if !self.rec_blocks.insert(block.num as u32, block.more) {
            return Ok(BlockOutcome::Dropped);
        }
        self.retry = 0;
        self.write(offset, payload);
        if !block.more {
            self.final_len = Some(end);
        }
        let ghost stored = learned.stored(block, payload@);
        assert(self@ == stored);
        if self.rec_blocks.is_complete() {
            let mut body: Vec<u8> = Vec::new();
            std::mem::swap(&mut body, &mut self.body);
            if let Some(len) = self.final_len {
                body.truncate(len);
            }
            return Ok(BlockOutcome::Complete(body));
        }
        Ok(BlockOutcome::Accepted)
    }

    /// Writes `payload` at `offset`, growing the buffer with zeros as far as needed.
    fn write(&mut self, offset: usize, payload: &[u8])
        requires
            old(self).rec_blocks.wf(),
            offset + payload@.len() <= old(self).max_body_len,
            old(self)@.inv(),
        ensures
            final(self).wf(),
            final(self).rec_blocks == old(self).rec_blocks,
            final(self)@ == (ReceiverState {
                body: written(old(self)@.body, offset as nat, payload@),
                ..old(self)@
            }),
    {
        let end: usize = offset + payload.len();
        let ghost before = self.body@;
        if self.body.len() < end {
            self.body.resize(end, 0);
            assert(self.body@.subrange(0, before.len() as int) =~= before);
            assert(forall|i: int|
                0 <= i < before.len() ==> self.body@[i] == self.body@.subrange(
                    0,
                    before.len() as int,
                )[i]);
        }
        let ghost grown = self.body@;
        let mut i: usize = 0;
        while i < payload.len()
            invariant
                i <= payload@.len(),
                end == offset + payload@.len(),
                end <= grown.len(),
                self.body@.len() == grown.len(),
                forall|k: int|
                    0 <= k < grown.len() ==> #[trigger] self.body@[k] == (if offset <= k < offset
                        + i {
                        payload@[k - offset]
                    } else {
                        grown[k]
                    }),
                self@ == (ReceiverState { body: self.body@, ..old(self)@ }),
                self.rec_blocks == old(self).rec_blocks,
            decreases payload@.len() - i,
        {
            self.body.set(offset + i, payload[i]);
            i += 1;
        }
        assert(self.body@ =~= written(before, offset as nat, payload@));
    }

    /// The number of the last block of the body, as far as it is known.
    fn final_block(&self, block_size: usize) -> (last: Option<u32>)
        requires
            self.wf(),
            block_size > 0,
        ensures
            last == self@.last_block(block_size as nat),
    {
        if let Some(total) = self.rec_blocks.total_blocks() {
            return Some(total - 1);
        }
        match self.total_len {
            Some(len) => {
                let count = count_blocks(len as usize, block_size);
                proof {
                    lemma_block_count(len as nat, block_size as nat);
                    let l = len as int;
                    let s = block_size as int;
                    if l > 0 {
                        assert((l - 1) / s <= l - 1) by (nonlinear_arith)
                            requires
                                l >= 1,
                                s >= 1,
                        ;
                    }
                }
                Some((count - 1) as u32)
            },
            None => None,
        }
    }

    /// A request for the blocks that are missing, at most `MAX_PAYLOADS` of them. There is none
    /// while the length of the body is unknown.
    pub fn build_recovery_request(&self) -> (request: Option<Packet>)
        requires
            self.wf(),
        ensures
            request is Some == self@.recovery_message() is Some,
            request matches Some(packet) ==> self@.recovery_message() == Some(
                packet_contents(packet),
            ),
    {
        let szx = match self.szx {
            Some(szx) => szx,
            None => return None,
        };
        proof {
            lemma_small_sizes(szx);
        }
        let size = block_size(szx);
        let last = match self.final_block(size) {
            Some(last) => last,
            None => return None,
        };
        let mut missing = self.rec_blocks.missing(last);
        if missing.len() == 0 {
            return None;
        }
        missing.truncate(self.config.max_payloads as usize);
        let ghost wanted = missing@;
        assert(self@.wanted() == Some(wanted));
        let mut pdu = clone_packet(&self.recovery_template);
        if self.option == Q_BLOCK2 {
            let mut i: usize = 0;
            assert(wanted.take(0) =~= Seq::<u32>::empty());
            while i < missing.len()
                invariant
                    i <= missing@.len(),
                    missing@ == wanted,
                    self@.wanted() == Some(wanted),
                    self@.option == Q_BLOCK2,
                    self@.szx == Some(szx),
                    size == block_len(szx),
                    16 <= size <= 2048,
                    forall|k: int| 0 <= k < i ==> (#[trigger] wanted[k]) < 0x1_0000,
                    packet_contents(pdu) == with_block_requests(
                        self@.template,
                        wanted.take(i as int),
                        size as nat,
                    ),
                decreases missing@.len() - i,
            {
                let block = match new_block(missing[i] as usize, false, size) {
                    Ok(block) => block,
                    Err(_) => {
                        assert(wanted[i as int] >= 0x1_0000);
                        return None;
                    },
                };
                add_block_option(&mut pdu, Q_BLOCK2, block);
                i += 1;
                proof {
                    let taken = wanted.take(i as int);
                    assert(taken.drop_last() =~= wanted.take(i - 1));
                    assert(taken.last() == wanted[i - 1]);
                }
            }
            assert(wanted.take(i as int) =~= wanted);
            Some(pdu)
        } else if self.option == Q_BLOCK1 {
            set_code(&mut pdu, REQUEST_ENTITY_INCOMPLETE);
            add_u16_option(&mut pdu, CONTENT_FORMAT, MISSING_BLOCKS_CBOR_SEQ);
            set_payload(&mut pdu, encode(missing.as_slice()));
            Some(pdu)
        } else {
            None
        }
    }

    /// How long after the last activity the next request is due, if that can be expressed.
    pub fn next_deadline(&self) -> (deadline: Option<Duration>)
        ensures
            deadline is Some == self@.deadline_fits(),
            deadline matches Some(span) ==> nanos(span) == self@.deadline(),
    {
        if self.retry >= 32 {
            return None;
        }
        proof {
            lemma_u32_pow2_no_overflow(self.retry as nat);
            lemma_u32_shl_is_mul(1, self.retry);
        }
        let rounds: u32 = 1u32 << self.retry;
        let base: u128 = as_nanos(self.config.non_receive_timeout);
        proof {
            let b = base as int;
            let r = rounds as int;
            assert(0 <= b * r <= max_nanos() * 0xFFFF_FFFF) by (nonlinear_arith)
                requires
                    0 <= b <= max_nanos(),
                    0 <= r <= 0xFFFF_FFFF,
            ;
        }
        let deadline: u128 = base * rounds as u128;
        if deadline <= u64::MAX as u128 * NANOS_PER_SEC + 999_999_999 {
            Some(from_nanos(deadline))
        } else {
            None
        }
    }

    /// What to do `since_activity` after the last accepted block or the last request.
    pub fn poll_recovery(&mut self, since_activity: Duration) -> (outcome: RecoveryOutcome)
        requires
            old(self).wf(),
            old(self)@.deadline_fits(),
        ensures
            final(self).wf(),
            old(self)@.polled(since_activity, outcome),
            final(self)@ == old(self)@.after_poll(outcome),
    {
        proof {
            lemma_u32_pow2_no_overflow(self.retry as nat);
            lemma_u32_shl_is_mul(1, self.retry);
        }
        let rounds: u32 = 1u32 << self.retry;
        let deadline: u128 = as_nanos(self.config.non_receive_timeout) * rounds as u128;
        let since: u128 = as_nanos(since_activity);
        if since < deadline {
            return RecoveryOutcome::Wait(from_nanos(deadline - since));
        }
        if self.retry >= self.config.non_max_retransmit {
            return RecoveryOutcome::Expired;
        }
        match self.build_recovery_request() {
            Some(pdu) => {
                self.retry = self.retry + 1;
                RecoveryOutcome::Resend(pdu)
            },
            None => RecoveryOutcome::Wait(self.config.non_receive_timeout),
        }
    }
}

} // verus!
