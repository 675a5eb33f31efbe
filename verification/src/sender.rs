//! The sending side of a transfer: a body drained as bursts of non-confirmable blocks.
use crate::body::block_count;
use crate::body::block_len;
use crate::body::block_of;
use crate::body::block_size;
use crate::body::count_blocks;
use crate::body::lemma_block_bounds;
use crate::body::szx_fits;
use crate::config::QBlockConfig;
use crate::config::QBlockError;
use crate::config::QBlockErrorKind;
use crate::config::TransferKind;
use crate::packet::add_block_option;
use crate::packet::add_u32_option;
use crate::packet::block_bytes;
use crate::packet::block_for;
use crate::packet::clone_packet;
use crate::packet::new_block;
use crate::packet::packet_contents;
use crate::packet::set_payload;
use crate::packet::size_option;
use crate::packet::spec_size_option;
use crate::packet::spells;
use crate::packet::to_bytes;
use crate::packet::wire_encoding;
use crate::packet::BlockValue;
use crate::packet::Message;
use crate::range_set::blocks_below;
use crate::range_set::is_least;
use crate::range_set::least;
use crate::range_set::lemma_below_finite;
use crate::range_set::lemma_run_count_below;
use crate::range_set::BlockSet;
use crate::range_set::RangeSet;
use crate::uint::uint_bytes;
use coap_lite::Packet;
use vstd::prelude::*;
use vstd::set_lib::lemma_set_subset_finite;

verus! {

/// What a [`QBlockSender`] holds.
#[verifier::ext_equal]
pub struct SenderState {
    /// What every block message starts from.
    pub template: Message,
    /// The option that names a block.
    pub option: u16,
    pub body: Seq<u8>,
    /// The size exponent of the blocks.
    pub szx: u8,
    pub kind: TransferKind,
    pub config: QBlockConfig,
    /// The blocks still to send.
    pub outstanding: BlockSet,
    /// Whether the body was queued.
    pub started: bool,
    /// The state of the random number generator.
    pub rng: u64,
}

/// What a burst did: the sender after it, the blocks it sent with their bytes, and whether it
/// ended well.
#[verifier::ext_equal]
pub struct Burst {
    pub state: SenderState,
    pub blocks: Seq<u32>,
    pub pdus: Seq<Seq<u8>>,
    pub ok: bool,
}

/// The increment of the splitmix64 generator.
pub const SPLITMIX_GAMMA: u64 = 0x9E37_79B9_7F4A_7C15;

/// The splitmix64 output for a generator state.
pub open spec fn splitmix_output(state: u64) -> u64 {
    let a = (state ^ (state >> 30)).wrapping_mul(0xBF58_476D_1CE4_E5B9);
    let b = (a ^ (a >> 27)).wrapping_mul(0x94D0_49BB_1331_11EB);
    b ^ (b >> 31)
}

/// A set of blocks after each of `blocks` that lies within the body was offered to it in turn.
pub open spec fn queued(set: BlockSet, blocks: Seq<u32>, total: u32) -> BlockSet
    decreases blocks.len(),
{
    if blocks.len() == 0 {
        set
    } else {
        let before = queued(set, blocks.drop_last(), total);
        let n = blocks.last();
        if n < total {
            before.offered(n, n + 1 < total)
        } else {
            before
        }
    }
}

impl SenderState {
    /// How many blocks the body spans, in 32 bits.
    pub open spec fn total(self) -> u32 {
        (block_count(self.body.len(), block_len(self.szx)) % 0x1_0000_0000) as u32
    }

    /// Only blocks of the body are to send; once the body was queued its length is known.
    pub open spec fn inv(self) -> bool {
        &&& szx_fits(self.szx)
        &&& forall|n: u32| #[trigger] self.outstanding.blocks.contains(n) ==> n < self.total()
        &&& !self.started ==> self.outstanding == BlockSet::empty()
        &&& self.started && self.total() > 0 ==> self.outstanding.total == Some(self.total())
    }

    /// With the whole body queued, unless that was done before.
    pub open spec fn begun(self) -> SenderState {
        if self.started {
            self
        } else {
            SenderState {
                outstanding: BlockSet {
                    blocks: blocks_below(self.total()),
                    total: if self.total() == 0 {
                        None
                    } else {
                        Some(self.total())
                    },
                },
                started: true,
                ..self
            }
        }
    }

    /// Without block `n` among those to send.
    pub open spec fn sent(self, n: u32) -> SenderState {
        SenderState { outstanding: self.outstanding.without(n), ..self }
    }

    /// With the blocks that the peer reports missing queued.
    pub open spec fn refilled(self, blocks: Seq<u32>) -> SenderState {
        SenderState {
            outstanding: queued(self.begun().outstanding, blocks, self.total()),
            ..self.begun()
        }
    }

    /// Whether there is nothing to send.
    pub open spec fn idle(self) -> bool {
        self.outstanding.blocks =~= Set::<u32>::empty()
    }

    /// The option that names block `n`, where one can.
    pub open spec fn block(self, n: u32) -> Option<BlockValue> {
        block_for(n as nat, n + 1 < self.total(), block_len(self.szx))
    }

    /// The message for block `n`, named by `block`.
    pub open spec fn block_message(self, n: u32, block: BlockValue) -> Message {
        self.template.with_option(self.option, block_bytes(block)).with_payload(
            block_of(self.body, block_len(self.szx), n as nat),
        )
    }

    /// The bytes to send for block `n`, where the block can be named and the message encoded.
    pub open spec fn pdu(self, n: u32) -> Option<Seq<u8>> {
        match self.block(n) {
            Some(block) => wire_encoding(self.block_message(n, block)),
            None => None,
        }
    }

    /// Whether `bytes` read as the message for block `n` on every machine that can read it.
    pub open spec fn reads_back(self, n: u32, bytes: Seq<u8>) -> bool {
        spells(bytes, self.block_message(n, self.block(n)->0))
    }

    /// What kind of error it is that block `n` has no bytes to send.
    pub open spec fn pdu_error(self, n: u32) -> QBlockErrorKind {
        if self.block(n) is None {
            QBlockErrorKind::InvalidInput
        } else {
            QBlockErrorKind::InvalidData
        }
    }

    /// A burst of at most `limit` blocks: the lowest ones to send, in ascending order, up to the
    /// first that cannot be sent.
    pub open spec fn burst(self, limit: nat) -> Burst
        decreases limit,
    {
        if limit == 0 || self.idle() {
            Burst { state: self, blocks: Seq::empty(), pdus: Seq::empty(), ok: true }
        } else {
            let n = least(self.outstanding.blocks);
            match self.pdu(n) {
                Some(pdu) => {
                    let rest = self.sent(n).burst((limit - 1) as nat);
                    Burst { blocks: seq![n] + rest.blocks, pdus: seq![pdu] + rest.pdus, ..rest }
                },
                None => Burst {
                    state: self,
                    blocks: Seq::empty(),
                    pdus: Seq::empty(),
                    ok: false,
                },
            }
        }
    }
}

/// Drives the transmission of one body as Q-Block bursts.
pub struct QBlockSender {
    template: Packet,
    option: u16,
    body: Vec<u8>,
    szx: u8,
    kind: TransferKind,
    config: QBlockConfig,
    outstanding: RangeSet,
    started: bool,
    rng: u64,
}

impl View for QBlockSender {
    type V = SenderState;

    closed spec fn view(&self) -> SenderState {
        SenderState {
            template: packet_contents(self.template),
            option: self.option,
            body: self.body@,
            szx: self.szx,
            kind: self.kind,
            config: self.config,
            outstanding: self.outstanding@,
            started: self.started,
            rng: self.rng,
        }
    }
}

impl QBlockSender {
    pub closed spec fn wf(&self) -> bool {
        &&& self.outstanding.wf()
        &&& self@.inv()
    }

    /// Only blocks of the body are to send, and a body that was queued has its length noted.
    pub proof fn lemma_inv(&self)
        requires
            self.wf(),
        ensures
            self@.inv(),
            self@.outstanding.blocks.finite(),
    {
        lemma_below_finite(self@.total() as nat);
        lemma_set_subset_finite(blocks_below(self@.total()), self@.outstanding.blocks);
    }

    /// A sender for `body` in blocks of the size that `szx` stands for. `template` carries the
    /// type, code, token and further options of every block message, but no block option and no
    /// payload; the length of the body is added to it. `seed` seeds the delay between bursts.
    pub fn new(
        template: Packet,
        option: u16,
        body: Vec<u8>,
        szx: u8,
        kind: TransferKind,
        config: QBlockConfig,
        seed: u64,
    ) -> (sender: QBlockSender)
        requires
            szx_fits(szx),
        ensures
            sender.wf(),
            sender@ == (SenderState {
                template: packet_contents(template).with_option(
                    spec_size_option(option),
                    uint_bytes(body@.len() % 0x1_0000_0000),
                ),
                option,
                body: body@,
                szx,
                kind,
                config,
                outstanding: BlockSet::empty(),
                started: false,
                rng: seed,
            }),
    {
        let mut template = template;
        let len: usize = body.len();
        let len32: u32 = low32(len);
        add_u32_option(&mut template, size_option(option), len32);
        QBlockSender {
            template,
            option,
            body,
            szx,
            kind,
            config,
            outstanding: RangeSet::new(),
            started: false,
            rng: seed,
        }
    }

    /// The settings of the transfer.
    pub fn config(&self) -> (config: QBlockConfig)
        ensures
            config == self@.config,
    {
        self.config
    }

    /// How the blocks of the transfer are sent.
    pub fn kind(&self) -> (kind: TransferKind)
        ensures
            kind == self@.kind,
    {
        self.kind
    }

    /// How many blocks the body spans.
    pub fn total_blocks(&self) -> (total: u32)
        requires
            self.wf(),
        ensures
            total == self@.total(),
    {
        let size = block_size(self.szx);
        low32(count_blocks(self.body.len(), size))
    }

    /// The bytes to send for block `n` of `total`.
    pub fn build_block(&self, n: u32, total: u32) -> (pdu: Result<Vec<u8>, QBlockError>)
        requires
            self.wf(),
            total == self@.total(),
            n < total,
        ensures
            pdu matches Ok(bytes) ==> self@.pdu(n) == Some(bytes@) && self@.reads_back(n, bytes@),
            pdu is Ok == self@.pdu(n) is Some,
            pdu matches Err(e) ==> e.spec_kind() == self@.pdu_error(n),
    {
        let size = block_size(self.szx);
        let len = self.body.len();
        proof {
            let count = block_count(len as nat, size as nat);
            assert(count % 0x1_0000_0000 <= count);
            lemma_block_bounds(len as nat, size as nat, n as nat);
        }
        let start: usize = n as usize * size;
        let end: usize = if len - start >= size {
            start + size
        } else {
            len
        };
        let block = match new_block(n as usize, n + 1 < total, size) {
            Ok(block) => block,
            Err(e) => return Err(QBlockError::Block(e)),
        };
        let mut pdu = clone_packet(&self.template);
        add_block_option(&mut pdu, self.option, block);
        set_payload(&mut pdu, copy_range(&self.body, start, end));
        match to_bytes(&pdu) {
            Ok(bytes) => Ok(bytes),
            Err(e) => Err(QBlockError::Encode(e)),
        }
    }

    /// The next number of the splitmix64 sequence of the seed.
    pub fn next_rand(&mut self) -> (z: u64)
        requires
            old(self).wf(),
        ensures
            final(self).wf(),
            final(self)@ == (SenderState {
                rng: old(self)@.rng.wrapping_add(SPLITMIX_GAMMA),
                ..old(self)@
            }),
            z == splitmix_output(final(self)@.rng),
    {
        self.rng = self.rng.wrapping_add(SPLITMIX_GAMMA);
        let mut z: u64 = self.rng;
        z = (z ^ (z >> 30)).wrapping_mul(0xBF58_476D_1CE4_E5B9);
        z = (z ^ (z >> 27)).wrapping_mul(0x94D0_49BB_1331_11EB);
        z ^ (z >> 31)
    }

    /// The random part of the next delay between bursts, in units of 2^-53.
    pub fn jitter(&mut self) -> (fraction: u64)
        requires
            old(self).wf(),
        ensures
            final(self).wf(),
            final(self)@ == (SenderState {
                rng: old(self)@.rng.wrapping_add(SPLITMIX_GAMMA),
                ..old(self)@
            }),
            fraction == splitmix_output(final(self)@.rng) >> 11,
            fraction < 0x20_0000_0000_0000,
    {
        let z = self.next_rand();
        assert(z >> 11 < 0x20_0000_0000_0000) by (bit_vector);
        z >> 11
    }

    /// How many blocks a burst holds.
    pub fn burst_limit(&self) -> (limit: u32)
        requires
            self@.kind == TransferKind::Non,
        ensures
            limit == self@.config.max_payloads,
    {
        self.config.max_payloads
    }

    /// Queues the whole body, unless that was done before.
    fn ensure_started(&mut self)
        requires
            old(self).wf(),
        ensures
            final(self).wf(),
            final(self)@ == old(self)@.begun(),
    {
        if self.started {
            return ;
        }
        let total = self.total_blocks();
        let mut n: u32 = 0;
        assert(self.outstanding@.blocks =~= blocks_below(0));
        while n < total
            invariant
                n <= total,
                total == self@.total(),
                self@ == (SenderState { outstanding: self.outstanding@, ..old(self)@ }),
                self.outstanding.wf(),
                !self.started,
                self.outstanding@.blocks == blocks_below(n),
                self.outstanding@.total == (if n < total || total == 0 {
                    None::<u32>
                } else {
                    Some(total)
                }),
            decreases total - n,
        {
            proof {
                lemma_run_count_below(n);
            }
            self.outstanding.insert(n, n + 1 < total);
            n += 1;
            assert(self.outstanding@.blocks =~= blocks_below(n));
        }
        self.started = true;
    }

    /// Whether the body was queued and every block of it sent.
    pub fn is_done(&self) -> (done: bool)
        requires
            self.wf(),
        ensures
            done == (self@.started && self@.idle()),
    {
        self.started && self.outstanding.is_empty()
    }

    /// Queues the blocks that the peer reports missing. Numbers beyond the body are ignored.
    pub fn refill(&mut self, blocks: &[u32])
        requires
            old(self).wf(),
        ensures
            final(self).wf(),
            final(self)@ == old(self)@.refilled(blocks@),
    {
        self.ensure_started();
        let total = self.total_blocks();
        let ghost begun = self@;
        let mut i: usize = 0;
        assert(blocks@.take(0) =~= Seq::<u32>::empty());
        while i < blocks.len()
            invariant
                i <= blocks@.len(),
                self.wf(),
                begun.started,
                begun.total() == total,
                self@ == (SenderState {
                    outstanding: queued(begun.outstanding, blocks@.take(i as int), total),
                    ..begun
                }),
            decreases blocks@.len() - i,
        {
            let n = blocks[i];
            let ghost before = self@;
            if n < total {
                self.outstanding.insert(n, n + 1 < total);
            }
            i += 1;
            proof {
                let taken = blocks@.take(i as int);
                assert(taken.drop_last() =~= blocks@.take(i - 1));
                assert(taken.last() == n);
            }
        }
        assert(blocks@.take(i as int) =~= blocks@);
    }

    /// The next block of a burst in which `sent` blocks were sent: its number and its bytes.
    /// Nothing is left to do once the burst is full or there is nothing to send. The caller
    /// reports the block with [`mark_sent`](Self::mark_sent) when it is out.
    pub fn next_block(&mut self, sent: u32) -> (next: Result<Option<(u32, Vec<u8>)>, QBlockError>)
        requires
            old(self).wf(),
            old(self)@.kind == TransferKind::Non,
        ensures
            final(self).wf(),
            final(self)@ == old(self)@.begun(),
            ({
                let s = final(self)@;
                let n = least(s.outstanding.blocks);
                if sent >= s.config.max_payloads || s.idle() {
                    next matches Ok(None)
                } else if s.pdu(n) is Some {
                    next matches Ok(Some((m, bytes))) && m == n && s.pdu(n) == Some(bytes@)
                        && s.reads_back(n, bytes@)
                } else {
                    next matches Err(e) && e.spec_kind() == s.pdu_error(n)
                }
            }),
            next matches Ok(Some((n, _))) ==> is_least(final(self)@.outstanding.blocks, n),
    {
        self.ensure_started();
        let total = self.total_blocks();
        if sent >= self.burst_limit() {
            return Ok(None);
        }
        match self.outstanding.first() {
            None => Ok(None),
            Some(n) => match self.build_block(n, total) {
                Ok(pdu) => Ok(Some((n, pdu))),
                Err(e) => Err(e),
            },
        }
    }

    /// Notes that block `n` was sent.
    pub fn mark_sent(&mut self, n: u32)
        requires
            old(self).wf(),
        ensures
            final(self).wf(),
            final(self)@ == old(self)@.sent(n),
    {
        self.outstanding.remove(n);
        assert(Set::<u32>::empty().remove(n) =~= Set::<u32>::empty());
    }

    /// Moves the next burst into `sink`: the lowest `MAX_PAYLOADS` blocks to send, in order.
    /// Returns how many blocks that were.
    pub fn drain_burst(&mut self, sink: &mut Vec<Vec<u8>>) -> (sent: Result<u32, QBlockError>)
        requires
            old(self).wf(),
            old(self)@.kind == TransferKind::Non,
        ensures
            final(self).wf(),
            ({
                let burst = old(self)@.begun().burst(old(self)@.config.max_payloads as nat);
                &&& final(self)@ == burst.state
                &&& final(sink)@.len() == old(sink)@.len() + burst.pdus.len()
                &&& forall|i: int| 0 <= i < old(sink)@.len() ==> final(sink)@[i] == old(sink)@[i]
                &&& forall|i: int|
                    0 <= i < burst.pdus.len() ==> (#[trigger] final(sink)@[old(sink)@.len()
                        + i])@ == burst.pdus[i]
                &&& forall|i: int|
                    0 <= i < burst.pdus.len() ==> old(self)@.reads_back(
                        burst.blocks[i],
                        #[trigger] burst.pdus[i],
                    )
                &&& sent is Ok == burst.ok
                &&& sent matches Ok(count) ==> count == burst.pdus.len()
            }),
            sent matches Err(e) ==> e.spec_kind() == final(self)@.pdu_error(
                least(final(self)@.outstanding.blocks),
            ),
    {
        self.ensure_started();
        let limit = self.burst_limit();
        let ghost all = self@.burst(limit as nat);
        let ghost base = sink@.len();
        proof {
            law_burst_is_limited(self@, limit as nat);
        }
        let mut sent: u32 = 0;
        loop
            invariant
                self.wf(),
                self@.started,
                self@.kind == TransferKind::Non,
                self@.config == old(self)@.config,
                limit == self@.config.max_payloads,
                sent <= limit,
                base == old(sink)@.len(),
                sink@.len() == base + sent,
                sent <= all.pdus.len(),
                all.blocks.len() == all.pdus.len(),
                self@ == (SenderState { outstanding: self@.outstanding, ..old(self)@.begun() }),
                forall|i: int|
                    0 <= i < sent ==> old(self)@.reads_back(all.blocks[i], #[trigger] all.pdus[i]),
                forall|i: int| 0 <= i < base ==> sink@[i] == old(sink)@[i],
                forall|i: int| 0 <= i < sent ==> (#[trigger] sink@[base + i])@ == all.pdus[i],
                ({
                    let rest = self@.burst((limit - sent) as nat);
                    &&& all.state == rest.state
                    &&& all.ok == rest.ok
                    &&& all.blocks.skip(sent as int) =~= rest.blocks
                    &&& all.pdus.skip(sent as int) =~= rest.pdus
                }),
                all == old(self)@.begun().burst(limit as nat),
            decreases limit - sent,
        {
            match self.next_block(sent) {
                Ok(None) => {
                    return Ok(sent);
                },
                Ok(Some((n, pdu))) => {
                    let ghost before = self@;
                    let ghost rest = before.burst((limit - sent) as nat);
                    sink.push(pdu);
                    self.mark_sent(n);
                    proof {
                        let next = self@.burst((limit - sent - 1) as nat);
                        assert(rest.pdus =~= seq![pdu@] + next.pdus);
                        assert(rest.blocks =~= seq![n] + next.blocks);
                        assert(all.blocks.skip(sent as int)[0] == n);
                        assert(all.blocks.skip(sent + 1) =~= all.blocks.skip(sent as int).skip(1));
                        assert(rest.blocks.skip(1) =~= next.blocks);
                        assert(all.pdus[sent as int] == all.pdus.skip(sent as int)[0]);
                        assert(all.blocks[sent as int] == all.blocks.skip(sent as int)[0]);
                        assert(all.pdus.skip(sent as int)[0] == pdu@);
                        assert(all.pdus.skip(sent + 1) =~= all.pdus.skip(sent as int).skip(1));
                        assert(rest.pdus.skip(1) =~= next.pdus);
                        assert(sink@[base + sent]@ == all.pdus[sent as int]);
                    }
                    sent += 1;
                },
                Err(e) => {
                    return Err(e);
                },
            }
        }
    }
}

/// A burst sends one message for each block, and no more than its limit.
pub proof fn law_burst_is_limited(state: SenderState, limit: nat)
    ensures
        state.burst(limit).blocks.len() == state.burst(limit).pdus.len(),
        state.burst(limit).pdus.len() <= limit,
    decreases limit,
{
    if limit > 0 && !state.idle() {
        let n = least(state.outstanding.blocks);
        if state.pdu(n) is Some {
            law_burst_is_limited(state.sent(n), (limit - 1) as nat);
        }
    }
}

/// The low 32 bits of a number.
fn low32(n: usize) -> (low: u32)
    ensures
        low == n as nat % 0x1_0000_0000,
{
    (n as u64 % 0x1_0000_0000) as u32
}

/// A copy of `bytes[from..to]`.
pub(crate) fn copy_range(bytes: &Vec<u8>, from: usize, to: usize) -> (copy: Vec<u8>)
    requires
        from <= to <= bytes@.len(),
    ensures
        copy@ == bytes@.subrange(from as int, to as int),
{
    let mut copy: Vec<u8> = Vec::new();
    let mut i: usize = from;
    while i < to
        invariant
            from <= i <= to <= bytes@.len(),
            copy@ == bytes@.subrange(from as int, i as int),
        decreases to - i,
    {
        copy.push(bytes[i]);
        i += 1;
    }
    copy
}

} // verus!
