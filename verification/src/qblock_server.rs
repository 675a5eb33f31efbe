//! The Q-Block transfers that a server takes part in: response bodies that it sends, and request
//! bodies that it receives.
use crate::address::Endpoint;
use crate::body::block_len;
use crate::body::block_size;
use crate::body::lemma_small_sizes;
use crate::config::QBlockConfig;
use crate::config::TransferKind;
use crate::packet::clear_option;
use crate::packet::clone_packet;
use crate::packet::first_block;
use crate::packet::get_option;
use crate::packet::get_token;
use crate::packet::lemma_decoded_block;
use crate::packet::packet_contents;
use crate::packet::payload;
use crate::packet::set_payload;
use crate::packet::set_token;
use crate::packet::set_type;
use crate::packet::spec_size_option;
use crate::packet::Message;
use crate::packet::MessageKind;
use crate::packet::BLOCK2;
use crate::packet::Q_BLOCK1;
use crate::packet::Q_BLOCK2;
use crate::packet::SIZE2;
use crate::range_set::BlockSet;
use crate::receiver::QBlockReceiver;
use crate::receiver::ReceiverState;
use crate::reports::parse_missing_request;
use crate::reports::report_template;
use crate::reports::request_tag_of;
use crate::reports::requested;
use crate::reports::spec_report_template;
use crate::reports::spec_request_tag;
use crate::request::Request;
use crate::request::RequestState;
use crate::sender::QBlockSender;
use crate::sender::SenderState;
use crate::server::Inbound;
use crate::table::copy_bytes;
use crate::table::Table;
use crate::time::as_nanos;
use crate::time::from_nanos;
use crate::time::max_nanos;
use crate::time::nanos;
use crate::time::NANOS_PER_SEC;
use crate::uint::uint_bytes;
use coap_lite::Packet;
use std::time::Duration;
use vstd::prelude::*;

verus! {

/// Default limit on the length of a request body: 16 MiB.
pub const DEFAULT_QBLOCK_MAX_BODY: usize = 16_777_216;

/// Default limit on the number of request bodies that are received at a time. Each holds a
/// buffer, so the two limits together bound the memory that they take.
pub const DEFAULT_QBLOCK_MAX_TRANSFERS: usize = 64;

/// What a [`QBlockServerState`] holds. `S` and `R` stand for what reaches the task of a transfer.
#[verifier::ext_equal]
#[verifier::reject_recursive_types(S)]
#[verifier::reject_recursive_types(R)]
pub struct ServerTransfers<S, R> {
    pub config: QBlockConfig,
    pub max_body_len: usize,
    pub max_transfers: usize,
    /// Response bodies that are being sent, by token.
    pub sends: Map<Seq<u8>, S>,
    /// Request bodies that are being received, by Request-Tag, each with the only source that
    /// its blocks are taken from.
    pub recvs: Map<Seq<u8>, (Endpoint, R)>,
}

/// What becomes of a block of a request body.
#[derive(Debug, Clone, Copy, PartialEq, Eq, Structural)]
pub enum BlockRoute {
    /// It goes to the transfer that is in progress.
    Forward,
    /// It opens a transfer.
    Open,
    /// It is dropped: it is from another source than its transfer, or there are too many
    /// transfers to open one.
    Drop,
}

/// A seed for the delays of a transfer, from its token.
pub open spec fn token_seed(token: Seq<u8>) -> u64
    decreases token.len(),
{
    if token.len() == 0 {
        0
    } else {
        token_seed(token.drop_last()).wrapping_mul(31).wrapping_add(token.last() as u64)
    }
}

/// How long a sender waits for reports of missing blocks, in nanoseconds: as long as a receiver
/// may take for all its rounds at the base timeout, and two more.
pub open spec fn linger_nanos(config: QBlockConfig) -> nat {
    nanos(config.non_receive_timeout) * (config.non_max_retransmit + 2) as nat
}

/// Whether that is a span of time that can be expressed.
pub open spec fn linger_fits(config: QBlockConfig) -> bool {
    &&& config.non_max_retransmit + 2 <= u32::MAX
    &&& linger_nanos(config) <= max_nanos()
}

impl RequestState {
    /// The size of block in which the response is to be sent, if the request asks for blocks and
    /// the response does not fit one.
    pub open spec fn serving(self) -> Option<u8> {
        match (self.message.first_block(Q_BLOCK2), self.response) {
            (Some(block), Some(response)) => if response.payload.len() > block_len(
                block.size_exponent,
            ) {
                Some(block.size_exponent)
            } else {
                None
            },
            _ => None,
        }
    }

    /// What the block messages of the response start from: the response without payload and block
    /// options, non-confirmable, with the token of the request.
    pub open spec fn serving_template(self) -> Message {
        self.response->0.with_payload(Seq::empty()).without_values(Q_BLOCK2).without_values(
            BLOCK2,
        ).without_values(SIZE2).with_kind(MessageKind::NonConfirmable).with_token(
            self.message.token,
        )
    }
}

/// A response body that is to be sent in blocks.
pub struct SendPlan {
    /// The token that reports of missing blocks come with.
    pub token: Vec<u8>,
    pub sender: QBlockSender,
    /// How long to wait for reports once all is sent, if that can be expressed.
    pub linger: Option<Duration>,
}

/// What a server has to do for a datagram.
#[derive(Debug)]
pub enum ServerTask {
    /// Nothing: it is no message.
    Ignore,
    /// A block of the request body with this tag is to be routed.
    Block { packet: Packet, tag: Vec<u8>, route: BlockRoute },
    /// The sender of the response body for this token is to send these blocks again.
    Report { token: Vec<u8>, blocks: Vec<u32> },
    /// A request is to be handled.
    Handle(Request),
}

/// What a [`ServerTask`] stands for.
#[verifier::ext_equal]
pub enum Task {
    Ignore,
    Block { message: Message, tag: Seq<u8>, route: BlockRoute },
    Report { token: Seq<u8>, blocks: Seq<u32> },
    Handle(RequestState),
}

impl View for ServerTask {
    type V = Task;

    open spec fn view(&self) -> Task {
        match self {
            ServerTask::Ignore => Task::Ignore,
            ServerTask::Block { packet, tag, route } => Task::Block {
                message: packet_contents(*packet),
                tag: tag@,
                route: *route,
            },
            ServerTask::Report { token, blocks } => Task::Report { token: token@, blocks: blocks@ },
            ServerTask::Handle(request) => Task::Handle(request@),
        }
    }
}

impl<S, R> ServerTransfers<S, R> {
    /// What to do for a block of a request body.
    pub open spec fn block_task(self, message: Message, source: Endpoint) -> Task {
        let tag = spec_request_tag(message);
        Task::Block { message, tag, route: self.route(tag, source) }
    }

    /// What to do for any other message: a report of missing blocks goes to the response body that
    /// its token names; all else is a request.
    pub open spec fn message_task(self, message: Message, source: Endpoint) -> Task {
        if message.has(Q_BLOCK2) && self.sends.dom().contains(message.token) {
            Task::Report { token: message.token, blocks: requested(message, Q_BLOCK2) }
        } else {
            Task::Handle(RequestState::arrived(message, source))
        }
    }

    /// What to do for a datagram from `source` that reads as `message`.
    pub open spec fn task(self, message: Option<Message>, source: Endpoint) -> Task {
        match message {
            None => Task::Ignore,
            Some(message) => if message.has(Q_BLOCK1) {
                self.block_task(message, source)
            } else {
                self.message_task(message, source)
            },
        }
    }

    /// The number of request bodies stays within its limit.
    pub open spec fn inv(self) -> bool {
        &&& self.recvs.dom().finite()
        &&& self.recvs.dom().len() <= self.max_transfers
    }

    /// What becomes of a block with this tag from this source.
    pub open spec fn route(self, tag: Seq<u8>, source: Endpoint) -> BlockRoute {
        if self.recvs.dom().contains(tag) {
            if self.recvs[tag].0 == source {
                BlockRoute::Forward
            } else {
                BlockRoute::Drop
            }
        } else if self.recvs.dom().len() >= self.max_transfers {
            BlockRoute::Drop
        } else {
            BlockRoute::Open
        }
    }

    /// Without any transfers.
    pub open spec fn fresh(config: QBlockConfig, max_body_len: usize, max_transfers: usize) -> Self {
        ServerTransfers {
            config,
            max_body_len,
            max_transfers,
            sends: Map::empty(),
            recvs: Map::empty(),
        }
    }

    /// The receiver for the request body that a block opens.
    pub open spec fn receiver_for(self, opening: Message) -> ReceiverState {
        ReceiverState {
            option: Q_BLOCK1,
            received: BlockSet::empty(),
            body: Seq::empty(),
            final_len: None,
            total_len: None,
            szx: None,
            retry: 0,
            template: spec_report_template(opening.token, spec_request_tag(opening)),
            max_body_len: self.max_body_len,
            config: self.config,
        }
    }

    /// The sender that a response is given to.
    pub open spec fn sender_for(self, request: RequestState, szx: u8) -> SenderState {
        let body = request.response->0.payload;
        SenderState {
            template: request.serving_template().with_option(
                spec_size_option(Q_BLOCK2),
                uint_bytes(body.len() % 0x1_0000_0000),
            ),
            option: Q_BLOCK2,
            body,
            szx,
            kind: TransferKind::Non,
            config: self.config,
            outstanding: BlockSet::empty(),
            started: false,
            rng: token_seed(request.message.token),
        }
    }
}

/// A seed for the delays of a transfer: the bytes of the token, folded.
fn seed_of(token: &[u8]) -> (seed: u64)
    ensures
        seed == token_seed(token@),
{
    let mut seed: u64 = 0;
    let mut i: usize = 0;
    assert(token@.take(0) =~= Seq::<u8>::empty());
    while i < token.len()
        invariant
            i <= token@.len(),
            seed == token_seed(token@.take(i as int)),
        decreases token@.len() - i,
    {
        proof {
            let taken = token@.take(i + 1);
            assert(taken.drop_last() =~= token@.take(i as int));
            assert(taken.last() == token@[i as int]);
        }
        seed = seed.wrapping_mul(31).wrapping_add(token[i] as u64);
        i += 1;
    }
    assert(token@.take(i as int) =~= token@);
    seed
}

/// How long a sender waits for reports of missing blocks, if that can be expressed.
pub fn linger_of(config: &QBlockConfig) -> (linger: Option<Duration>)
    ensures
        linger is Some == linger_fits(*config),
        linger matches Some(span) ==> nanos(span) == linger_nanos(*config),
{
    if config.non_max_retransmit > u32::MAX - 2 {
        return None;
    }
    let base: u128 = as_nanos(config.non_receive_timeout);
    let rounds: u32 = config.non_max_retransmit + 2;
    proof {
        let b = base as int;
        let r = rounds as int;
        assert(0 <= b * r <= max_nanos() * 0xFFFF_FFFF) by (nonlinear_arith)
            requires
                0 <= b <= max_nanos(),
                0 <= r <= 0xFFFF_FFFF,
        ;
    }
    let linger: u128 = base * rounds as u128;
    if linger <= u64::MAX as u128 * NANOS_PER_SEC + 999_999_999 {
        Some(from_nanos(linger))
    } else {
        None
    }
}

/// The Q-Block transfers of a server. `S` and `R` are what reaches the task of a transfer, for
/// reports of missing blocks and for blocks.
pub struct QBlockServerState<S, R> {
    config: QBlockConfig,
    max_body_len: usize,
    max_transfers: usize,
    sends: Table<S>,
    recvs: Table<(Endpoint, R)>,
}

impl<S, R> View for QBlockServerState<S, R> {
    type V = ServerTransfers<S, R>;

    closed spec fn view(&self) -> ServerTransfers<S, R> {
        ServerTransfers {
            config: self.config,
            max_body_len: self.max_body_len,
            max_transfers: self.max_transfers,
            sends: self.sends@,
            recvs: self.recvs@,
        }
    }
}

impl<S, R> QBlockServerState<S, R> {
    pub closed spec fn wf(&self) -> bool {
        &&& self.sends.wf()
        &&& self.recvs.wf()
        &&& self@.inv()
    }

    /// The number of request bodies stays within its limit.
    pub proof fn lemma_inv(&self)
        requires
            self.wf(),
        ensures
            self@.inv(),
    {
    }

    /// A state with the default limits.
    pub fn new(config: QBlockConfig) -> (state: Self)
        ensures
            state.wf(),
            state@ == ServerTransfers::<S, R>::fresh(
                config,
                DEFAULT_QBLOCK_MAX_BODY,
                DEFAULT_QBLOCK_MAX_TRANSFERS,
            ),
    {
        Self::new_with(config, DEFAULT_QBLOCK_MAX_BODY, DEFAULT_QBLOCK_MAX_TRANSFERS)
    }

    /// A state with these limits.
    pub fn new_with(config: QBlockConfig, max_body_len: usize, max_transfers: usize) -> (state: Self)
        ensures
            state.wf(),
            state@ == ServerTransfers::<S, R>::fresh(config, max_body_len, max_transfers),
    {
        QBlockServerState {
            config,
            max_body_len,
            max_transfers,
            sends: Table::new(),
            recvs: Table::new(),
        }
    }

    /// The settings of transfers.
    pub fn config(&self) -> (config: QBlockConfig)
        ensures
            config == self@.config,
    {
        self.config
    }

    /// Replaces the settings of transfers, and keeps the limits. Transfers are forgotten.
    pub fn set_qblock_config(&mut self, config: QBlockConfig)
        ensures
            final(self).wf(),
            final(self)@ == ServerTransfers::<S, R>::fresh(
                config,
                old(self)@.max_body_len,
                old(self)@.max_transfers,
            ),
    {
        *self = Self::new_with(config, self.max_body_len, self.max_transfers);
    }

    /// Replaces the limit on the length of a request body, and keeps the rest. Transfers are
    /// forgotten.
    pub fn set_qblock_max_body_len(&mut self, max_body_len: usize)
        ensures
            final(self).wf(),
            final(self)@ == ServerTransfers::<S, R>::fresh(
                old(self)@.config,
                max_body_len,
                old(self)@.max_transfers,
            ),
    {
        *self = Self::new_with(self.config, max_body_len, self.max_transfers);
    }

    /// Replaces the limit on the number of request bodies, and keeps the rest. Transfers are
    /// forgotten.
    pub fn set_qblock_max_transfers(&mut self, max_transfers: usize)
        ensures
            final(self).wf(),
            final(self)@ == ServerTransfers::<S, R>::fresh(
                old(self)@.config,
                old(self)@.max_body_len,
                max_transfers,
            ),
    {
        *self = Self::new_with(self.config, self.max_body_len, max_transfers);
    }

    /// If `packet` reports missing blocks of a response body that is being sent, where the report
    /// goes and which blocks it names.
    pub fn route_missing(&self, packet: &Packet) -> (report: Option<(&S, Vec<u32>)>)
        requires
            self.wf(),
        ensures
            ({
                let message = packet_contents(*packet);
                &&& report is Some == (message.has(Q_BLOCK2) && self@.sends.dom().contains(
                    message.token,
                ))
                &&& report matches Some((send, blocks)) ==> *send == self@.sends[message.token]
                    && blocks@ == requested(message, Q_BLOCK2)
            }),
    {
        if get_option(packet, Q_BLOCK2).is_none() {
            return None;
        }
        let token = get_token(packet);
        match self.sends.get(token.as_slice()) {
            Some(send) => Some((send, parse_missing_request(packet, Q_BLOCK2))),
            None => None,
        }
    }

    /// What reaches the response body that is being sent for this token.
    pub fn send_handle(&self, token: &[u8]) -> (handle: Option<&S>)
        requires
            self.wf(),
        ensures
            handle is Some == self@.sends.dom().contains(token@),
            handle matches Some(send) ==> *send == self@.sends[token@],
    {
        self.sends.get(token)
    }

    /// Says what to do for a datagram from `source`.
    pub fn task(&self, inbound: Inbound, source: Endpoint) -> (task: ServerTask)
        requires
            self.wf(),
        ensures
            task@ == (match inbound {
                Inbound::Malformed => Task::Ignore,
                Inbound::RequestBlock(packet) => self@.block_task(packet_contents(packet), source),
                Inbound::Message(packet) => self@.message_task(packet_contents(packet), source),
            }),
    {
        match inbound {
            Inbound::Malformed => ServerTask::Ignore,
            Inbound::RequestBlock(packet) => {
                let tag = request_tag_of(&packet);
                let route = self.route_block(tag.as_slice(), source);
                ServerTask::Block { packet, tag, route }
            },
            Inbound::Message(packet) => {
                match self.route_missing(&packet) {
                    Some((_, blocks)) => ServerTask::Report { token: get_token(&packet), blocks },
                    None => ServerTask::Handle(Request::from_packet(packet, source)),
                }
            },
        }
    }

    /// Plans to send a response in blocks, if the request asks for blocks and the response does
    /// not fit one.
    pub fn plan_send(&self, request: &Request) -> (plan: Option<SendPlan>)
        requires
            self.wf(),
        ensures
            plan is Some == request@.serving() is Some,
            plan matches Some(plan) ==> {
                &&& plan.token@ == request@.message.token
                &&& plan.sender.wf()
                &&& plan.sender@ == self@.sender_for(request@, request@.serving()->0)
                &&& plan.linger is Some == linger_fits(self@.config)
                &&& plan.linger matches Some(linger) ==> nanos(linger) == linger_nanos(
                    self@.config,
                )
            },
    {
        let block = match first_block(&request.message, Q_BLOCK2) {
            Some(block) => block,
            None => return None,
        };
        proof {
            lemma_decoded_block(request@.message.first_value(Q_BLOCK2)->0);
            lemma_small_sizes(block.size_exponent);
        }
        let response = match &request.response {
            Some(response) => response,
            None => return None,
        };
        let szx = block.size_exponent;
        let body = copy_bytes(payload(response).as_slice());
        if body.len() <= block_size(szx) {
            return None;
        }
        let token = get_token(&request.message);
        let mut template = clone_packet(response);
        set_payload(&mut template, Vec::new());
        proof {
            assert(packet_contents(template) == request@.response->0.with_payload(Seq::empty()));
        }
        clear_option(&mut template, Q_BLOCK2);
        clear_option(&mut template, BLOCK2);
        clear_option(&mut template, SIZE2);
        set_type(&mut template, MessageKind::NonConfirmable);
        set_token(&mut template, copy_bytes(token.as_slice()));
        let seed = seed_of(token.as_slice());
        let sender = QBlockSender::new(
            template,
            Q_BLOCK2,
            body,
            szx,
            TransferKind::Non,
            self.config,
            seed,
        );
        Some(SendPlan { token, sender, linger: linger_of(&self.config) })
    }

    /// Notes that a response body is being sent.
    pub fn open_send(&mut self, token: &[u8], send: S)
        requires
            old(self).wf(),
        ensures
            final(self).wf(),
            final(self)@ == (ServerTransfers {
                sends: old(self)@.sends.insert(token@, send),
                ..old(self)@
            }),
    {
        self.sends.insert(copy_bytes(token), send);
    }

    /// Notes that a response body is no longer being sent.
    pub fn close_send(&mut self, token: &[u8])
        requires
            old(self).wf(),
        ensures
            final(self).wf(),
            final(self)@ == (ServerTransfers {
                sends: old(self)@.sends.remove(token@),
                ..old(self)@
            }),
    {
        let _ = self.sends.remove(token);
    }

    /// Says what becomes of a block of the request body with this tag, from this source.
    pub fn route_block(&self, tag: &[u8], source: Endpoint) -> (route: BlockRoute)
        requires
            self.wf(),
        ensures
            route == self@.route(tag@, source),
    {
        match self.recvs.get(tag) {
            Some(entry) => {
                if entry.0 == source {
                    BlockRoute::Forward
                } else {
                    BlockRoute::Drop
                }
            },
            None => {
                if self.recvs.len() >= self.max_transfers {
                    BlockRoute::Drop
                } else {
                    BlockRoute::Open
                }
            },
        }
    }

    /// What reaches the transfer with this tag.
    pub fn recv_handle(&self, tag: &[u8]) -> (handle: Option<&R>)
        requires
            self.wf(),
        ensures
            handle is Some == self@.recvs.dom().contains(tag@),
            handle matches Some(recv) ==> *recv == self@.recvs[tag@].1,
    {
        match self.recvs.get(tag) {
            Some(entry) => Some(&entry.1),
            None => None,
        }
    }

    /// Opens a transfer for a request body. Blocks of it are taken from `source` only.
    pub fn open_recv(&mut self, tag: &[u8], source: Endpoint, recv: R)
        requires
            old(self).wf(),
            old(self)@.route(tag@, source) == BlockRoute::Open,
        ensures
            final(self).wf(),
            final(self)@ == (ServerTransfers {
                recvs: old(self)@.recvs.insert(tag@, (source, recv)),
                ..old(self)@
            }),
    {
        let ghost before = self.recvs@;
        self.recvs.insert(copy_bytes(tag), (source, recv));
        assert(self.recvs@.dom() =~= before.dom().insert(tag@));
    }

    /// Notes that a request body is complete or given up.
    pub fn close_recv(&mut self, tag: &[u8])
        requires
            old(self).wf(),
        ensures
            final(self).wf(),
            final(self)@ == (ServerTransfers {
                recvs: old(self)@.recvs.remove(tag@),
                ..old(self)@
            }),
    {
        let ghost before = self.recvs@;
        let _ = self.recvs.remove(tag);
        proof {
            assert(self.recvs@.dom() =~= before.dom().remove(tag@));
            assert(before.dom().remove(tag@).len() <= before.dom().len());
        }
    }

    /// The receiver for the request body that a block opens.
    pub fn receiver_for(&self, opening: &Packet) -> (receiver: QBlockReceiver)
        requires
            self.wf(),
        ensures
            receiver.wf(),
            receiver@ == self@.receiver_for(packet_contents(*opening)),
    {
        let tag = request_tag_of(opening);
        let template = report_template(get_token(opening), tag.as_slice());
        QBlockReceiver::new(Q_BLOCK1, template, self.max_body_len, self.config)
    }
}

} // verus!
