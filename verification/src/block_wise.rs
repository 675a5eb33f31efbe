//! Block-wise transfers with one block per exchange, which the `coap_lite` crate handles.
use crate::address::EndpointKey;
use crate::body::block_len;
use crate::body::block_of;
use crate::packet::block_bytes;
use crate::packet::block_for;
use crate::packet::clone_packet;
use crate::packet::first_block;
use crate::packet::get_option;
use crate::packet::packet_contents;
use crate::packet::set_payload;
use crate::packet::to_bytes;
use crate::packet::wire_encoding;
use crate::packet::BlockValue;
use crate::packet::Message;
use crate::packet::BLOCK1;
use crate::packet::BLOCK2;
use crate::request::BlockFailure;
use crate::request::Request;
use crate::request::RequestState;
use crate::server::URI_PATH;
use crate::time::as_nanos;
use crate::time::nanos;
use coap_lite::BlockHandler;
use coap_lite::BlockHandlerConfig;
use coap_lite::CoapRequest;
use coap_lite::CoapResponse;
use coap_lite::MessageClass;
use coap_lite::Packet;
use std::time::Duration;
use vstd::prelude::*;
use vstd::utf8::valid_utf8;

verus! {

/// The longest time that a cached response may be kept: 2^32 seconds, in nanoseconds. Points in
/// time that far ahead can be expressed.
pub const MAX_CACHE_EXPIRY: u128 = 4_294_967_296_000_000_000;

/// Response code 2.31, Continue.
pub const CONTINUE: u8 = 0x5F;

/// Response code 4.00, Bad Request.
pub const BAD_REQUEST: u8 = 0x80;

/// Response code 4.13, Request Entity Too Large.
pub const REQUEST_ENTITY_TOO_LARGE: u8 = 0x8D;

/// Response code 5.00, Internal Server Error.
pub const INTERNAL_SERVER_ERROR: u8 = 0xA0;

/// The room that block-wise handling keeps for block options in a message.
pub const BLOCK_OPTIONS_ROOM: usize = 12;

/// How far a block may end behind the part of the body that is there.
pub const MAX_BODY_GAP: usize = 16384;

/// What stands for the method of a message that is no request.
pub const NO_METHOD: u8 = 0xFF;

/// The type of the block-wise handler.
#[verifier::external_type_specification]
#[verifier::external_body]
#[verifier::reject_recursive_types(Peer)]
pub struct ExBlockHandler<Peer: Ord + Clone>(coap_lite::BlockHandler<Peer>);

/// What tells exchanges apart: the method, the path and the peer.
#[verifier::ext_equal]
pub struct Exchange {
    /// The code of the method, or one number for all that is no method.
    pub method: u8,
    /// The segments of the path. A path with a segment that is no text counts as none.
    pub path: Seq<Seq<u8>>,
    pub peer: Option<EndpointKey>,
}

/// What block-wise handling remembers of an exchange.
#[verifier::ext_equal]
pub struct Memory {
    /// The block of the response that the peer named, if its last request named one.
    pub asked: Option<BlockValue>,
    /// The response that the peer may fetch more blocks of.
    pub response: Option<Message>,
    /// The body of the request, as far as it has come in.
    pub body: Seq<u8>,
}

impl Memory {
    /// What is remembered of an exchange that is new, or forgotten.
    pub open spec fn nothing() -> Memory {
        Memory { asked: None, response: None, body: Seq::empty() }
    }
}

impl RequestState {
    /// The source of a request in numbers, if it is known.
    pub open spec fn peer(self) -> Option<EndpointKey> {
        match self.source {
            Some(source) => Some(source.spec_key()),
            None => None,
        }
    }

    /// The exchange that a request belongs to.
    pub open spec fn exchange(self) -> Exchange {
        let path = self.message.values(URI_PATH);
        Exchange {
            method: if self.message.role is Request {
                self.message.code
            } else {
                NO_METHOD
            },
            path: if forall|i: int| 0 <= i < path.len() ==> valid_utf8(#[trigger] path[i]) {
                path
            } else {
                Seq::empty()
            },
            peer: self.peer(),
        }
    }
}

/// The largest message that a block-wise handler lets through in one piece.
pub uninterp spec fn message_limit(handler: BlockHandler<EndpointKey>) -> usize;

/// How long a block-wise handler remembers an exchange after its last use, in nanoseconds.
pub uninterp spec fn cache_expiry(handler: BlockHandler<EndpointKey>) -> nat;

/// What a block-wise handler remembers of each exchange.
pub uninterp spec fn remembered(handler: BlockHandler<EndpointKey>) -> Map<Exchange, Memory>;

/// The text with which `BlockHandler::intercept_response` says why it failed on a response, for a
/// peer that named this block of it.
pub uninterp spec fn failure_text(
    response: Message,
    asked: Option<BlockValue>,
    limit: usize,
) -> Seq<u8>;

/// No exchange is remembered.
pub open spec fn no_memory() -> Map<Exchange, Memory> {
    Map::empty()
}

/// Whether `seen` may be what comes to mind of an exchange: what is remembered of it, or nothing,
/// since it may be forgotten at any time.
pub open spec fn recalled(memory: Map<Exchange, Memory>, exchange: Exchange, seen: Memory) -> bool {
    seen == Memory::nothing() || (memory.dom().contains(exchange) && memory[exchange] == seen)
}

/// Whether `later` is what may be left of a memory after one of its exchanges has come to `now`:
/// that exchange is remembered, and other exchanges are as they were, or forgotten.
pub open spec fn retained(
    memory: Map<Exchange, Memory>,
    later: Map<Exchange, Memory>,
    exchange: Exchange,
    now: Memory,
) -> bool {
    &&& later.dom().contains(exchange)
    &&& forall|other: Exchange| #[trigger]
        later.dom().contains(other) ==> if other == exchange {
            later[other] == now
        } else {
            memory.dom().contains(other) && later[other] == memory[other]
        }
}

/// The length of a message on the wire without its payload, if it can be encoded.
pub open spec fn head_len(message: Message) -> Option<nat> {
    match wire_encoding(message.with_payload(Seq::empty())) {
        Some(bytes) => Some(bytes.len()),
        None => None,
    }
}

/// How many bytes of payload a message has room for, where its head leaves any room.
pub open spec fn room(message: Message, limit: usize) -> Option<nat> {
    match head_len(message) {
        Some(len) => if len + BLOCK_OPTIONS_ROOM <= limit {
            Some((limit - len - BLOCK_OPTIONS_ROOM) as nat)
        } else {
            None
        },
        None => None,
    }
}

/// Whether the payload of a message takes up all the room there is for it, or more.
pub open spec fn oversized(message: Message, limit: usize) -> bool {
    head_len(message) matches Some(len) && len + BLOCK_OPTIONS_ROOM + message.payload.len()
        >= limit
}

/// Whether block-wise handling can size up a request: its head can be encoded, and does not take
/// up exactly all of the room while a block size is to be negotiated.
pub open spec fn request_fits(message: Message, limit: usize) -> bool {
    head_len(message) matches Some(len) && (len + BLOCK_OPTIONS_ROOM == limit
        ==> message.first_block(BLOCK1) is None)
}

/// Whether a response is none of block-wise handling's business: there is none, or it names a
/// block already.
pub open spec fn response_passes(response: Option<Message>) -> bool {
    response matches Some(message) ==> message.has(BLOCK2)
}

/// Whether block-wise handling can size up a response: its head can be encoded. One that names a
/// block already is not looked at.
pub open spec fn response_fits(response: Option<Message>) -> bool {
    response_passes(response) || head_len(response->0) is Some
}

/// Whether a response has a head that takes up exactly all of the room.
pub open spec fn lacks_room(response: Option<Message>, limit: usize) -> bool {
    !response_passes(response) && room(response->0, limit) == Some(0nat)
}

/// A block at the same place as `block` in a body, in blocks that a message has room for.
pub open spec fn fitted(message: Message, block: BlockValue, limit: usize) -> Option<BlockValue> {
    match room(message, limit) {
        Some(room) => {
            let asked = block_len(block.size_exponent);
            let size = if asked <= room {
                asked
            } else {
                room
            };
            let start = block.num as nat * asked;
            block_for(start / size, start + size < message.payload.len(), size)
        },
        None => None,
    }
}

/// The first block of a body, as large as a message has room for.
pub open spec fn first_fitted(message: Message, limit: usize) -> Option<BlockValue> {
    match room(message, limit) {
        Some(room) => block_for(0, true, room),
        None => None,
    }
}

/// A body with a block written over its bytes from `start` to `end`. A body that is shorter is
/// filled up with zeros first.
pub open spec fn overwritten(body: Seq<u8>, start: nat, end: nat, block: Seq<u8>) -> Seq<u8> {
    let filled = if body.len() < end {
        body + Seq::new((end - body.len()) as nat, |i: int| 0u8)
    } else {
        body
    };
    filled.take(start as int) + block + filled.skip(end as int)
}

impl Message {
    /// The message with one block of a payload, named by its only Block2 option.
    pub open spec fn showing(self, payload: Seq<u8>, block: BlockValue) -> Message {
        let size = block_len(block.size_exponent);
        let named = BlockValue { more: block.num * size + size < payload.len(), ..block };
        Message {
            options: self.options.insert(BLOCK2, seq![block_bytes(named)]),
            payload: block_of(payload, size, block.num as nat),
            ..self
        }
    }

    /// The message with the version, type, code and options of another. Options that the other
    /// does not have stay.
    pub open spec fn dressed_as(self, other: Message) -> Message {
        Message {
            first: ((other.first / 16) * 16 + self.first % 16) as u8,
            code: other.code,
            role: other.role,
            options: self.options.union_prefer_right(other.options),
            ..self
        }
    }
}

/// Whether a payload has a block.
pub open spec fn has_block(payload: Seq<u8>, block: BlockValue) -> bool {
    block.num * block_len(block.size_exponent) < payload.len()
}

/// Whether a block of a payload is followed by another.
pub open spec fn has_more(payload: Seq<u8>, block: BlockValue) -> bool {
    block.num * block_len(block.size_exponent) + block_len(block.size_exponent) < payload.len()
}

/// What block-wise handling says of a request.
pub enum Verdict {
    /// It goes on to the handler.
    PassedOn,
    /// It is answered.
    Answered,
    /// It cannot be answered.
    Failed,
}

/// What block-wise handling makes of a request: what it says of it, the request and its response,
/// and what is remembered of the exchange.
#[verifier::ext_equal]
pub struct RequestOutcome {
    pub verdict: Verdict,
    pub request: RequestState,
    pub memory: Memory,
}

/// What becomes of a request that names no block of its body and is too large: it is answered with
/// 4.13 and the block size to use. It fails where no block fits, or no response can be given.
pub open spec fn too_large(request: RequestState, memory: Memory, limit: usize) -> RequestOutcome {
    match (request.response, first_fitted(request.message, limit)) {
        (Some(response), Some(block)) => RequestOutcome {
            verdict: Verdict::Answered,
            request: RequestState {
                response: Some(
                    response.with_option(BLOCK1, block_bytes(block)).with_code(
                        REQUEST_ENTITY_TOO_LARGE,
                    ),
                ),
                ..request
            },
            memory,
        },
        _ => RequestOutcome { verdict: Verdict::Failed, request, memory },
    }
}

/// What becomes of a request apart from the block of its body that it may name. If it names a block
/// of a response that is kept for the exchange, it is answered with that block, and the response is
/// forgotten with its last block; it fails where there is no such block, or no response can be
/// given. Any other request is passed on. Either way it is remembered which block it names.
pub open spec fn fetched(request: RequestState, memory: Memory) -> RequestOutcome {
    let asked = request.message.first_block(BLOCK2);
    let later = Memory { asked, ..memory };
    match (asked, memory.response) {
        (Some(block), Some(kept)) => match request.response {
            Some(response) => if has_block(kept.payload, block) {
                RequestOutcome {
                    verdict: Verdict::Answered,
                    request: RequestState {
                        response: Some(response.dressed_as(kept).showing(kept.payload, block)),
                        ..request
                    },
                    memory: if has_more(kept.payload, block) {
                        later
                    } else {
                        Memory { response: None, ..later }
                    },
                }
            } else {
                RequestOutcome {
                    verdict: Verdict::Failed,
                    request: RequestState { response: Some(response.dressed_as(kept)), ..request },
                    memory: later,
                }
            },
            None => RequestOutcome { verdict: Verdict::Failed, request, memory: later },
        },
        _ => RequestOutcome { verdict: Verdict::PassedOn, request, memory: later },
    }
}

/// What becomes of a request that names a block of its body. The block is written into the body
/// that is remembered. If more are to come, the request is answered with 2.31; if not, it goes on
/// with the body for its payload. The response names the block. The request fails, and nothing is
/// written, where no block size fits, or where the block ends too far behind the body; it also
/// fails where no response can be given.
pub open spec fn uploaded(
    request: RequestState,
    memory: Memory,
    limit: usize,
    block: BlockValue,
) -> RequestOutcome {
    let size = block_len(block.size_exponent);
    let start = block.num as nat * size;
    let body = overwritten(memory.body, start, start + size, request.message.payload);
    let fit = fitted(request.message, block, limit);
    if fit is None || start + size > memory.body.len() + MAX_BODY_GAP {
        RequestOutcome { verdict: Verdict::Failed, request, memory }
    } else if block.more {
        let later = Memory { body, ..memory };
        match request.response {
            Some(response) => RequestOutcome {
                verdict: Verdict::Answered,
                request: RequestState {
                    response: Some(
                        response.with_option(BLOCK1, block_bytes(fit->0)).with_code(CONTINUE),
                    ),
                    ..request
                },
                memory: later,
            },
            None => RequestOutcome { verdict: Verdict::Failed, request, memory: later },
        }
    } else {
        let later = Memory { body: Seq::empty(), ..memory };
        let whole = RequestState { message: request.message.with_payload(body), ..request };
        match request.response {
            Some(response) => fetched(
                RequestState {
                    response: Some(response.with_option(BLOCK1, block_bytes(fit->0))),
                    ..whole
                },
                later,
            ),
            None => RequestOutcome { verdict: Verdict::Failed, request: whole, memory: later },
        }
    }
}

/// What block-wise handling makes of a request, with what it remembers of the exchange.
pub open spec fn request_outcome(
    request: RequestState,
    memory: Memory,
    limit: usize,
) -> RequestOutcome {
    match request.message.first_block(BLOCK1) {
        Some(block) => uploaded(request, memory, limit, block),
        None => if oversized(request.message, limit) {
            too_large(request, memory, limit)
        } else {
            fetched(request, memory)
        },
    }
}

/// What block-wise handling makes of a response: the code that it fails with, if it does, whether
/// blocks are left to fetch, the request with its response, and what is remembered of the exchange.
#[verifier::ext_equal]
pub struct ResponseOutcome {
    pub failure: Option<u8>,
    pub more: bool,
    pub request: RequestState,
    pub memory: Memory,
}

/// The block that a response is cut down to: for a peer that named a block the one at the same
/// place, and for any other the first.
pub open spec fn chosen(message: Message, asked: Option<BlockValue>, limit: usize) -> Option<
    BlockValue,
> {
    match asked {
        Some(block) => fitted(message, block, limit),
        None => first_fitted(message, limit),
    }
}

/// What block-wise handling makes of a response, with what it remembers of the exchange. It leaves
/// a response alone that names a block already, or that is small enough for a peer that named none.
/// It cuts any other down to a block, and keeps the whole of it while blocks are left to fetch. It
/// fails with 5.00 where no block size fits, and with 4.00 where there is no such block.
pub open spec fn response_outcome(
    request: RequestState,
    memory: Memory,
    limit: usize,
) -> ResponseOutcome {
    let left_alone = ResponseOutcome { failure: None, more: false, request, memory };
    if response_passes(request.response) || (memory.asked is None && !oversized(
        request.response->0,
        limit,
    )) {
        left_alone
    } else {
        let whole = request.response->0;
        match chosen(whole, memory.asked, limit) {
            None => ResponseOutcome { failure: Some(INTERNAL_SERVER_ERROR), ..left_alone },
            Some(block) => if !has_block(whole.payload, block) {
                ResponseOutcome { failure: Some(BAD_REQUEST), ..left_alone }
            } else {
                ResponseOutcome {
                    failure: None,
                    more: has_more(whole.payload, block),
                    request: RequestState {
                        response: Some(whole.showing(whole.payload, block)),
                        ..request
                    },
                    memory: if has_more(whole.payload, block) {
                        Memory { response: Some(whole), ..memory }
                    } else {
                        memory
                    },
                }
            },
        }
    }
}

/// What a result of block-wise handling says of a request.
pub open spec fn verdict_of(handled: Result<bool, BlockFailure>) -> Verdict {
    match handled {
        Ok(false) => Verdict::PassedOn,
        Ok(true) => Verdict::Answered,
        Err(_) => Verdict::Failed,
    }
}

/// `BlockHandler::new` for a configuration with these values. It remembers nothing yet.
#[verifier::external_body]
pub(crate) fn new_handler(
    max_total_message_size: usize,
    cache_expiry_duration: Duration,
) -> (handler: BlockHandler<EndpointKey>)
    requires
        nanos(cache_expiry_duration) <= MAX_CACHE_EXPIRY,
    ensures
        message_limit(handler) == max_total_message_size,
        cache_expiry(handler) == nanos(cache_expiry_duration),
        remembered(handler) == no_memory(),
{
    BlockHandler::new(BlockHandlerConfig { max_total_message_size, cache_expiry_duration })
}

/// `BlockHandler::intercept_request`, for a request whose source is given in numbers. What it
/// makes of a request depends on the request, the message limit and what it remembers of the
/// exchange, as [`request_outcome`] says, and it remembers the exchange afterwards. It forgets an
/// exchange some time after the last use; which ones are forgotten by now is not said. Its message
/// limit and that time stay. It panics on a request that it cannot size up.
#[verifier::external_body]
pub(crate) fn handle_request(
    handler: &mut BlockHandler<EndpointKey>,
    request: &mut Request,
    peer: Option<EndpointKey>,
) -> (handled: Result<bool, BlockFailure>)
    requires
        peer == old(request)@.peer(),
        request_fits(old(request)@.message, message_limit(*old(handler))),
    ensures
        message_limit(*final(handler)) == message_limit(*old(handler)),
        cache_expiry(*final(handler)) == cache_expiry(*old(handler)),
        exists|seen: Memory| #[trigger]
            recalled(remembered(*old(handler)), old(request)@.exchange(), seen) && ({
                let outcome = request_outcome(old(request)@, seen, message_limit(*old(handler)));
                &&& verdict_of(handled) == outcome.verdict
                &&& final(request)@ == outcome.request
                &&& retained(
                    remembered(*old(handler)),
                    remembered(*final(handler)),
                    old(request)@.exchange(),
                    outcome.memory,
                )
            }),
{
    let mut inner = CoapRequest {
        message: std::mem::take(&mut request.message),
        response: request.response.take().map(|message| CoapResponse { message }),
        source: peer,
    };
    let handled = handler.intercept_request(&mut inner);
    request.message = inner.message;
    request.response = inner.response.map(|response| response.message);
    handled.map_err(|e| BlockFailure {
        code: e.code.map(|code| u8::from(MessageClass::Response(code))),
        text: e.message.into_bytes(),
    })
}

/// `BlockHandler::intercept_response`, for a request whose source is given in numbers. What it
/// makes of a response depends on the response, the message limit and what it remembers of the
/// exchange, as [`response_outcome`] says, and it remembers the exchange afterwards. It forgets an
/// exchange some time after the last use; which ones are forgotten by now is not said. Its message
/// limit and that time stay. The text of a failure depends on the response, the limit and the block
/// that the peer named. It panics on a response that it cannot size up, and on one whose head
/// leaves no room for a block that the peer named.
#[verifier::external_body]
pub(crate) fn handle_response(
    handler: &mut BlockHandler<EndpointKey>,
    request: &mut Request,
    peer: Option<EndpointKey>,
) -> (handled: Result<bool, BlockFailure>)
    requires
        peer == old(request)@.peer(),
        response_fits(old(request)@.response),
        lacks_room(old(request)@.response, message_limit(*old(handler))) ==> !remembered(
            *old(handler),
        ).dom().contains(old(request)@.exchange()),
    ensures
        message_limit(*final(handler)) == message_limit(*old(handler)),
        cache_expiry(*final(handler)) == cache_expiry(*old(handler)),
        exists|seen: Memory| #[trigger]
            recalled(remembered(*old(handler)), old(request)@.exchange(), seen) && ({
                let outcome = response_outcome(old(request)@, seen, message_limit(*old(handler)));
                &&& match handled {
                    Ok(more) => outcome.failure is None && more == outcome.more,
                    Err(failure) => {
                        &&& outcome.failure is Some
                        &&& failure.code == outcome.failure
                        &&& failure.text@ == failure_text(
                            old(request)@.response->0,
                            seen.asked,
                            message_limit(*old(handler)),
                        )
                    },
                }
                &&& final(request)@ == outcome.request
                &&& retained(
                    remembered(*old(handler)),
                    remembered(*final(handler)),
                    old(request)@.exchange(),
                    outcome.memory,
                )
            }),
{
    let mut inner = CoapRequest {
        message: std::mem::take(&mut request.message),
        response: request.response.take().map(|message| CoapResponse { message }),
        source: peer,
    };
    let handled = handler.intercept_response(&mut inner);
    request.message = inner.message;
    request.response = inner.response.map(|response| response.message);
    handled.map_err(|e| BlockFailure {
        code: e.code.map(|code| u8::from(MessageClass::Response(code))),
        text: e.message.into_bytes(),
    })
}

/// The source of a request in numbers, if it is known.
pub(crate) fn peer_of(request: &Request) -> (peer: Option<EndpointKey>)
    ensures
        peer == request@.peer(),
{
    match request.source {
        Some(source) => Some(source.key()),
        None => None,
    }
}

/// The length of a packet on the wire without its payload, if it can be encoded.
fn encoded_head_len(packet: &Packet) -> (len: Option<usize>)
    ensures
        len is Some == head_len(packet_contents(*packet)) is Some,
        len matches Some(n) ==> head_len(packet_contents(*packet)) == Some(n as nat),
{
    let mut head = clone_packet(packet);
    set_payload(&mut head, Vec::new());
    proof {
        let message = packet_contents(*packet);
        assert(packet_contents(head) == message.with_payload(Seq::empty()));
    }
    match to_bytes(&head) {
        Ok(bytes) => Some(bytes.len()),
        Err(_) => None,
    }
}

/// What decides over a request: the verdict of block-wise handling and whether observing is left
/// to the server.
pub open spec fn spec_request_step(
    handled: Result<bool, BlockFailure>,
    disable_observe: bool,
) -> RequestStep {
    match handled {
        Ok(false) => if disable_observe {
            RequestStep::Forward
        } else {
            RequestStep::AskObserver
        },
        _ => RequestStep::Respond,
    }
}

/// What happens to a request next.
#[derive(Debug, Clone, Copy, PartialEq, Eq, Structural)]
pub enum RequestStep {
    /// It is answered without the handler.
    Respond,
    /// It goes to the handler.
    Forward,
    /// It goes to whoever keeps track of observers, who says whether the handler sees it.
    AskObserver,
}

/// What happens to a request after block-wise handling: one that was handled, or failed, is
/// answered; any other goes on, past the observers unless observing is left to the handler.
pub fn request_step(handled: &Result<bool, BlockFailure>, disable_observe: bool) -> (step:
    RequestStep)
    ensures
        step == spec_request_step(*handled, disable_observe),
{
    match handled {
        Ok(false) => if disable_observe {
            RequestStep::Forward
        } else {
            RequestStep::AskObserver
        },
        _ => RequestStep::Respond,
    }
}

/// What block-wise handling of a response comes to: a failure is reported to the peer.
pub fn finish_response(request: &mut Request, handled: Result<bool, BlockFailure>)
    ensures
        final(request)@ == (match handled {
            Ok(_) => old(request)@,
            Err(failure) => old(request)@.failed(failure.code, failure.text@),
        }),
{
    if let Err(failure) = handled {
        let _ = request.apply_failure(failure);
    }
}

/// Whether block-wise handling can be given a cache expiry.
pub fn expiry_fits(cache_expiry_duration: Duration) -> (fits: bool)
    ensures
        fits == (nanos(cache_expiry_duration) <= MAX_CACHE_EXPIRY),
{
    as_nanos(cache_expiry_duration) <= MAX_CACHE_EXPIRY
}

/// Whether block-wise handling with a message limit can size up a request.
pub fn can_handle_request(request: &Request, limit: usize) -> (fits: bool)
    ensures
        fits == request_fits(request@.message, limit),
{
    match encoded_head_len(&request.message) {
        Some(len) => {
            if limit < BLOCK_OPTIONS_ROOM || limit - BLOCK_OPTIONS_ROOM != len {
                true
            } else {
                first_block(&request.message, BLOCK1).is_none()
            }
        },
        None => false,
    }
}

/// Whether block-wise handling can size up a response.
pub fn can_handle_response(request: &Request) -> (fits: bool)
    ensures
        fits == response_fits(request@.response),
{
    match &request.response {
        Some(response) => get_option(response, BLOCK2).is_some() || encoded_head_len(
            response,
        ).is_some(),
        None => true,
    }
}

/// Whether a response has a head that takes up exactly all of the room.
pub(crate) fn without_room(request: &Request, limit: usize) -> (lacks: bool)
    ensures
        lacks == lacks_room(request@.response, limit),
{
    match &request.response {
        Some(response) => {
            if get_option(response, BLOCK2).is_some() {
                false
            } else {
                match encoded_head_len(response) {
                    Some(len) => limit >= BLOCK_OPTIONS_ROOM && limit - BLOCK_OPTIONS_ROOM == len,
                    None => false,
                }
            }
        },
        None => false,
    }
}

} // verus!
