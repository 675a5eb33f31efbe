//! What a server does with a datagram, a request and a response, apart from I/O.
use crate::address::Endpoint;
use crate::address::EndpointKey;
use crate::block_wise::cache_expiry;
use crate::block_wise::can_handle_request;
use crate::block_wise::can_handle_response;
use crate::block_wise::failure_text;
use crate::block_wise::finish_response;
use crate::block_wise::handle_request;
use crate::block_wise::handle_response;
use crate::block_wise::lacks_room;
use crate::block_wise::message_limit;
use crate::block_wise::new_handler;
use crate::block_wise::peer_of;
use crate::block_wise::recalled;
use crate::block_wise::remembered;
use crate::block_wise::request_fits;
use crate::block_wise::request_outcome;
use crate::block_wise::request_step;
use crate::block_wise::response_fits;
use crate::block_wise::response_outcome;
use crate::block_wise::retained;
use crate::block_wise::verdict_of;
use crate::block_wise::without_room;
use crate::block_wise::Exchange;
use crate::block_wise::Memory;
use crate::block_wise::RequestStep;
use crate::block_wise::INTERNAL_SERVER_ERROR;
use crate::block_wise::MAX_CACHE_EXPIRY;
use crate::packet::contents_of;
use crate::packet::from_bytes;
use crate::packet::get_option;
use crate::packet::packet_contents;
use crate::packet::reads_as;
use crate::packet::Message;
use crate::packet::BLOCK2;
use crate::packet::OBSERVE;
use crate::packet::Q_BLOCK1;
use crate::packet::Q_BLOCK2;
use crate::request::Request;
use crate::request::RequestState;
use crate::time::nanos;
use crate::time::new_span;
use coap_lite::BlockHandler;
use coap_lite::CoapRequest;
use coap_lite::Packet;
use std::time::Duration;
use vstd::prelude::*;
use vstd::utf8::decode_utf8;
use vstd::utf8::valid_utf8;

verus! {

/// Option number of `Uri-Path`.
pub const URI_PATH: u16 = 11;

/// Why a server stopped.
#[derive(Debug)]
pub enum CoAPServerError {
    NetworkError,
    EventLoopError,
    AnotherHandlerIsRunning,
    EventSendError,
}

/// Whether a request goes to the handler.
#[derive(Debug, Clone, Copy, PartialEq, Eq, Structural)]
pub enum ShouldForwardToHandler {
    True,
    False,
}

/// A message and the peer it goes to or comes from.
#[derive(Debug)]
pub struct QueuedMessage {
    pub address: Endpoint,
    pub message: Packet,
}

/// What a datagram is to a server.
#[derive(Debug)]
pub enum Inbound {
    /// No message: it is ignored.
    Malformed,
    /// A block of a request body.
    RequestBlock(Packet),
    /// Any other message.
    Message(Packet),
}

/// What a datagram is that reads as `message`.
pub open spec fn is_inbound(message: Option<Message>, inbound: Inbound) -> bool {
    match message {
        None => inbound is Malformed,
        Some(message) => if message.has(Q_BLOCK1) {
            inbound matches Inbound::RequestBlock(packet) && packet_contents(packet) == message
        } else {
            inbound matches Inbound::Message(packet) && packet_contents(packet) == message
        },
    }
}

/// Tells what a message is, or a datagram that held none.
pub fn classify_packet(packet: Option<Packet>) -> (inbound: Inbound)
    ensures
        is_inbound(contents_of(packet), inbound),
{
    match packet {
        None => Inbound::Malformed,
        Some(packet) => {
            if get_option(&packet, Q_BLOCK1).is_some() {
                Inbound::RequestBlock(packet)
            } else {
                Inbound::Message(packet)
            }
        },
    }
}

/// Tells what a datagram is.
pub fn classify(bytes: &[u8]) -> (inbound: Inbound)
    ensures
        exists|message: Option<Message>| #[trigger]
            reads_as(bytes@, message) && is_inbound(message, inbound),
{
    let packet = from_bytes(bytes);
    let ghost message = contents_of(packet);
    assert(reads_as(bytes@, message));
    classify_packet(packet)
}

/// The segments that are text, in order.
pub open spec fn readable(segments: Seq<Seq<u8>>) -> Seq<Seq<char>>
    decreases segments.len(),
{
    if segments.len() == 0 {
        Seq::empty()
    } else {
        let before = readable(segments.drop_last());
        if valid_utf8(segments.last()) {
            before.push(decode_utf8(segments.last()))
        } else {
            before
        }
    }
}

/// Texts with a slash between them.
pub open spec fn with_slashes(texts: Seq<Seq<char>>) -> Seq<char>
    decreases texts.len(),
{
    if texts.len() == 0 {
        Seq::empty()
    } else if texts.len() == 1 {
        texts[0]
    } else {
        with_slashes(texts.drop_last()).push('/') + texts.last()
    }
}

/// The path that the values of the Uri-Path option spell. Values that are no text are left out.
pub open spec fn joined_path(segments: Seq<Seq<u8>>) -> Seq<char> {
    with_slashes(readable(segments))
}

/// `CoapRequest::get_path`: the Uri-Path segments that are valid UTF-8, with slashes in between.
#[verifier::external_body]
pub(crate) fn get_path(packet: &Packet) -> (path: String)
    ensures
        path@ == joined_path(packet_contents(*packet).values(URI_PATH)),
{
    CoapRequest::<Endpoint> { message: packet.clone(), response: None, source: None }.get_path()
}

impl RequestState {
    /// Whether the request may be a peer's fetch of more blocks of a resource that it observes:
    /// it names a block of the response, does not ask to observe, and its source is known.
    pub open spec fn may_fetch_observed(self) -> bool {
        &&& !self.message.has(Q_BLOCK2)
        &&& self.message.has(BLOCK2)
        &&& !self.message.has(OBSERVE)
        &&& self.source is Some
    }

    /// With the state of an observed resource in the response, if the request may fetch one.
    pub open spec fn with_observed(self, resource: Option<(Seq<u8>, Seq<u8>)>) -> RequestState {
        match (self.response, resource) {
            (Some(response), Some((payload, etag))) => if self.may_fetch_observed() {
                RequestState { response: Some(response.with_resource(payload, etag)), ..self }
            } else {
                self
            },
            _ => self,
        }
    }
}

/// The path of the resource that a request may fetch more blocks of, and from where. If that peer
/// observes the resource, the response is to show its current state.
pub fn observed_fetch(request: &Request) -> (fetch: Option<(Endpoint, String)>)
    ensures
        fetch is Some == request@.may_fetch_observed(),
        fetch matches Some((source, path)) ==> request@.source == Some(source) && path@
            == joined_path(request@.message.values(URI_PATH)),
{
    if !may_fetch(request) {
        return None;
    }
    match request.source {
        Some(source) => Some((source, get_path(&request.message))),
        None => None,
    }
}

/// Whether a request may be a peer's fetch of more blocks of a resource that it observes.
fn may_fetch(request: &Request) -> (may: bool)
    ensures
        may == request@.may_fetch_observed(),
{
    get_option(&request.message, Q_BLOCK2).is_none() && get_option(
        &request.message,
        BLOCK2,
    ).is_some() && get_option(&request.message, OBSERVE).is_none() && request.source.is_some()
}

/// What the observers' verdict on a request means.
pub fn observer_verdict(forward: bool) -> (verdict: ShouldForwardToHandler)
    ensures
        verdict == (if forward {
            ShouldForwardToHandler::True
        } else {
            ShouldForwardToHandler::False
        }),
{
    if forward {
        ShouldForwardToHandler::True
    } else {
        ShouldForwardToHandler::False
    }
}

/// What a [`ServerCoapState`] holds.
#[verifier::ext_equal]
pub struct CoapState {
    /// The largest message that goes out in one piece.
    pub limit: usize,
    /// Whether observing is left to the handler.
    pub disable_observe: bool,
    /// How long block-wise handling remembers an exchange after its last use, in nanoseconds.
    pub expiry: nat,
    /// What block-wise handling remembers of each exchange.
    pub memory: Map<Exchange, Memory>,
}

impl CoapState {
    /// Where a request goes that block-wise handling passes on: to the handler directly if
    /// observing is left to it, else to the observers.
    pub open spec fn onward(self) -> RequestStep {
        if self.disable_observe {
            RequestStep::Forward
        } else {
            RequestStep::AskObserver
        }
    }

    /// Whether `later` is the state after block-wise handling of an exchange, of which `now` is
    /// remembered.
    pub open spec fn moved_on(self, later: CoapState, exchange: Exchange, now: Memory) -> bool {
        &&& later.limit == self.limit
        &&& later.expiry == self.expiry
        &&& later.disable_observe == self.disable_observe
        &&& retained(self.memory, later.memory, exchange, now)
    }

    /// What comes of a request: what block-wise handling makes of it, with what comes to mind of
    /// its exchange. One that is passed on goes onward, and any other is answered.
    pub open spec fn request_intercepted(
        self,
        before: RequestState,
        later: CoapState,
        after: RequestState,
        step: RequestStep,
    ) -> bool {
        exists|seen: Memory| #[trigger]
            recalled(self.memory, before.exchange(), seen) && ({
                let outcome = request_outcome(before, seen, self.limit);
                &&& after == outcome.request
                &&& step == (if outcome.verdict is PassedOn {
                    self.onward()
                } else {
                    RequestStep::Respond
                })
                &&& self.moved_on(later, before.exchange(), outcome.memory)
            })
    }

    /// What comes of a response: what block-wise handling makes of it, with what comes to mind of
    /// its exchange. A failure is reported to the peer. A response whose head leaves no room for
    /// any block is a failure for every peer, and nothing new is remembered.
    pub open spec fn response_intercepted(
        self,
        before: RequestState,
        later: CoapState,
        after: RequestState,
    ) -> bool {
        if lacks_room(before.response, self.limit) {
            &&& after == before.failed(
                Some(INTERNAL_SERVER_ERROR),
                failure_text(before.response->0, None, self.limit),
            )
            &&& later == self
        } else {
            exists|seen: Memory| #[trigger]
                recalled(self.memory, before.exchange(), seen) && ({
                    let outcome = response_outcome(before, seen, self.limit);
                    &&& after == (match outcome.failure {
                        Some(code) => before.failed(
                            Some(code),
                            failure_text(before.response->0, seen.asked, self.limit),
                        ),
                        None => outcome.request,
                    })
                    &&& self.moved_on(later, before.exchange(), outcome.memory)
                })
        }
    }
}

/// The part of a server that requests and responses pass through on their way to the handler and
/// back.
pub struct ServerCoapState {
    block_handler: BlockHandler<EndpointKey>,
    limit: usize,
    disable_observe: bool,
}

impl View for ServerCoapState {
    type V = CoapState;

    closed spec fn view(&self) -> CoapState {
        CoapState {
            limit: self.limit,
            disable_observe: self.disable_observe,
            expiry: cache_expiry(self.block_handler),
            memory: remembered(self.block_handler),
        }
    }
}

impl ServerCoapState {
    /// The noted message limit is the one of block-wise handling.
    pub closed spec fn wf(&self) -> bool {
        message_limit(self.block_handler) == self.limit
    }

    /// A state that lets messages of `max_total_message_size` bytes through in one piece, and
    /// keeps responses for a peer to fetch in blocks for `cache_expiry_duration`.
    pub fn new(max_total_message_size: usize, cache_expiry_duration: Duration) -> (state:
        ServerCoapState)
        requires
            nanos(cache_expiry_duration) <= MAX_CACHE_EXPIRY,
        ensures
            state.wf(),
            state@ == (CoapState {
                limit: max_total_message_size,
                disable_observe: false,
                expiry: nanos(cache_expiry_duration),
                memory: Map::empty(),
            }),
    {
        ServerCoapState {
            block_handler: new_handler(max_total_message_size, cache_expiry_duration),
            limit: max_total_message_size,
            disable_observe: false,
        }
    }

    /// Leaves observing to the handler, or takes it back.
    pub fn disable_observe_handling(&mut self, value: bool)
        requires
            old(self).wf(),
        ensures
            final(self).wf(),
            final(self)@ == (CoapState { disable_observe: value, ..old(self)@ }),
    {
        self.disable_observe = value;
    }

    /// Gives a request to block-wise handling, and says what happens to it next. Block-wise
    /// handling may turn the request down, or complete its payload; a request that it passes on
    /// goes to the handler directly if observing is left to the handler, and to the observers if
    /// not.
    pub fn intercept_request(&mut self, request: &mut Request) -> (step: RequestStep)
        requires
            old(self).wf(),
            request_fits(old(request)@.message, old(self)@.limit),
        ensures
            final(self).wf(),
            old(self)@.request_intercepted(old(request)@, final(self)@, final(request)@, step),
    {
        let ghost before = request@;
        let peer = peer_of(request);
        let handled = handle_request(&mut self.block_handler, request, peer);
        proof {
            let seen = choose|seen: Memory| #[trigger]
                recalled(old(self)@.memory, before.exchange(), seen) && ({
                    let outcome = request_outcome(before, seen, old(self)@.limit);
                    &&& verdict_of(handled) == outcome.verdict
                    &&& request@ == outcome.request
                    &&& retained(
                        old(self)@.memory,
                        self@.memory,
                        before.exchange(),
                        outcome.memory,
                    )
                });
            assert(recalled(old(self)@.memory, before.exchange(), seen));
            assert(old(self)@.moved_on(
                self@,
                before.exchange(),
                request_outcome(before, seen, old(self)@.limit).memory,
            ));
        }
        request_step(&handled, self.disable_observe)
    }

    /// [`intercept_request`](Self::intercept_request) for a request of which it is not known that
    /// block-wise handling can size it up. Returns nothing, and leaves the request as it was,
    /// where it cannot.
    pub fn try_intercept_request(&mut self, request: &mut Request) -> (step: Option<RequestStep>)
        requires
            old(self).wf(),
        ensures
            final(self).wf(),
            step is Some == request_fits(old(request)@.message, old(self)@.limit),
            match step {
                Some(next) => old(self)@.request_intercepted(
                    old(request)@,
                    final(self)@,
                    final(request)@,
                    next,
                ),
                None => final(request)@ == old(request)@ && final(self)@ == old(self)@,
            },
    {
        if can_handle_request(request, self.limit) {
            Some(self.intercept_request(request))
        } else {
            None
        }
    }

    /// Gives the response to a request to block-wise handling, unless the request asks for
    /// Q-Block2, which has its own path. `resource` is the state of the observed resource that
    /// the request fetches, if [`observed_fetch`] says that it does so. A failure of block-wise
    /// handling is reported in the response, also where the head of the response leaves no room
    /// for any block.
    pub fn intercept_response(
        &mut self,
        request: &mut Request,
        resource: Option<(Vec<u8>, Vec<u8>)>,
    )
        requires
            old(self).wf(),
            !old(request)@.message.has(Q_BLOCK2) ==> response_fits(
                old(request)@.with_observed(resource_view(resource)).response,
            ),
        ensures
            final(self).wf(),
            if old(request)@.message.has(Q_BLOCK2) {
                final(request)@ == old(request)@ && final(self)@ == old(self)@
            } else {
                old(self)@.response_intercepted(
                    old(request)@.with_observed(resource_view(resource)),
                    final(self)@,
                    final(request)@,
                )
            },
    {
        if get_option(&request.message, Q_BLOCK2).is_some() {
            return ;
        }
        show_observed(request, resource);
        let ghost before = request@;
        let peer = peer_of(request);
        if without_room(request, self.limit) {
            // One that remembers nothing reports the failure, whatever block the peer named.
            let mut blank = new_handler(self.limit, new_span(0, 0));
            let handled = handle_response(&mut blank, request, peer);
            assert(response_outcome(before, Memory::nothing(), self.limit).failure == Some(
                INTERNAL_SERVER_ERROR,
            ));
            finish_response(request, handled);
        } else {
            let handled = handle_response(&mut self.block_handler, request, peer);
            let ghost handled_as = request@;
            finish_response(request, handled);
            proof {
                let seen = choose|seen: Memory| #[trigger]
                    recalled(old(self)@.memory, before.exchange(), seen) && ({
                        let outcome = response_outcome(before, seen, old(self)@.limit);
                        &&& handled_as == outcome.request
                        &&& match handled {
                            Ok(_) => outcome.failure is None,
                            Err(failure) => outcome.failure is Some && failure.code
                                == outcome.failure && failure.text@ == failure_text(
                                before.response->0,
                                seen.asked,
                                old(self)@.limit,
                            ),
                        }
                        &&& retained(
                            old(self)@.memory,
                            self@.memory,
                            before.exchange(),
                            outcome.memory,
                        )
                    });
                assert(recalled(old(self)@.memory, before.exchange(), seen));
                assert(old(self)@.moved_on(
                    self@,
                    before.exchange(),
                    response_outcome(before, seen, old(self)@.limit).memory,
                ));
            }
        }
    }

    /// [`intercept_response`](Self::intercept_response) for a response of which it is not known
    /// that block-wise handling can size it up. Returns whether it can; where it cannot, the
    /// response is left as it would have been given to block-wise handling.
    pub fn try_intercept_response(
        &mut self,
        request: &mut Request,
        resource: Option<(Vec<u8>, Vec<u8>)>,
    ) -> (done: bool)
        requires
            old(self).wf(),
        ensures
            final(self).wf(),
            done == (old(request)@.message.has(Q_BLOCK2) || response_fits(
                old(request)@.with_observed(resource_view(resource)).response,
            )),
            if old(request)@.message.has(Q_BLOCK2) {
                final(request)@ == old(request)@ && final(self)@ == old(self)@
            } else if done {
                old(self)@.response_intercepted(
                    old(request)@.with_observed(resource_view(resource)),
                    final(self)@,
                    final(request)@,
                )
            } else {
                final(request)@ == old(request)@.with_observed(resource_view(resource))
                    && final(self)@ == old(self)@
            },
    {
        if get_option(&request.message, Q_BLOCK2).is_some() {
            return true;
        }
        show_observed(request, resource);
        if can_handle_response(request) {
            self.intercept_response(request, None);
            true
        } else {
            false
        }
    }
}

/// Puts the state of an observed resource into the response, if the request may fetch one.
fn show_observed(request: &mut Request, resource: Option<(Vec<u8>, Vec<u8>)>)
    ensures
        final(request)@ == old(request)@.with_observed(resource_view(resource)),
{
    if may_fetch(request) {
        if let Some((payload, etag)) = resource {
            request.set_resource(payload.as_slice(), etag);
        }
    }
}

/// The payload and the entity tag of a resource.
pub open spec fn resource_view(resource: Option<(Vec<u8>, Vec<u8>)>) -> Option<
    (Seq<u8>, Seq<u8>),
> {
    match resource {
        Some((payload, etag)) => Some((payload@, etag@)),
        None => None,
    }
}

} // verus!
