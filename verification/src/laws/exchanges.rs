//! Laws of the calls that a request and its response pass through on their way to the handler and
//! back.
use crate::address::Endpoint;
use crate::block_wise::can_handle_request;
use crate::block_wise::can_handle_response;
use crate::block_wise::expiry_fits;
use crate::block_wise::failure_text;
use crate::block_wise::finish_response;
use crate::block_wise::first_fitted;
use crate::block_wise::fitted;
use crate::block_wise::head_len;
use crate::block_wise::lacks_room;
use crate::block_wise::oversized;
use crate::block_wise::overwritten;
use crate::block_wise::recalled;
use crate::block_wise::remembered;
use crate::block_wise::request_fits;
use crate::block_wise::request_outcome;
use crate::block_wise::request_step;
use crate::block_wise::response_fits;
use crate::block_wise::response_outcome;
use crate::block_wise::room;
use crate::block_wise::Exchange;
use crate::block_wise::Memory;
use crate::block_wise::RequestStep;
use crate::block_wise::INTERNAL_SERVER_ERROR;
use crate::body::block_len;
use crate::body::block_of;
use crate::body::lemma_small_sizes;
use crate::laws::block_wise::law_observed_fetch_shows_the_resource;
use crate::laws::block_wise::lemma_exponent_fits;
use crate::packet::block_bytes;
use crate::packet::lemma_size_exponent;
use crate::packet::packet_contents;
use crate::packet::wire_decoding;
use crate::packet::wire_encoding;
use crate::packet::BlockValue;
use crate::packet::ByteOrder;
use crate::packet::Message;
use crate::request::BlockFailure;
use crate::request::Request;
use crate::request::RequestState;
use crate::server::joined_path;
use crate::server::observed_fetch;
use crate::server::observer_verdict;
use crate::server::readable;
use crate::server::resource_view;
use crate::server::CoapState;
use crate::server::ServerCoapState;
use crate::server::ShouldForwardToHandler;
use crate::time::nanos;
use crate::uint::be_value;
use crate::uint::law_uint_round_trip;
use crate::uint::uint_bytes;
use coap_lite::Packet;
use std::time::Duration;
use vstd::prelude::*;
use vstd::utf8::decode_utf8;
use vstd::utf8::valid_utf8;

verus! {

/// A request that comes in is the message and its source. A confirmable one is answered by an
/// acknowledgement, a non-confirmable one by a non-confirmable message, and no other is. The answer
/// has code 2.05, the message ID and the token of the request, no options and no payload.
pub proof fn law_requests_are_answered_in_kind(packet: Packet, source: Endpoint, request: Request)
    requires
        call_ensures(Request::from_packet, (packet, source), request),
    ensures
        ({
            let message = packet_contents(packet);
            let kind = (message.first / 16) % 4;
            &&& request@.message == message
            &&& request@.source == Some(source)
            &&& request@.response is Some <==> kind == 0 || kind == 1
            &&& request@.response matches Some(answer) ==> {
                &&& answer.id == message.id
                &&& answer.token == message.token
                &&& answer.code == 0x45
                &&& answer.role is Other
                &&& answer.payload.len() == 0
                &&& forall|number: u16| !(#[trigger] answer.has(number))
                &&& message.token.len() < 16 ==> answer.first / 64 == 1 && answer.first % 16
                    == message.token.len() && (answer.first / 16) % 4 == if kind == 0 {
                    2int
                } else {
                    1int
                }
            }
        }),
{
}

/// Putting a resource into a response replaces its payload, its entity tags and its lengths, and
/// nothing else.
pub proof fn law_resource_replaces_what_it_is_about(
    request: &mut Request,
    payload: &[u8],
    etag: Vec<u8>,
)
    requires
        call_ensures(Request::set_resource, (request, payload, etag), ()),
    ensures
        final(request)@.message == old(request)@.message,
        final(request)@.source == old(request)@.source,
        final(request)@.response is Some == old(request)@.response is Some,
        old(request)@.response matches Some(before) ==> {
            let after = final(request)@.response->0;
            &&& after == (Message { options: after.options, payload: payload@, ..before })
            &&& after.values(4).len() == 1
            &&& after.values(4)[0] == etag@
            &&& after.values(28).len() == 1
            &&& be_value(after.values(28)[0]) == payload@.len()
            &&& forall|number: u16|
                number != 4 && number != 28 ==> #[trigger] after.values(number) == before.values(
                    number,
                )
        },
{
    law_uint_round_trip(payload@.len());
}

/// A failure that has a code turns the response into a report: with that code, with the text for
/// its payload, and in plain text. Nothing else changes, and nothing at all where there is no
/// response or the failure has no code.
pub proof fn law_failures_turn_responses_into_reports(
    request: &mut Request,
    failure: BlockFailure,
    reported: bool,
)
    requires
        call_ensures(Request::apply_failure, (request, failure), reported),
    ensures
        reported <==> old(request)@.response is Some && failure.code is Some,
        !reported ==> final(request)@ == old(request)@,
        final(request)@.message == old(request)@.message,
        final(request)@.source == old(request)@.source,
        reported ==> final(request)@.response is Some && ({
            let before = old(request)@.response->0;
            let after = final(request)@.response->0;
            &&& after.code == failure.code->0
            &&& after.payload == failure.text@
            &&& after.first == before.first
            &&& after.id == before.id
            &&& after.token == before.token
            &&& after.values(12).len() == before.values(12).len() + 1
            &&& be_value(after.values(12).last()) == 0
            &&& forall|number: u16|
                number != 12 ==> #[trigger] after.values(number) == before.values(number)
        }),
{
}

/// What block-wise handling of a response comes to: a failure is applied, and nothing else is.
pub proof fn law_failed_handling_is_reported(
    request: &mut Request,
    handled: Result<bool, BlockFailure>,
    other: &mut Request,
    reported: bool,
)
    requires
        old(request)@ == old(other)@,
        call_ensures(finish_response, (request, handled), ()),
        handled matches Err(failure) ==> call_ensures(
            Request::apply_failure,
            (other, failure),
            reported,
        ),
    ensures
        handled is Ok ==> final(request)@ == old(request)@,
        handled is Err ==> final(request)@ == final(other)@,
{
}

/// The bytes of a response are those that it is encoded in, and read as the response; there are
/// none where there is no response or it cannot be encoded.
pub proof fn law_response_bytes_are_the_response(request: &Request, bytes: Option<Vec<u8>>)
    requires
        call_ensures(Request::response_bytes, (request,), bytes),
    ensures
        bytes is Some <==> request@.response is Some && wire_encoding(request@.response->0) is Some,
        bytes matches Some(b) ==> wire_encoding(request@.response->0) == Some(b@) && forall|
            machine: ByteOrder,
        |
            request@.response->0.readable(machine) ==> #[trigger] wire_decoding(b@, machine)
                == Some(request@.response->0.as_sent()),
{
}

/// A request may fetch more of an observed resource if and only if it has a Block2 option, no
/// Q-Block2 option and no Observe option, and its source is known. It is then that source and the
/// path of the request that count.
pub proof fn law_fetches_of_observed_resources_are_known(
    request: &Request,
    fetch: Option<(Endpoint, String)>,
)
    requires
        call_ensures(observed_fetch, (request,), fetch),
    ensures
        fetch is Some <==> request@.message.has(23) && !request@.message.has(31)
            && !request@.message.has(6) && request@.source is Some,
        fetch matches Some((source, path)) ==> request@.source == Some(source) && path@
            == joined_path(request@.message.values(11)),
{
}

/// The path of one segment is its text, and each segment more that is text is added behind a slash.
pub proof fn law_paths_join_their_segments(segments: Seq<Seq<u8>>, segment: Seq<u8>)
    ensures
        joined_path(Seq::empty()) == Seq::<char>::empty(),
        !valid_utf8(segment) ==> joined_path(segments.push(segment)) == joined_path(segments),
        valid_utf8(segment) ==> joined_path(seq![segment]) == decode_utf8(segment),
        valid_utf8(segment) && readable(segments).len() > 0 ==> joined_path(segments.push(segment))
            == joined_path(segments).push('/') + decode_utf8(segment),
{
    let all = segments.push(segment);
    reveal_with_fuel(readable, 2);
    assert(all.drop_last() =~= segments);
    assert(all.last() == segment);
    let one = seq![segment];
    assert(one.drop_last() =~= Seq::<Seq<u8>>::empty());
    if valid_utf8(segment) {
        assert(readable(all).drop_last() =~= readable(segments));
        assert(readable(one).len() == 1);
    }
}

/// The observers' verdict is taken at its word.
pub proof fn law_verdict_is_taken_at_its_word(forward: bool, verdict: ShouldForwardToHandler)
    requires
        call_ensures(observer_verdict, (forward,), verdict),
    ensures
        verdict == ShouldForwardToHandler::True <==> forward,
        verdict == ShouldForwardToHandler::False <==> !forward,
{
}

/// A request goes on if and only if block-wise handling neither answered it nor failed: to the
/// observers, or past them if observing is left to the handler.
pub proof fn law_unhandled_requests_go_on(
    handled: &Result<bool, BlockFailure>,
    disable_observe: bool,
    step: RequestStep,
)
    requires
        call_ensures(request_step, (handled, disable_observe), step),
    ensures
        step == RequestStep::Respond <==> handled is Err || handled->Ok_0,
        step == RequestStep::Forward ==> disable_observe,
        step == RequestStep::AskObserver ==> !disable_observe,
{
}

/// A state starts with the limit and the expiry that it was given, remembers nothing, and does not
/// leave observing to the handler until it is told to.
pub proof fn law_new_state_remembers_nothing(
    limit: usize,
    expiry: Duration,
    fits: bool,
    state: ServerCoapState,
)
    requires
        call_ensures(expiry_fits, (expiry,), fits),
        fits,
        call_ensures(ServerCoapState::new, (limit, expiry), state),
    ensures
        call_requires(ServerCoapState::new, (limit, expiry)),
        state.wf(),
        state@.limit == limit,
        state@.expiry == nanos(expiry),
        !state@.disable_observe,
        forall|exchange: Exchange| !state@.memory.dom().contains(exchange),
{
}

/// Leaving observing to the handler changes nothing else. Every expiry up to 2^32 seconds is fine.
pub proof fn law_observing_is_left_to_whom_it_is_said(
    state: &mut ServerCoapState,
    value: bool,
    expiry: Duration,
    fits: bool,
)
    requires
        old(state).wf(),
        call_ensures(ServerCoapState::disable_observe_handling, (state, value), ()),
        call_ensures(expiry_fits, (expiry,), fits),
    ensures
        final(state).wf(),
        final(state)@.disable_observe == value,
        final(state)@ == (CoapState { disable_observe: value, ..old(state)@ }),
        fits <==> nanos(expiry) <= 0x1_0000_0000 * 1_000_000_000,
{
}

/// Whether a request has gone on, as the server's settings say.
pub open spec fn went_on(state: CoapState, step: RequestStep) -> bool {
    if state.disable_observe {
        step == RequestStep::Forward
    } else {
        step == RequestStep::AskObserver
    }
}

/// A request comes out as block-wise handling makes it with what comes to mind of its exchange; it
/// goes on if and only if block-wise handling passes it on. What is remembered of the exchange is
/// then what block-wise handling makes of that.
pub proof fn law_requests_are_handled_block_wise(
    state: &mut ServerCoapState,
    request: &mut Request,
    step: RequestStep,
)
    requires
        old(state).wf(),
        call_ensures(ServerCoapState::intercept_request, (state, request), step),
    ensures
        exists|seen: Memory| #[trigger]
            recalled(old(state)@.memory, old(request)@.exchange(), seen) && ({
                let exchange = old(request)@.exchange();
                let outcome = request_outcome(old(request)@, seen, old(state)@.limit);
                &&& final(request)@ == outcome.request
                &&& outcome.verdict is PassedOn ==> went_on(old(state)@, step)
                &&& !(outcome.verdict is PassedOn) ==> step == RequestStep::Respond
                &&& final(state)@.memory.dom().contains(exchange)
                &&& final(state)@.memory[exchange] == outcome.memory
            }),
{
    let before = old(request)@;
    let seen = choose|seen: Memory| #[trigger]
        recalled(old(state)@.memory, before.exchange(), seen) && ({
            let outcome = request_outcome(before, seen, old(state)@.limit);
            &&& final(request)@ == outcome.request
            &&& step == (if outcome.verdict is PassedOn {
                old(state)@.onward()
            } else {
                RequestStep::Respond
            })
            &&& old(state)@.moved_on(final(state)@, before.exchange(), outcome.memory)
        });
    assert(recalled(old(state)@.memory, before.exchange(), seen));
}

/// What block-wise handling cannot size up is known beforehand: a head that cannot be encoded, and
/// one that leaves no room, twelve bytes being kept for block options, where a block is named.
pub proof fn law_room_is_known_beforehand(message: Message, limit: usize)
    ensures
        request_fits(message, limit) <==> head_len(message) is Some && !(message.first_block(
            27,
        ) is Some && head_len(message)->0 + 12 == limit),
        response_fits(Some(message)) <==> message.has(23) || head_len(message) is Some,
        lacks_room(Some(message), limit) <==> !message.has(23) && head_len(message) is Some
            && head_len(message)->0 + 12 == limit,
        response_fits(None) && !lacks_room(None, limit),
{
}

/// A request that names no block goes on as it is if it is small enough, whoever sent it, whatever
/// it asks for and whatever is remembered. One that is too large is answered with 4.13, if a block
/// fits and there is a response.
pub proof fn law_requests_that_name_no_block(
    state: &mut ServerCoapState,
    request: &mut Request,
    step: RequestStep,
)
    requires
        old(state).wf(),
        call_ensures(ServerCoapState::intercept_request, (state, request), step),
        old(request)@.message.first_block(27) is None,
        old(request)@.message.first_block(23) is None,
    ensures
        !oversized(old(request)@.message, old(state)@.limit) ==> went_on(old(state)@, step)
            && final(request)@ == old(request)@,
        oversized(old(request)@.message, old(state)@.limit) ==> step == RequestStep::Respond
            && final(request)@.message == old(request)@.message && final(request)@.source
            == old(request)@.source,
        oversized(old(request)@.message, old(state)@.limit) && old(request)@.response is Some
            && first_fitted(old(request)@.message, old(state)@.limit) is Some ==> {
            let answer = final(request)@.response->0;
            &&& final(request)@.response is Some
            &&& answer.code == 0x8D
            &&& answer.values(27).last() == block_bytes(
                first_fitted(old(request)@.message, old(state)@.limit)->0,
            )
        },
{
}

/// A block of a request body that ends no further than 16 KiB is taken, whatever is remembered, if
/// a block size fits and there is a response: one that others follow is answered with 2.31; the
/// last one goes on, with a payload that holds the block at its place.
pub proof fn law_requests_that_name_a_block_of_their_body(
    state: &mut ServerCoapState,
    request: &mut Request,
    step: RequestStep,
    block: BlockValue,
)
    requires
        old(state).wf(),
        call_ensures(ServerCoapState::intercept_request, (state, request), step),
        old(request)@.message.first_block(27) == Some(block),
        (block.num + 1) * block_len(block.size_exponent) <= 16384,
        fitted(old(request)@.message, block, old(state)@.limit) is Some,
        old(request)@.response is Some,
    ensures
        final(request)@.source == old(request)@.source,
        final(request)@.response is Some,
        block.more ==> step == RequestStep::Respond && final(request)@.response->0.code == 0x5F
            && final(request)@.message == old(request)@.message,
        !block.more && old(request)@.message.first_block(23) is None ==> {
            let start = block.num * block_len(block.size_exponent);
            let payload = old(request)@.message.payload;
            &&& went_on(old(state)@, step)
            &&& final(request)@.message == (Message {
                payload: final(request)@.message.payload,
                ..old(request)@.message
            })
            &&& start + payload.len() <= final(request)@.message.payload.len()
            &&& forall|i: int|
                0 <= i < payload.len() ==> #[trigger] payload[i]
                    == final(request)@.message.payload[start + i]
        },
{
    let before = old(request)@;
    let limit = old(state)@.limit;
    let size = block_len(block.size_exponent);
    let num = block.num as int;
    assert((num + 1) * (size as int) == num * (size as int) + size) by (nonlinear_arith);
    let seen = choose|seen: Memory| #[trigger]
        recalled(old(state)@.memory, before.exchange(), seen) && final(request)@
            == request_outcome(before, seen, limit).request;
    let start = (num * (size as int)) as nat;
    let body = overwritten(seen.body, start, start + size, before.message.payload);
    assert forall|i: int| 0 <= i < before.message.payload.len() implies body[start + i]
        == #[trigger] before.message.payload[i] by {}
}

/// A request that names a block of a response, and none of its body, goes on as it is unless a
/// response is kept for its exchange. Where one is kept that has the block, the request is answered
/// with that block, under the code of the kept response, or goes on if the response is forgotten.
pub proof fn law_requests_that_name_a_block_of_a_response(
    state: &mut ServerCoapState,
    request: &mut Request,
    step: RequestStep,
    block: BlockValue,
)
    requires
        old(state).wf(),
        call_ensures(ServerCoapState::intercept_request, (state, request), step),
        old(request)@.message.first_block(27) is None,
        old(request)@.message.first_block(23) == Some(block),
        !oversized(old(request)@.message, old(state)@.limit),
        old(request)@.response is Some,
    ensures
        ({
            let before = old(request)@;
            let after = final(request)@;
            let memory = old(state)@.memory;
            let known = memory.dom().contains(before.exchange())
                && memory[before.exchange()].response is Some;
            let kept = memory[before.exchange()].response->0;
            let size = block_len(block.size_exponent);
            &&& !known ==> went_on(old(state)@, step) && after == before
            &&& known && block.num * size < kept.payload.len() ==> (went_on(old(state)@, step)
                && after == before) || (step == RequestStep::Respond && after.message
                == before.message && after.source == before.source && after.response is Some
                && after.response->0.payload == block_of(kept.payload, size, block.num as nat)
                && after.response->0.code == kept.code && after.response->0.token
                == before.response->0.token && after.response->0.id == before.response->0.id)
        }),
{
}

/// Handling a request leaves the settings as they are, and what is remembered of other exchanges.
pub proof fn law_handling_a_request_leaves_the_settings(
    state: &mut ServerCoapState,
    request: &mut Request,
    step: RequestStep,
    other: Exchange,
)
    requires
        old(state).wf(),
        call_ensures(ServerCoapState::intercept_request, (state, request), step),
        other != old(request)@.exchange(),
    ensures
        final(state)@.limit == old(state)@.limit,
        final(state)@.expiry == old(state)@.expiry,
        final(state)@.disable_observe == old(state)@.disable_observe,
        final(state)@.memory.dom().contains(other) ==> old(state)@.memory.dom().contains(other)
            && final(state)@.memory[other] == old(state)@.memory[other],
{
}

/// What is remembered after a request is what was put together of its body, the response that was
/// kept for the exchange, and the block that it names of a response. Nothing comes from elsewhere.
pub proof fn law_requests_are_remembered(
    state: &mut ServerCoapState,
    request: &mut Request,
    step: RequestStep,
)
    requires
        old(state).wf(),
        call_ensures(ServerCoapState::intercept_request, (state, request), step),
        old(request)@.message.first_block(27) is None,
        !oversized(old(request)@.message, old(state)@.limit),
    ensures
        final(state)@.memory.dom().contains(old(request)@.exchange()),
        ({
            let exchange = old(request)@.exchange();
            let now = final(state)@.memory[exchange];
            let known = old(state)@.memory.dom().contains(exchange);
            let before = old(state)@.memory[exchange];
            &&& now.asked == old(request)@.message.first_block(23)
            &&& now.response is Some ==> known && now.response == before.response
            &&& now.body.len() > 0 ==> known && now.body == before.body
        }),
{
}

/// A request is looked at only if it can be sized up, which it can if its head can be encoded and
/// leaves room where it has to. It then fares as it would otherwise; one that cannot be sized up is
/// left alone.
pub proof fn law_requests_are_tried(
    state: &mut ServerCoapState,
    request: &mut Request,
    step: Option<RequestStep>,
    limit: usize,
    fits: bool,
)
    requires
        old(state).wf(),
        call_ensures(ServerCoapState::try_intercept_request, (state, request), step),
        limit == old(state)@.limit,
        call_ensures(can_handle_request, (&*old(request), limit), fits),
    ensures
        step is Some <==> fits,
        fits <==> head_len(old(request)@.message) is Some && (head_len(old(request)@.message)->0
            + 12 == limit ==> old(request)@.message.first_block(27) is None),
        fits ==> call_requires(ServerCoapState::intercept_request, (state, request)),
        step matches Some(next) ==> old(state)@.request_intercepted(
            old(request)@,
            final(state)@,
            final(request)@,
            next,
        ),
        step is None ==> final(request)@ == old(request)@ && final(state)@ == old(state)@,
{
}

/// A response can be handled if there is none, if it names a block already, or if its head can be
/// encoded.
pub proof fn law_responses_can_be_handled(request: &Request, fits: bool)
    requires
        call_ensures(can_handle_response, (request,), fits),
    ensures
        fits <==> request@.response is None || request@.response->0.has(23) || head_len(
            request@.response->0,
        ) is Some,
{
}

/// What a request shows of its response to block-wise handling: the observed resource in it, if
/// there is one and the request may fetch it.
pub open spec fn shown(
    before: RequestState,
    resource: Option<(Vec<u8>, Vec<u8>)>,
    after: RequestState,
) -> bool {
    if resource is Some && before.response is Some && before.message.has(23)
        && !before.message.has(6) && before.source is Some {
        let whole = after.response->0;
        &&& after == (RequestState { response: after.response, ..before })
        &&& after.response is Some
        &&& whole == (Message {
            options: whole.options,
            payload: (resource->0).0@,
            ..before.response->0
        })
        &&& whole.values(4) == seq![(resource->0).1@]
        &&& whole.values(28) == seq![uint_bytes((resource->0).0@.len())]
        &&& forall|number: u16|
            number != 4 && number != 28 ==> #[trigger] whole.values(number)
                == before.response->0.values(number) && whole.has(number)
                == before.response->0.has(number)
    } else {
        after == before
    }
}

/// The response to a request for Q-Block2 blocks is left alone. Any other is shown to block-wise
/// handling, with the observed resource in it where there is one to show, and comes out as
/// block-wise handling makes it, a failure as a report.
pub proof fn law_responses_are_handled_block_wise(
    state: &mut ServerCoapState,
    request: &mut Request,
    resource: Option<(Vec<u8>, Vec<u8>)>,
)
    requires
        old(state).wf(),
        call_ensures(ServerCoapState::intercept_response, (state, request, resource), ()),
    ensures
        old(request)@.message.has(31) ==> final(request)@ == old(request)@ && final(state)@
            == old(state)@,
        !old(request)@.message.has(31) ==> exists|given: RequestState, seen: Memory|
            #![trigger shown(old(request)@, resource, given), recalled(
                old(state)@.memory,
                given.exchange(),
                seen,
            )]
            {
                let limit = old(state)@.limit;
                let outcome = response_outcome(given, seen, limit);
                &&& shown(old(request)@, resource, given)
                &&& recalled(old(state)@.memory, given.exchange(), seen)
                &&& outcome.failure is None ==> final(request)@ == outcome.request
                &&& outcome.failure is Some ==> final(request)@ == given.failed(
                    outcome.failure,
                    failure_text(given.response->0, seen.asked, limit),
                )
                &&& if lacks_room(given.response, limit) {
                    seen == Memory::nothing() && final(state)@ == old(state)@
                } else {
                    final(state)@.memory.dom().contains(given.exchange())
                        && final(state)@.memory[given.exchange()] == outcome.memory
                }
            },
        final(state)@.limit == old(state)@.limit,
        final(state)@.expiry == old(state)@.expiry,
        final(state)@.disable_observe == old(state)@.disable_observe,
{
    let before = old(request)@;
    let limit = old(state)@.limit;
    if !before.message.has(31) {
        let given = before.with_observed(resource_view(resource));
        if resource is Some && before.response is Some && before.may_fetch_observed() {
            law_observed_fetch_shows_the_resource(before, (resource->0).0@, (resource->0).1@);
        }
        assert(shown(before, resource, given));
        if lacks_room(given.response, limit) {
            assert(recalled(old(state)@.memory, given.exchange(), Memory::nothing()));
            assert(response_outcome(given, Memory::nothing(), limit).failure == Some(
                INTERNAL_SERVER_ERROR,
            ));
        } else {
            let seen = choose|seen: Memory| #[trigger]
                recalled(old(state)@.memory, given.exchange(), seen) && ({
                    let outcome = response_outcome(given, seen, limit);
                    &&& final(request)@ == (match outcome.failure {
                        Some(code) => given.failed(
                            Some(code),
                            failure_text(given.response->0, seen.asked, limit),
                        ),
                        None => outcome.request,
                    })
                    &&& old(state)@.moved_on(final(state)@, given.exchange(), outcome.memory)
                });
            assert(recalled(old(state)@.memory, given.exchange(), seen));
        }
    }
}

/// A response to a peer that named no block goes out as the handler made it if it is small enough,
/// and else as its first block, or as a 5.00 where none fits. To a peer that named a block which
/// fits it goes out as that block, or as a 4.00 where there is no such block; or, where the block
/// that was named is forgotten, as to any other peer.
pub proof fn law_peers_are_shown_the_block_they_named(
    state: &mut ServerCoapState,
    request: &mut Request,
)
    requires
        old(state).wf(),
        call_ensures(ServerCoapState::intercept_response, (state, request, None), ()),
        !old(request)@.message.has(31),
        old(request)@.response is Some,
        !old(request)@.response->0.has(23),
        head_len(old(request)@.response->0) is Some,
    ensures
        ({
            let whole = old(request)@.response->0;
            let after = final(request)@.response->0;
            let limit = old(state)@.limit;
            let memory = old(state)@.memory;
            let exchange = old(request)@.exchange();
            let asked = if memory.dom().contains(exchange) {
                memory[exchange].asked
            } else {
                None
            };
            let first = first_fitted(whole, limit);
            let plain = if !oversized(whole, limit) {
                final(request)@ == old(request)@
            } else if first is Some {
                after.payload == block_of(whole.payload, block_len(first->0.size_exponent), 0)
                    && after.code == whole.code && after.token == whole.token
            } else {
                after.code == 0xA0
            };
            let size = block_len(asked->0.size_exponent);
            &&& final(request)@.response is Some
            &&& final(request)@.message == old(request)@.message
            &&& final(request)@.source == old(request)@.source
            &&& asked is None ==> plain
            &&& asked is Some && asked->0.size_exponent < 8 && room(whole, limit) is Some && size
                <= room(whole, limit)->0 ==> plain || (asked->0.num * size < whole.payload.len()
                && after.payload == block_of(whole.payload, size, asked->0.num as nat)
                && after.code == whole.code && after.token == whole.token) || (asked->0.num * size
                >= whole.payload.len() && after.code == 0x80)
            &&& head_len(whole)->0 + 12 == limit ==> after.code == 0xA0
        }),
{
    let before = old(request)@;
    let whole = before.response->0;
    let limit = old(state)@.limit;
    let memory = old(state)@.memory;
    let exchange = before.exchange();
    if !lacks_room(Some(whole), limit) {
        let seen = choose|seen: Memory| #[trigger]
            recalled(memory, exchange, seen) && ({
                let outcome = response_outcome(before, seen, limit);
                final(request)@ == (match outcome.failure {
                    Some(code) => before.failed(
                        Some(code),
                        failure_text(whole, seen.asked, limit),
                    ),
                    None => outcome.request,
                })
            });
        assert(recalled(memory, exchange, seen));
        if seen.asked is Some {
            let block = seen.asked->0;
            let size = block_len(block.size_exponent);
            if block.size_exponent < 8 && room(whole, limit) is Some && size <= room(
                whole,
                limit,
            )->0 {
                lemma_small_sizes(block.size_exponent);
                lemma_size_exponent(block.size_exponent);
                let num = block.num as int;
                assert(num * (size as int) / (size as int) == num) by (nonlinear_arith)
                    requires
                        size > 0,
                ;
                let fit = fitted(whole, block, limit)->0;
                assert(fit.num == block.num && fit.size_exponent == block.size_exponent);
            }
        } else if oversized(whole, limit) && first_fitted(whole, limit) is Some {
            let first = first_fitted(whole, limit)->0;
            lemma_exponent_fits(room(whole, limit)->0);
            assert(0 * block_len(first.size_exponent) == 0) by (nonlinear_arith);
        }
    }
}

/// What is remembered after a response is the response, if blocks of it are left to fetch; what was
/// remembered before stays otherwise.
pub proof fn law_cut_responses_are_kept(state: &mut ServerCoapState, request: &mut Request)
    requires
        old(state).wf(),
        call_ensures(ServerCoapState::intercept_response, (state, request, None), ()),
        !old(request)@.message.has(31),
        old(request)@.response is Some,
        !lacks_room(old(request)@.response, old(state)@.limit),
    ensures
        final(state)@.memory.dom().contains(old(request)@.exchange()),
        ({
            let exchange = old(request)@.exchange();
            let now = final(state)@.memory[exchange];
            let known = old(state)@.memory.dom().contains(exchange);
            let before = old(state)@.memory[exchange];
            let whole = old(request)@.response->0;
            &&& now.asked is Some ==> known && now.asked == before.asked
            &&& now.body.len() > 0 ==> known && now.body == before.body
            &&& now.response is Some ==> now.response == Some(whole) || (known && now.response
                == before.response)
            &&& final(request)@.response is Some && final(request)@.response->0.code == whole.code
                && final(request)@.response->0.payload.len() < whole.payload.len() && (!known
                || before.asked is None) && !whole.has(23) && oversized(
                whole,
                old(state)@.limit,
            ) && first_fitted(whole, old(state)@.limit) is Some ==> now.response == Some(whole)
        }),
{
    let before = old(request)@;
    let whole = before.response->0;
    let limit = old(state)@.limit;
    let memory = old(state)@.memory;
    let exchange = before.exchange();
    let seen = choose|seen: Memory| #[trigger]
        recalled(memory, exchange, seen) && ({
            let outcome = response_outcome(before, seen, limit);
            &&& final(request)@ == (match outcome.failure {
                Some(code) => before.failed(Some(code), failure_text(whole, seen.asked, limit)),
                None => outcome.request,
            })
            &&& old(state)@.moved_on(final(state)@, exchange, outcome.memory)
        });
    assert(recalled(memory, exchange, seen));
    if first_fitted(whole, limit) is Some {
        let first = first_fitted(whole, limit)->0;
        assert(0 * block_len(first.size_exponent) == 0) by (nonlinear_arith);
    }
}

/// A response is looked at only if its head can be encoded, or it is left alone anyway. It then
/// fares as it would otherwise; one that cannot be encoded only has the observed resource put in.
pub proof fn law_responses_are_tried(
    state: &mut ServerCoapState,
    request: &mut Request,
    resource: Option<(Vec<u8>, Vec<u8>)>,
    done: bool,
)
    requires
        old(state).wf(),
        call_ensures(ServerCoapState::try_intercept_response, (state, request, resource), done),
    ensures
        !old(request)@.message.has(31) ==> exists|given: RequestState| #[trigger]
            shown(old(request)@, resource, given) && (done <==> given.response is None
                || given.response->0.has(23) || head_len(given.response->0) is Some) && (if done {
                old(state)@.response_intercepted(given, final(state)@, final(request)@)
            } else {
                final(request)@ == given && final(state)@ == old(state)@
            }),
        old(request)@.message.has(31) ==> done && final(request)@ == old(request)@ && final(state)@
            == old(state)@,
{
    let before = old(request)@;
    if !before.message.has(31) {
        let given = before.with_observed(resource_view(resource));
        if resource is Some && before.response is Some && before.may_fetch_observed() {
            law_observed_fetch_shows_the_resource(before, (resource->0).0@, (resource->0).1@);
        }
        assert(shown(before, resource, given));
    }
}

} // verus!
