//! Laws of block-wise handling: what it lets through, what it puts together and what it hands out.
use crate::address::law_key_tells_endpoints_apart;
use crate::block_wise::chosen;
use crate::block_wise::failure_text;
use crate::block_wise::first_fitted;
use crate::block_wise::fitted;
use crate::block_wise::has_block;
use crate::block_wise::has_more;
use crate::block_wise::head_len;
use crate::block_wise::oversized;
use crate::block_wise::overwritten;
use crate::block_wise::recalled;
use crate::block_wise::request_outcome;
use crate::block_wise::response_outcome;
use crate::block_wise::response_passes;
use crate::block_wise::room;
use crate::block_wise::Exchange;
use crate::block_wise::Memory;
use crate::block_wise::RequestStep;
use crate::block_wise::BAD_REQUEST;
use crate::block_wise::BLOCK_OPTIONS_ROOM;
use crate::block_wise::CONTINUE;
use crate::block_wise::INTERNAL_SERVER_ERROR;
use crate::body::block_count;
use crate::body::block_end;
use crate::body::block_len;
use crate::body::block_of;
use crate::body::lemma_block_bounds;
use crate::body::lemma_block_count;
use crate::body::lemma_small_sizes;
use crate::packet::block_bytes;
use crate::packet::law_block_round_trip;
use crate::packet::lemma_decoded_block;
use crate::packet::lemma_size_exponent;
use crate::packet::size_exponent_of;
use crate::packet::BlockValue;
use crate::packet::Message;
use crate::packet::BLOCK1;
use crate::packet::BLOCK2;
use crate::packet::ETAG;
use crate::packet::SIZE2;
use crate::request::RequestState;
use crate::server::CoapState;
use crate::uint::uint_bytes;
use vstd::arithmetic::power2::lemma2_to64;
use vstd::prelude::*;

verus! {

/// The block size that a size stands for is not above it, unless it is the smallest one.
pub(crate) proof fn lemma_exponent_fits(size: nat)
    requires
        size < 4096,
    ensures
        size_exponent_of(size) < 8,
        size_exponent_of(size) == 0 || block_len(size_exponent_of(size) as u8) <= size,
{
    lemma2_to64();
    reveal_with_fuel(size_exponent_of, 9);
}

/// The message limit bounds the requests that get past block-wise handling: the message of one that
/// does is within the limit and as it was, or carries the last block of a body.
pub proof fn law_message_limit_bounds_requests(
    state: CoapState,
    before: RequestState,
    later: CoapState,
    after: RequestState,
    step: RequestStep,
)
    requires
        state.request_intercepted(before, later, after, step),
        step != RequestStep::Respond,
    ensures
        match before.message.first_block(BLOCK1) {
            Some(block) => !block.more,
            None => !oversized(before.message, state.limit) && after == before,
        },
{
}

/// Whether `after` reports a failure of block-wise handling to the peer.
pub open spec fn reported(before: RequestState, after: RequestState) -> bool {
    ||| exists|text: Seq<u8>| after == #[trigger] before.failed(Some(INTERNAL_SERVER_ERROR), text)
    ||| exists|text: Seq<u8>| after == #[trigger] before.failed(Some(BAD_REQUEST), text)
}

/// The message limit bounds the responses that come out of block-wise handling, except for blocks
/// of the smallest size, reports of failures, and responses that name their block themselves.
pub proof fn law_message_limit_bounds_responses(
    state: CoapState,
    before: RequestState,
    later: CoapState,
    after: RequestState,
)
    requires
        state.response_intercepted(before, later, after),
        !response_passes(before.response),
        head_len(before.response->0) is Some,
        !reported(before, after),
    ensures
        after.response is Some,
        after.response->0.payload.len() <= 16 || head_len(before.response->0)->0
            + BLOCK_OPTIONS_ROOM + after.response->0.payload.len() <= state.limit,
{
    let whole = before.response->0;
    let limit = state.limit;
    let seen = choose|seen: Memory| #[trigger]
        recalled(state.memory, before.exchange(), seen) && ({
            let outcome = response_outcome(before, seen, limit);
            after == (match outcome.failure {
                Some(code) => before.failed(Some(code), failure_text(whole, seen.asked, limit)),
                None => outcome.request,
            })
        });
    if after != before {
        let block = chosen(whole, seen.asked, limit)->0;
        let room = room(whole, limit)->0;
        let size = match seen.asked {
            Some(asked) => if block_len(asked.size_exponent) <= room {
                block_len(asked.size_exponent)
            } else {
                room
            },
            None => room,
        };
        assert(block.size_exponent == size_exponent_of(size) as u8);
        lemma_exponent_fits(size);
        lemma2_to64();
    }
}

/// A small exchange is left alone: a request within the message limit that names no blocks goes on
/// as it is, and a response within the limit goes out as the handler made it.
pub proof fn law_small_exchange_is_left_alone(
    state: CoapState,
    request: RequestState,
    later: CoapState,
    taken: RequestState,
    step: RequestStep,
    answered: RequestState,
    last: CoapState,
    sent: RequestState,
)
    requires
        request.message.first_block(BLOCK1) is None,
        request.message.first_block(BLOCK2) is None,
        !oversized(request.message, state.limit),
        state.request_intercepted(request, later, taken, step),
        answered.exchange() == request.exchange(),
        answered.response is Some,
        !oversized(answered.response->0, later.limit),
        later.response_intercepted(answered, last, sent),
    ensures
        taken == request,
        step == state.onward(),
        sent == answered,
{
}

/// Peers have exchanges of their own: requests from different sources belong to different ones.
pub proof fn law_peers_have_their_own_exchanges(one: RequestState, other: RequestState)
    requires
        one.source != other.source,
    ensures
        one.exchange() != other.exchange(),
{
    if one.source is Some && other.source is Some {
        law_key_tells_endpoints_apart(one.source->0, other.source->0);
    }
}

/// Exchanges do not mix: what comes to mind of one after a request or a response of another has
/// come to mind before.
pub proof fn law_exchanges_do_not_mix(
    state: CoapState,
    before: RequestState,
    later: CoapState,
    after: RequestState,
    other: Exchange,
    seen: Memory,
)
    requires
        (exists|step: RequestStep| #[trigger]
            state.request_intercepted(before, later, after, step)) || state.response_intercepted(
            before,
            later,
            after,
        ),
        other != before.exchange(),
        recalled(later.memory, other, seen),
    ensures
        recalled(state.memory, other, seen),
{
}

/// What is remembered of an exchange after its requests, while nothing is forgotten.
pub open spec fn after_requests(memory: Memory, requests: Seq<RequestState>, limit: usize) -> Memory
    decreases requests.len(),
{
    if requests.len() == 0 {
        memory
    } else {
        request_outcome(
            requests.last(),
            after_requests(memory, requests.drop_last(), limit),
            limit,
        ).memory
    }
}

/// Whether a request carries block `n` of a body, and block-wise handling has a block size and a
/// response for it.
pub open spec fn carries(
    request: RequestState,
    body: Seq<u8>,
    szx: u8,
    n: nat,
    limit: usize,
) -> bool {
    let size = block_len(szx);
    let block = BlockValue {
        num: n as u16,
        more: n + 1 < block_count(body.len(), size),
        size_exponent: szx,
    };
    &&& request.message.first_block(BLOCK1) == Some(block)
    &&& request.message.payload == block_of(body, size, n)
    &&& request.response is Some
    &&& fitted(request.message, block, limit) is Some
}

proof fn lemma_block_is_appended(body: Seq<u8>, szx: u8, n: nat)
    requires
        szx < 8,
        n < block_count(body.len(), block_len(szx)),
    ensures
        ({
            let size = block_len(szx);
            let so_far = body.take(n as int * size);
            let block = block_of(body, size, n);
            &&& 0 <= n * size <= body.len()
            &&& overwritten(so_far, n * size, n * size + size, block) == body.take(
                block_end(body.len(), size, n) as int,
            )
        }),
{
    let size = block_len(szx);
    lemma_small_sizes(szx);
    lemma_block_bounds(body.len(), size, n);
    let so_far = body.take(n as int * size);
    assert(overwritten(so_far, n * size, n * size + size, block_of(body, size, n)) =~= body.take(
        block_end(body.len(), size, n) as int,
    ));
}

/// What becomes of the next block of a body.
proof fn lemma_block_is_taken(
    memory: Memory,
    request: RequestState,
    body: Seq<u8>,
    szx: u8,
    n: nat,
    limit: usize,
)
    requires
        szx < 8,
        n < block_count(body.len(), block_len(szx)) <= 4096,
        carries(request, body, szx, n, limit),
        memory.body == body.take(n as int * block_len(szx)),
        memory.body.len() == n * block_len(szx),
    ensures
        ({
            let outcome = request_outcome(request, memory, limit);
            if n + 1 < block_count(body.len(), block_len(szx)) {
                &&& outcome.verdict is Answered
                &&& outcome.request.response->0.code == CONTINUE
            } else {
                request.message.first_block(BLOCK2) is None ==> {
                    &&& outcome.verdict is PassedOn
                    &&& outcome.request.message == request.message.with_payload(body)
                    &&& outcome.memory.body.len() == 0
                }
            }
        }),
{
    let size = block_len(szx);
    lemma_small_sizes(szx);
    lemma_block_is_appended(body, szx, n);
    lemma_block_bounds(body.len(), size, n);
    assert(body.take(body.len() as int) =~= body);
    let block = request.message.first_block(BLOCK1)->0;
    assert(block.num as nat * size == n * size);
}

proof fn lemma_partly_uploaded(
    memory: Memory,
    requests: Seq<RequestState>,
    body: Seq<u8>,
    szx: u8,
    limit: usize,
)
    requires
        szx < 8,
        memory.body.len() == 0,
        requests.len() < block_count(body.len(), block_len(szx)) <= 4096,
        forall|i: int|
            0 <= i < requests.len() ==> carries(#[trigger] requests[i], body, szx, i as nat, limit),
    ensures
        requests.len() * block_len(szx) <= body.len(),
        after_requests(memory, requests, limit).body == body.take(
            requests.len() as int * block_len(szx),
        ),
        after_requests(memory, requests, limit).response == memory.response,
        after_requests(memory, requests, limit).asked == memory.asked,
    decreases requests.len(),
{
    let size = block_len(szx);
    lemma_small_sizes(szx);
    lemma_block_bounds(body.len(), size, requests.len());
    if requests.len() == 0 {
        assert(memory.body =~= body.take(0));
    } else {
        let front = requests.drop_last();
        let n = front.len();
        assert forall|i: int| 0 <= i < front.len() implies carries(
            #[trigger] front[i],
            body,
            szx,
            i as nat,
            limit,
        ) by {
            assert(front[i] == requests[i]);
        }
        lemma_partly_uploaded(memory, front, body, szx, limit);
        lemma_block_is_appended(body, szx, n);
        lemma_block_bounds(body.len(), size, n);
        assert(carries(requests[n as int], body, szx, n, limit));
        assert(requests.len() * size == n * size + size) by (nonlinear_arith)
            requires
                requests.len() == n + 1,
        ;
    }
}

/// A request body that comes in block by block reaches the handler whole, if nothing of it is
/// forgotten meanwhile: each block but the last is answered with 2.31, and the last goes on with
/// the body for its payload. Nothing of the body is remembered then.
pub proof fn law_uploaded_body_reaches_the_handler(
    memory: Memory,
    requests: Seq<RequestState>,
    body: Seq<u8>,
    szx: u8,
    limit: usize,
)
    requires
        szx < 8,
        memory.body.len() == 0,
        requests.len() == block_count(body.len(), block_len(szx)) <= 4096,
        forall|i: int|
            0 <= i < requests.len() ==> carries(#[trigger] requests[i], body, szx, i as nat, limit),
        requests.last().message.first_block(BLOCK2) is None,
    ensures
        forall|i: int|
            0 <= i < requests.len() - 1 ==> ({
                let outcome = request_outcome(
                    #[trigger] requests[i],
                    after_requests(memory, requests.take(i), limit),
                    limit,
                );
                &&& outcome.verdict is Answered
                &&& outcome.request.response->0.code == CONTINUE
            }),
        ({
            let outcome = request_outcome(
                requests.last(),
                after_requests(memory, requests.drop_last(), limit),
                limit,
            );
            &&& outcome.verdict is PassedOn
            &&& outcome.request.message == requests.last().message.with_payload(body)
            &&& outcome.memory.body.len() == 0
        }),
{
    let size = block_len(szx);
    let count = requests.len();
    lemma_small_sizes(szx);
    lemma_block_count(body.len(), size);
    assert forall|i: int| 0 <= i < count implies (after_requests(
        memory,
        #[trigger] requests.take(i),
        limit,
    ).body == body.take(i * size) && 0 <= i * size <= body.len()) by {
        let front = requests.take(i);
        assert forall|k: int| 0 <= k < front.len() implies carries(
            #[trigger] front[k],
            body,
            szx,
            k as nat,
            limit,
        ) by {
            assert(front[k] == requests[k]);
        }
        lemma_partly_uploaded(memory, front, body, szx, limit);
    }
    assert forall|i: int| 0 <= i < requests.len() - 1 implies ({
        let outcome = request_outcome(
            #[trigger] requests[i],
            after_requests(memory, requests.take(i), limit),
            limit,
        );
        &&& outcome.verdict is Answered
        &&& outcome.request.response->0.code == CONTINUE
    }) by {
        assert(carries(requests[i], body, szx, i as nat, limit));
        let now = after_requests(memory, requests.take(i), limit);
        assert(now.body == body.take(i * size));
        lemma_block_is_taken(now, requests[i], body, szx, i as nat, limit);
    }
    let last = count - 1;
    assert(requests.take(last) =~= requests.drop_last());
    assert(carries(requests[last], body, szx, last as nat, limit));
    let now = after_requests(memory, requests.take(last), limit);
    assert(now.body == body.take(last * size));
    lemma_block_is_taken(now, requests[last], body, szx, last as nat, limit);
}

/// A peer that names a block of a response that is not kept for it is shown that block of the
/// response that the handler gives, if the block fits and nothing is forgotten meanwhile; where
/// there is no such block, that is a bad request.
pub proof fn law_named_block_is_shown(
    memory: Memory,
    request: RequestState,
    block: BlockValue,
    answered: RequestState,
    limit: usize,
)
    requires
        request.message.first_block(BLOCK1) is None,
        request.message.first_block(BLOCK2) == Some(block),
        !oversized(request.message, limit),
        memory.response is None,
        !response_passes(answered.response),
        room(answered.response->0, limit) matches Some(room) && block_len(block.size_exponent)
            <= room,
    ensures
        request_outcome(request, memory, limit).verdict is PassedOn,
        request_outcome(request, memory, limit).request == request,
        ({
            let whole = answered.response->0;
            let outcome = response_outcome(
                answered,
                request_outcome(request, memory, limit).memory,
                limit,
            );
            if has_block(whole.payload, block) {
                &&& outcome.failure is None
                &&& outcome.request.response == Some(whole.showing(whole.payload, block))
                &&& has_more(whole.payload, block) ==> outcome.memory.response == Some(whole)
            } else {
                outcome.failure == Some(BAD_REQUEST) && outcome.request == answered
            }
        }),
{
    let size = block_len(block.size_exponent);
    lemma_decoded_block(request.message.first_value(BLOCK2)->0);
    lemma_small_sizes(block.size_exponent);
    lemma_size_exponent(block.size_exponent);
    let num = block.num as int;
    assert(num * (size as int) / (size as int) == num) by (nonlinear_arith)
        requires
            size > 0,
    ;
    let fit = fitted(answered.response->0, block, limit)->0;
    assert(fit.num == block.num && fit.size_exponent == block.size_exponent);
    assert(answered.response->0.showing(answered.response->0.payload, fit)
        == answered.response->0.showing(answered.response->0.payload, block));
}

/// Whether a request fetches block `n` of a response, in blocks of one size.
pub open spec fn fetches(request: RequestState, szx: u8, n: nat, limit: usize) -> bool {
    &&& request.message.first_block(BLOCK1) is None
    &&& !oversized(request.message, limit)
    &&& request.response is Some
    &&& request.message.first_block(BLOCK2) matches Some(block) && block.num == n
        && block.size_exponent == szx
}

/// A block of a kept response is handed out to the peer that fetches it, under the code of the
/// response. The response is kept until its last block is fetched.
pub proof fn law_kept_response_is_handed_out(
    memory: Memory,
    request: RequestState,
    szx: u8,
    n: nat,
    limit: usize,
)
    requires
        fetches(request, szx, n, limit),
        memory.response is Some,
        memory.response->0.payload.len() > 0,
        n < block_count(memory.response->0.payload.len(), block_len(szx)),
    ensures
        ({
            let kept = memory.response->0;
            let count = block_count(kept.payload.len(), block_len(szx));
            let outcome = request_outcome(request, memory, limit);
            let shown = outcome.request.response->0;
            &&& outcome.verdict is Answered
            &&& shown.payload == block_of(kept.payload, block_len(szx), n)
            &&& shown.code == kept.code
            &&& shown.first_block(BLOCK2) == Some(
                BlockValue { num: n as u16, more: n + 1 < count, size_exponent: szx },
            )
            &&& shown.token == request.response->0.token
            &&& shown.id == request.response->0.id
            &&& outcome.memory.response == if n + 1 < count {
                Some(kept)
            } else {
                None
            }
        }),
{
    let kept = memory.response->0;
    let size = block_len(szx);
    lemma_decoded_block(request.message.first_value(BLOCK2)->0);
    lemma_small_sizes(szx);
    lemma_block_bounds(kept.payload.len(), size, n);
    let block = request.message.first_block(BLOCK2)->0;
    let named = BlockValue { more: has_more(kept.payload, block), ..block };
    law_block_round_trip(named);
    let shown = request_outcome(request, memory, limit).request.response->0;
    assert(shown.values(BLOCK2) =~= seq![block_bytes(named)]);
}

/// What the responses to fetches show, one after the other, while nothing is forgotten.
pub open spec fn gathered(memory: Memory, requests: Seq<RequestState>, limit: usize) -> Seq<u8>
    decreases requests.len(),
{
    if requests.len() == 0 {
        Seq::empty()
    } else {
        let front = requests.drop_last();
        gathered(memory, front, limit) + request_outcome(
            requests.last(),
            after_requests(memory, front, limit),
            limit,
        ).request.response->0.payload
    }
}

proof fn lemma_partly_gathered(
    memory: Memory,
    requests: Seq<RequestState>,
    szx: u8,
    limit: usize,
)
    requires
        szx < 8,
        memory.response is Some,
        requests.len() + 1 <= block_count(memory.response->0.payload.len(), block_len(szx)),
        memory.response->0.payload.len() > 0,
        forall|i: int|
            0 <= i < requests.len() ==> fetches(#[trigger] requests[i], szx, (i + 1) as nat, limit),
    ensures
        requests.len() + 1 < block_count(memory.response->0.payload.len(), block_len(szx))
            ==> after_requests(memory, requests, limit).response == memory.response,
        block_of(memory.response->0.payload, block_len(szx), 0) + gathered(memory, requests, limit)
            == memory.response->0.payload.take(
            block_end(
                memory.response->0.payload.len(),
                block_len(szx),
                requests.len(),
            ) as int,
        ),
    decreases requests.len(),
{
    let payload = memory.response->0.payload;
    let size = block_len(szx);
    lemma_small_sizes(szx);
    lemma_block_bounds(payload.len(), size, requests.len());
    let first = block_of(payload, size, 0);
    if requests.len() == 0 {
        assert(first + gathered(memory, requests, limit) =~= payload.take(
            block_end(payload.len(), size, 0) as int,
        ));
    } else {
        let front = requests.drop_last();
        let n = requests.len();
        assert forall|i: int| 0 <= i < front.len() implies fetches(
            #[trigger] front[i],
            szx,
            (i + 1) as nat,
            limit,
        ) by {
            assert(front[i] == requests[i]);
        }
        lemma_partly_gathered(memory, front, szx, limit);
        let now = after_requests(memory, front, limit);
        assert(fetches(requests[n - 1], szx, n, limit));
        law_kept_response_is_handed_out(now, requests.last(), szx, n, limit);
        lemma_block_bounds(payload.len(), size, (n - 1) as nat);
        assert((n - 1) * size + size == n * size) by (nonlinear_arith);
        let shown = block_of(payload, size, n);
        assert(first + gathered(memory, requests, limit) =~= (first + gathered(
            memory,
            front,
            limit,
        )) + shown);
        assert(payload.take(block_end(payload.len(), size, (n - 1) as nat) as int) + shown
            =~= payload.take(block_end(payload.len(), size, n) as int));
    }
}

/// A response that is too large is fetched whole, if nothing of it is forgotten meanwhile: it goes
/// out as its first block, and that block and what the peer fetches after it, block by block, make
/// up its payload.
pub proof fn law_large_response_is_fetched_whole(
    memory: Memory,
    answered: RequestState,
    requests: Seq<RequestState>,
    szx: u8,
    limit: usize,
)
    requires
        memory.asked is None,
        !response_passes(answered.response),
        oversized(answered.response->0, limit),
        first_fitted(answered.response->0, limit) matches Some(block) && block.size_exponent == szx,
        requests.len() + 1 == block_count(
            answered.response->0.payload.len(),
            block_len(szx),
        ),
        requests.len() > 0,
        forall|i: int|
            0 <= i < requests.len() ==> fetches(#[trigger] requests[i], szx, (i + 1) as nat, limit),
    ensures
        ({
            let outcome = response_outcome(answered, memory, limit);
            &&& outcome.failure is None
            &&& outcome.more
            &&& outcome.request.response->0.payload + gathered(outcome.memory, requests, limit)
                == answered.response->0.payload
        }),
{
    let whole = answered.response->0;
    let payload = whole.payload;
    let size = block_len(szx);
    let outcome = response_outcome(answered, memory, limit);
    lemma_exponent_fits(room(whole, limit)->0);
    lemma_small_sizes(szx);
    lemma_block_count(payload.len(), size);
    lemma_block_bounds(payload.len(), size, 0);
    lemma_partly_gathered(outcome.memory, requests, szx, limit);
    lemma_block_bounds(payload.len(), size, requests.len());
    assert(payload.take(payload.len() as int) =~= payload);
}

/// A response to a fetch of an observed resource shows the resource before it is cut up: its
/// payload is the resource, it has one entity tag and one length, whatever the handler had put
/// there, and all else is as it was. A response to any other request is left as it was.
pub proof fn law_observed_fetch_shows_the_resource(
    request: RequestState,
    payload: Seq<u8>,
    etag: Seq<u8>,
)
    requires
        request.response is Some,
    ensures
        ({
            let response = request.response->0;
            let shown = request.with_observed(Some((payload, etag)));
            if request.may_fetch_observed() {
                &&& shown == (RequestState { response: shown.response, ..request })
                &&& shown.response is Some
                &&& shown.response->0.payload == payload
                &&& shown.response->0.values(ETAG) == seq![etag]
                &&& shown.response->0.values(SIZE2) == seq![uint_bytes(payload.len())]
                &&& shown.response->0 == (Message {
                    options: shown.response->0.options,
                    payload,
                    ..response
                })
                &&& forall|number: u16|
                    number != ETAG && number != SIZE2 ==> #[trigger] shown.response->0.values(
                        number,
                    ) == response.values(number)
            } else {
                shown == request
            }
        }),
{
    let shown = request.with_observed(Some((payload, etag)));
    if request.may_fetch_observed() {
        assert(shown.response->0.values(ETAG) =~= seq![etag]);
        assert(shown.response->0.values(SIZE2) =~= seq![uint_bytes(payload.len())]);
    }
}

} // verus!
