//! Laws of recovery: what is asked for, that it is understood, and that it completes a transfer.
use crate::body::block_len;
use crate::body::lemma_block_count;
use crate::body::lemma_small_sizes;
use crate::config::QBlockError;
use crate::drive::datagram_taken;
use crate::drive::ReceiveEvent;
use crate::laws::receiving::blocks_of;
use crate::laws::receiving::holds_all;
use crate::laws::receiving::holds_part;
use crate::missing_blocks::cbor_sequence;
use crate::missing_blocks::law_missing_blocks_round_trip;
use crate::packet::block_bytes;
use crate::packet::block_for;
use crate::packet::decode_block;
use crate::packet::law_block_round_trip;
use crate::packet::lemma_size_exponent;
use crate::packet::spells;
use crate::packet::wire_decoding;
use crate::packet::BlockValue;
use crate::packet::ByteOrder;
use crate::packet::Message;
use crate::packet::Q_BLOCK1;
use crate::packet::Q_BLOCK2;
use crate::range_set::blocks_below;
use crate::range_set::law_missing_names_the_gaps;
use crate::range_set::missing_below;
use crate::receiver::with_block_requests;
use crate::receiver::Outcome;
use crate::receiver::ReceiverState;
use crate::receiver::RecoveryOutcome;
use crate::reports::block_numbers;
use crate::reports::requested;
use crate::time::max_nanos;
use crate::time::nanos;
use std::time::Duration;
use vstd::arithmetic::power2::lemma_pow2_strictly_increases;
use vstd::arithmetic::power2::lemma_pow2_unfold;
use vstd::arithmetic::power2::pow2;
use vstd::prelude::*;

verus! {

/// The blocks of a body that a receiver lacks, in ascending order.
pub open spec fn gaps(state: ReceiverState, body: Seq<u8>, szx: u8) -> Seq<u32> {
    missing_below(state.received.blocks, blocks_of(body, szx))
}

/// A request names the lowest missing blocks in ascending order: no block that was received, none
/// after the last block, none twice, no more than `MAX_PAYLOADS`, and it skips none.
pub proof fn law_request_names_the_lowest_gaps(state: ReceiverState, last: u32)
    requires
        state.szx is Some,
        state.last_block(block_len(state.szx->0)) == Some(last),
    ensures
        state.wanted() matches Some(wanted) ==> {
            &&& wanted.len() <= state.config.max_payloads
            &&& forall|i: int, j: int| 0 <= i < j < wanted.len() ==> wanted[i] < wanted[j]
            &&& forall|i: int|
                0 <= i < wanted.len() ==> (#[trigger] wanted[i]) <= last
                    && !state.received.blocks.contains(wanted[i])
            &&& forall|n: u32|
                n <= last && !state.received.blocks.contains(n) && !(#[trigger] wanted.contains(n))
                    ==> wanted.len() == state.config.max_payloads && forall|i: int|
                    0 <= i < wanted.len() ==> (#[trigger] wanted[i]) < n
        },
        state.wanted() is None ==> forall|n: u32|
            n <= last ==> #[trigger] state.received.blocks.contains(n),
{
    let end = last as nat + 1;
    let missing = missing_below(state.received.blocks, end);
    law_missing_names_the_gaps(state.received.blocks, end);
    match state.wanted() {
        Some(wanted) => {
            assert forall|i: int| 0 <= i < wanted.len() implies (#[trigger] wanted[i]) <= last
                && !state.received.blocks.contains(wanted[i]) by {
                assert(wanted[i] == missing[i]);
                assert(missing.contains(missing[i]));
            }
            assert forall|i: int, j: int| 0 <= i < j < wanted.len() implies wanted[i] < wanted[j] by {
                assert(missing[i] < missing[j]);
            }
            assert forall|n: u32|
                n <= last && !state.received.blocks.contains(n) && !(#[trigger] wanted.contains(
                    n,
                )) implies wanted.len() == state.config.max_payloads && forall|i: int|
                0 <= i < wanted.len() ==> (#[trigger] wanted[i]) < n by {
                assert(missing.contains(n));
                let k = choose|k: int| 0 <= k < missing.len() && missing[k] == n;
                if k < wanted.len() {
                    assert(wanted[k] == n);
                }
                assert forall|i: int| 0 <= i < wanted.len() implies (#[trigger] wanted[i]) < n by {
                    assert(missing[i] < missing[k]);
                }
            }
        },
        None => {
            assert forall|n: u32| n <= last implies #[trigger] state.received.blocks.contains(n) by {
                if !state.received.blocks.contains(n) {
                    assert(missing.contains(n));
                }
            }
        },
    }
}

/// While part of a body is missing there is something to ask for, as soon as the end of the body
/// is known: from its last block, or, if that is lost, from the length that was announced. What
/// is asked for are the lowest gaps.
pub proof fn law_incomplete_transfer_asks_for_its_gaps(
    state: ReceiverState,
    body: Seq<u8>,
    szx: u8,
)
    requires
        holds_part(state, body, szx),
        !holds_all(state, body, szx),
        state.szx == Some(szx),
        state.received.total is Some || state.total_len == Some(body.len() as u32),
        body.len() <= u32::MAX,
    ensures
        gaps(state, body, szx).len() > 0,
        state.wanted() == Some(
            if gaps(state, body, szx).len() <= state.config.max_payloads {
                gaps(state, body, szx)
            } else {
                gaps(state, body, szx).take(state.config.max_payloads as int)
            },
        ),
{
    let count = blocks_of(body, szx);
    let size = block_len(szx);
    lemma_small_sizes(szx);
    lemma_block_count(body.len(), size);
    assert(state.last_block(size) == Some((count - 1) as u32));
    law_missing_names_the_gaps(state.received.blocks, count);
    let n = choose|n: u32|
        blocks_below(count as u32).contains(n) && !state.received.blocks.contains(n);
    assert(gaps(state, body, szx).contains(n));
}

proof fn lemma_block_request(n: u32, szx: u8)
    requires
        szx < 8,
        n < 4096,
    ensures
        block_for(n as nat, false, block_len(szx)) == Some(
            BlockValue { num: n as u16, more: false, size_exponent: szx },
        ),
        decode_block(block_bytes(block_for(n as nat, false, block_len(szx))->0)) == Some(
            BlockValue { num: n as u16, more: false, size_exponent: szx },
        ),
{
    lemma_small_sizes(szx);
    lemma_size_exponent(szx);
    law_block_round_trip(BlockValue { num: n as u16, more: false, size_exponent: szx });
}

proof fn lemma_block_requests(message: Message, blocks: Seq<u32>, szx: u8)
    requires
        szx < 8,
        forall|i: int| 0 <= i < blocks.len() ==> (#[trigger] blocks[i]) < 4096,
    ensures
        block_numbers(with_block_requests(message, blocks, block_len(szx)).values(Q_BLOCK2))
            == block_numbers(message.values(Q_BLOCK2)) + blocks,
    decreases blocks.len(),
{
    let size = block_len(szx);
    let all = with_block_requests(message, blocks, size);
    if blocks.len() == 0 {
        assert(block_numbers(message.values(Q_BLOCK2)) + blocks =~= block_numbers(
            message.values(Q_BLOCK2),
        ));
    } else {
        let front = blocks.drop_last();
        let n = blocks.last();
        assert(blocks[blocks.len() - 1] == n);
        assert forall|i: int| 0 <= i < front.len() implies (#[trigger] front[i]) < 4096 by {
            assert(blocks[i] == front[i]);
        }
        lemma_block_requests(message, front, szx);
        lemma_block_request(n, szx);
        let before = with_block_requests(message, front, size);
        let value = block_bytes(block_for(n as nat, false, size)->0);
        assert(all.values(Q_BLOCK2) =~= before.values(Q_BLOCK2).push(value));
        assert(all.values(Q_BLOCK2).drop_last() =~= before.values(Q_BLOCK2));
        assert(all.values(Q_BLOCK2).last() == value);
        assert((block_numbers(message.values(Q_BLOCK2)) + front).push(n) =~= block_numbers(
            message.values(Q_BLOCK2),
        ) + blocks);
    }
}

/// The peer reads from a request for missing blocks exactly the blocks that the receiver wants.
/// A Q-Block2 request starts from a template without Q-Block2 options, and asks for blocks whose
/// numbers fit a block option.
pub proof fn law_request_is_understood(state: ReceiverState)
    requires
        state.inv(),
        state.recovery_message() is Some,
        state.option == Q_BLOCK2 ==> state.template.values(Q_BLOCK2).len() == 0,
        state.option == Q_BLOCK2 ==> forall|i: int|
            0 <= i < state.wanted()->0.len() ==> (#[trigger] state.wanted()->0[i]) < 4096,
    ensures
        requested(state.recovery_message()->0, state.option) == state.wanted()->0,
        requested(state.recovery_message()->0.as_sent(), state.option) == state.wanted()->0,
{
    let wanted = state.wanted()->0;
    let message = state.recovery_message()->0;
    assert(message.as_sent().values(Q_BLOCK2) =~= message.values(Q_BLOCK2));
    if state.option == Q_BLOCK2 {
        lemma_block_requests(state.template, wanted, state.szx->0);
        assert(block_numbers(state.template.values(Q_BLOCK2)) + wanted =~= wanted);
    } else {
        assert(state.option == Q_BLOCK1);
        law_missing_blocks_round_trip(wanted);
        assert(message.payload == cbor_sequence(wanted));
    }
}

/// The peer reads the same from the bytes of a request for missing blocks, if its machine can read
/// them.
pub proof fn law_request_is_understood_from_the_wire(
    machine: ByteOrder,
    state: ReceiverState,
    bytes: Seq<u8>,
)
    requires
        state.inv(),
        state.recovery_message() is Some,
        state.recovery_message()->0.readable(machine),
        spells(bytes, state.recovery_message()->0),
        state.option == Q_BLOCK2 ==> state.template.values(Q_BLOCK2).len() == 0,
        state.option == Q_BLOCK2 ==> forall|i: int|
            0 <= i < state.wanted()->0.len() ==> (#[trigger] state.wanted()->0[i]) < 4096,
    ensures
        wire_decoding(bytes, machine) is Some,
        requested(wire_decoding(bytes, machine)->0, state.option) == state.wanted()->0,
{
    law_request_is_understood(state);
}

/// Every round doubles the time to wait for the next one.
pub proof fn law_backoff_doubles(state: ReceiverState)
    requires
        state.retry < u32::MAX,
    ensures
        state.asked().deadline() == 2 * state.deadline(),
{
    lemma_pow2_unfold((state.retry + 1) as nat);
    let base = nanos(state.config.non_receive_timeout);
    let p = pow2(state.retry as nat);
    assert(base * (2 * p) == 2 * (base * p)) by (nonlinear_arith);
}

/// Whether the longest wait of a transfer is a span of time that can be expressed.
pub open spec fn waits_fit(state: ReceiverState) -> bool {
    &&& state.config.non_max_retransmit < 32
    &&& nanos(state.config.non_receive_timeout) * pow2(state.config.non_max_retransmit as nat)
        <= max_nanos()
}

/// If the longest wait can be expressed, all waits can: the rounds that were counted never exceed
/// `NON_MAX_RETRANSMIT`, since a round is counted only below it.
pub proof fn law_waits_can_be_expressed(state: ReceiverState)
    requires
        waits_fit(state),
        state.retry <= state.config.non_max_retransmit,
    ensures
        state.deadline_fits(),
        state.retry < state.config.non_max_retransmit ==> state.asked().retry
            <= state.config.non_max_retransmit && waits_fit(state.asked()),
{
    let base = nanos(state.config.non_receive_timeout);
    let retry = state.retry as nat;
    let most = state.config.non_max_retransmit as nat;
    if retry < most {
        lemma_pow2_strictly_increases(retry, most);
    }
    let p = pow2(retry);
    let q = pow2(most);
    assert(base * p <= base * q) by (nonlinear_arith)
        requires
            p <= q,
    ;
}

/// A transfer is given up when its last wait is over and all rounds are spent, and only then.
pub proof fn law_stalled_transfer_expires(
    state: ReceiverState,
    since_activity: Duration,
    outcome: RecoveryOutcome,
)
    requires
        state.polled(since_activity, outcome),
    ensures
        outcome is Expired <==> nanos(since_activity) >= state.deadline() && state.retry
            >= state.config.non_max_retransmit,
{
}

/// Recovery is timed from the last recorded block or request: a datagram restarts the time if and
/// only if it brought a block that was recorded, and any other that goes unanswered leaves the
/// recorded blocks and the wait as they were.
pub proof fn law_only_recorded_blocks_restart_the_time(
    before: ReceiverState,
    message: Option<Message>,
    after: ReceiverState,
    event: Result<ReceiveEvent, QBlockError>,
)
    requires
        datagram_taken(before, message, after, event),
    ensures
        (event matches Ok(ReceiveEvent::Activity)) <==> (message is Some && before.receive(
            message->0,
        ).1 == Ok::<Outcome, QBlockError>(Outcome::Accepted)),
        (event matches Ok(ReceiveEvent::Ignored)) ==> after.received == before.received
            && after.deadline() == before.deadline() && after.retry == before.retry,
{
}

} // verus!
