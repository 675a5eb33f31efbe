//! Laws of the calls that ask for missing blocks: what is asked for, how, and when.
use crate::body::block_count;
use crate::body::block_len;
use crate::body::lemma_block_bounds;
use crate::body::lemma_block_count;
use crate::body::lemma_small_sizes;
use crate::laws::receiving::after;
use crate::laws::receiving::blocks_of;
use crate::laws::receiving::fits;
use crate::laws::receiving::holds_part;
use crate::laws::receiving::law_delivery;
use crate::laws::receiving::law_fresh_receiver_holds_nothing;
use crate::laws::recovery::law_request_is_understood;
use crate::laws::recovery::law_request_names_the_lowest_gaps;
use crate::laws::transfer::fed;
use crate::laws::transfer::is_template;
use crate::laws::transfer::lemma_fed;
use crate::laws::transfer::made_from;
use crate::laws::transfer::nameable;
use crate::laws::transfer::sent_as;
use crate::packet::block_bytes;
use crate::packet::decode_block;
use crate::packet::law_block_round_trip;
use crate::packet::lemma_size_exponent;
use crate::packet::packet_contents;
use crate::packet::BlockValue;
use crate::packet::ByteOrder;
use crate::packet::Message;
use crate::range_set::blocks_below;
use crate::range_set::law_missing_names_the_gaps;
use crate::range_set::BlockSet;
use crate::receiver::with_block_requests;
use crate::receiver::QBlockReceiver;
use crate::receiver::ReceiverState;
use crate::receiver::RecoveryOutcome;
use crate::reports::parse_missing_request;
use crate::sender::SenderState;
use crate::time::nanos;
use crate::uint::decode_uint;
use crate::uint::law_uint_round_trip;
use crate::uint::lemma_uint_width;
use crate::uint::uint_bytes;
use coap_lite::Packet;
use std::time::Duration;
use vstd::arithmetic::power2::pow2;
use vstd::prelude::*;

verus! {

/// Whether a receiver knows which block is the last: the last block came in, or the length of the
/// body was announced, and this block ends it.
pub open spec fn ends_at(state: ReceiverState, last: u32) -> bool {
    let size = block_len(state.szx->0);
    &&& state.szx is Some
    &&& match state.received.total {
        Some(total) => last + 1 == total,
        None => match state.total_len {
            Some(len) => last * size < len <= (last + 1) * size || (len == 0 && last == 0),
            None => false,
        },
    }
}

proof fn lemma_ends_at(state: ReceiverState, last: u32)
    requires
        state.inv(),
        ends_at(state, last),
    ensures
        state.last_block(block_len(state.szx->0)) == Some(last),
{
    let size = block_len(state.szx->0);
    lemma_small_sizes(state.szx->0);
    if state.received.total is None {
        let len = state.total_len->0 as nat;
        lemma_block_count(len, size);
        let count = block_count(len, size);
        lemma_block_bounds(len, size, (count - 1) as nat);
        if len > 0 {
            let q = count - 1;
            let l = last as int;
            let s = size as int;
            assert(q * s < len);
            assert(len <= q * s + s);
            assert(q == l) by (nonlinear_arith)
                requires
                    q * s < len <= q * s + s,
                    l * s < len <= (l + 1) * s,
                    s > 0,
            ;
        }
    }
}

/// Once the last block is known, a receiver asks for the lowest blocks that it lacks, in ascending
/// order, and for no more than it may ask for at once: the peer reads exactly those from the
/// request. It does so whichever blocks it lacks, the last one included. It asks for nothing if it
/// lacks nothing. In a request for a response body the template brings no Q-Block2 options, and the
/// numbers fit a block option.
pub proof fn law_receiver_asks_for_what_it_lacks(
    receiver: &QBlockReceiver,
    request: Option<Packet>,
    last: u32,
    asked: Vec<u32>,
)
    requires
        receiver.wf(),
        call_ensures(QBlockReceiver::build_recovery_request, (receiver,), request),
        ends_at(receiver@, last),
        receiver@.option == 19 || (receiver@.option == 31 && receiver@.template.values(31).len()
            == 0 && last < 4096),
        request matches Some(packet) ==> call_ensures(
            parse_missing_request,
            (&packet, receiver@.option),
            asked,
        ),
    ensures
        request is Some <==> exists|n: u32| n <= last && !receiver@.received.blocks.contains(n),
        request is Some ==> {
            &&& asked@.len() <= receiver@.config.max_payloads
            &&& forall|i: int, j: int| 0 <= i < j < asked@.len() ==> asked@[i] < asked@[j]
            &&& forall|n: u32| #[trigger]
                asked@.contains(n) ==> n <= last && !receiver@.received.blocks.contains(n)
            &&& forall|n: u32|
                n <= last && !receiver@.received.blocks.contains(n) && !(#[trigger]
                asked@.contains(n)) ==> asked@.len() == receiver@.config.max_payloads && forall|
                    i: int,
                |
                    0 <= i < asked@.len() ==> asked@[i] < n
        },
{
    let state = receiver@;
    receiver.lemma_inv();
    lemma_ends_at(state, last);
    law_request_names_the_lowest_gaps(state, last);
    law_missing_names_the_gaps(state.received.blocks, last as nat + 1);
    let missing = state.received.missing(last);
    if exists|n: u32| n <= last && !state.received.blocks.contains(n) {
        let n = choose|n: u32| n <= last && !state.received.blocks.contains(n);
        assert(missing.contains(n));
        let wanted = state.wanted()->0;
        assert forall|i: int| 0 <= i < wanted.len() implies (#[trigger] wanted[i]) <= last by {}
    }
    if request is Some {
        law_request_is_understood(state);
        let wanted = state.wanted()->0;
        assert(asked@ == wanted);
        assert forall|n: u32| #[trigger] asked@.contains(n) implies n <= last
            && !state.received.blocks.contains(n) by {
            let i = choose|i: int| 0 <= i < wanted.len() && wanted[i] == n;
            assert(wanted[i] <= last);
        }
        assert(missing.len() > 0);
        assert(missing.contains(missing[0]));
    }
}

/// A receiver that knows the last block and lacks one asks for blocks, whichever it lacks, as long
/// as a block option can name the last one; a report on a request body can name all.
pub proof fn law_what_is_lacking_is_asked_for(
    receiver: &QBlockReceiver,
    request: Option<Packet>,
    last: u32,
)
    requires
        receiver.wf(),
        call_ensures(QBlockReceiver::build_recovery_request, (receiver,), request),
        ends_at(receiver@, last),
        receiver@.option == 19 || (receiver@.option == 31 && last < 0x1_0000),
    ensures
        request is Some <==> exists|n: u32| n <= last && !receiver@.received.blocks.contains(n),
{
    let state = receiver@;
    receiver.lemma_inv();
    lemma_ends_at(state, last);
    law_request_names_the_lowest_gaps(state, last);
    law_missing_names_the_gaps(state.received.blocks, last as nat + 1);
    let missing = state.received.missing(last);
    if exists|n: u32| n <= last && !state.received.blocks.contains(n) {
        let n = choose|n: u32| n <= last && !state.received.blocks.contains(n);
        assert(missing.contains(n));
        let wanted = state.wanted()->0;
        assert forall|i: int| 0 <= i < wanted.len() implies (#[trigger] wanted[i]) <= last by {}
    }
    if request is Some {
        assert(missing.len() > 0);
        assert(missing.contains(missing[0]));
    }
}

/// Nothing is asked for while no block came in, or while neither the last block nor the length of
/// the body is known.
pub proof fn law_nothing_is_asked_without_an_end(receiver: &QBlockReceiver, request: Option<Packet>)
    requires
        receiver.wf(),
        call_ensures(QBlockReceiver::build_recovery_request, (receiver,), request),
        receiver@.szx is None || (receiver@.received.total is None && receiver@.total_len is None),
    ensures
        request is None,
{
}

/// A request for missing blocks of a request body is a 4.08 response in the missing-blocks format.
/// All else is as in the template: the type, the message ID, the token and the other options.
pub proof fn law_report_of_missing_blocks(receiver: &QBlockReceiver, request: Packet)
    requires
        receiver.wf(),
        call_ensures(QBlockReceiver::build_recovery_request, (receiver,), Some(request)),
        receiver@.option == 19,
    ensures
        ({
            let message = packet_contents(request);
            let template = receiver@.template;
            &&& message.code == 0x88
            &&& message.role is Other
            &&& message.first == template.first
            &&& message.id == template.id
            &&& message.token == template.token
            &&& message.values(12).len() == template.values(12).len() + 1
            &&& decode_uint(message.values(12).last(), 2) == Some(272nat)
            &&& forall|number: u16|
                number != 12 ==> #[trigger] message.values(number) == template.values(number)
        }),
{
    let message = packet_contents(request);
    law_uint_round_trip(272);
    lemma_uint_width(272);
    assert(message.values(12).last() == uint_bytes(272));
}

proof fn lemma_block_requests_form(template: Message, blocks: Seq<u32>, szx: u8)
    requires
        szx < 8,
        forall|i: int| 0 <= i < blocks.len() ==> (#[trigger] blocks[i]) < 4096,
    ensures
        ({
            let message = with_block_requests(template, blocks, block_len(szx));
            let old_len = template.values(31).len();
            &&& message == (Message { options: message.options, ..template })
            &&& message.values(31).len() == old_len + blocks.len()
            &&& forall|i: int|
                0 <= i < blocks.len() ==> decode_block(#[trigger] message.values(31)[old_len + i])
                    == Some(BlockValue { num: blocks[i] as u16, more: false, size_exponent: szx })
            &&& forall|i: int|
                0 <= i < old_len ==> #[trigger] message.values(31)[i] == template.values(31)[i]
            &&& forall|number: u16|
                number != 31 ==> #[trigger] message.values(number) == template.values(number)
        }),
    decreases blocks.len(),
{
    if blocks.len() > 0 {
        let front = blocks.drop_last();
        assert forall|i: int| 0 <= i < front.len() implies (#[trigger] front[i]) < 4096 by {
            assert(front[i] == blocks[i]);
        }
        lemma_block_requests_form(template, front, szx);
        lemma_small_sizes(szx);
        lemma_size_exponent(szx);
        assert(blocks[blocks.len() - 1] == blocks.last());
        let block = BlockValue { num: blocks.last() as u16, more: false, size_exponent: szx };
        law_block_round_trip(block);
        let before = with_block_requests(template, front, block_len(szx));
        let message = with_block_requests(template, blocks, block_len(szx));
        let old_len = template.values(31).len();
        assert(message.values(31) =~= before.values(31).push(block_bytes(block)));
        assert forall|i: int| 0 <= i < blocks.len() implies decode_block(
            #[trigger] message.values(31)[old_len + i],
        ) == Some(BlockValue { num: blocks[i] as u16, more: false, size_exponent: szx }) by {
            if i < front.len() {
                assert(front[i] == blocks[i]);
                assert(message.values(31)[old_len + i] == before.values(31)[old_len + i]);
            }
        }
        assert forall|i: int| 0 <= i < old_len implies #[trigger] message.values(31)[i]
            == template.values(31)[i] by {
            assert(message.values(31)[i] == before.values(31)[i]);
        }
        assert forall|number: u16| number != 31 implies #[trigger] message.values(number)
            == template.values(number) by {
            assert(message.values(number) == before.values(number));
        }
    }
}

/// A request for missing blocks of a response body is the template with one Q-Block2 option more
/// for each block: it names the block in the size of the transfer. All else is as in the template.
pub proof fn law_request_for_missing_blocks(receiver: &QBlockReceiver, request: Packet, last: u32)
    requires
        receiver.wf(),
        call_ensures(QBlockReceiver::build_recovery_request, (receiver,), Some(request)),
        receiver@.option == 31,
        ends_at(receiver@, last),
        last < 4096,
    ensures
        ({
            let message = packet_contents(request);
            let template = receiver@.template;
            &&& message == (Message { options: message.options, ..template })
            &&& forall|i: int|
                template.values(31).len() <= i < message.values(31).len() ==> {
                    &&& decode_block(#[trigger] message.values(31)[i]) is Some
                    &&& decode_block(message.values(31)[i])->0.size_exponent == receiver@.szx->0
                    &&& !decode_block(message.values(31)[i])->0.more
                    &&& !receiver@.received.blocks.contains(
                        decode_block(message.values(31)[i])->0.num as u32,
                    )
                }
            &&& forall|number: u16|
                number != 31 ==> #[trigger] message.values(number) == template.values(number)
        }),
{
    let state = receiver@;
    receiver.lemma_inv();
    lemma_ends_at(state, last);
    law_request_names_the_lowest_gaps(state, last);
    let wanted = state.wanted()->0;
    assert forall|i: int| 0 <= i < wanted.len() implies (#[trigger] wanted[i]) < 4096 by {}
    lemma_block_requests_form(state.template, wanted, state.szx->0);
    let message = packet_contents(request);
    let old_len = state.template.values(31).len();
    assert forall|i: int| old_len <= i < message.values(31).len() implies {
        &&& decode_block(#[trigger] message.values(31)[i]) is Some
        &&& decode_block(message.values(31)[i])->0.size_exponent == state.szx->0
        &&& !decode_block(message.values(31)[i])->0.more
        &&& !state.received.blocks.contains(decode_block(message.values(31)[i])->0.num as u32)
    } by {
        let k = i - old_len;
        assert(message.values(31)[old_len + k] == message.values(31)[i]);
        assert(!state.received.blocks.contains(wanted[k]));
    }
}

/// Each Q-Block2 option that such a request adds names a block that is missing, up to the last that
/// a block option can name, and there are no more than may be asked for at once.
pub proof fn law_requests_name_missing_blocks(receiver: &QBlockReceiver, request: Packet, last: u32)
    requires
        receiver.wf(),
        call_ensures(QBlockReceiver::build_recovery_request, (receiver,), Some(request)),
        receiver@.option == 31,
        ends_at(receiver@, last),
        last < 0x1_0000,
    ensures
        ({
            let values = packet_contents(request).values(31);
            let brought = receiver@.template.values(31);
            &&& brought.len() <= values.len() <= brought.len() + receiver@.config.max_payloads
            &&& forall|i: int| 0 <= i < brought.len() ==> #[trigger] values[i] == brought[i]
            &&& forall|i: int|
                brought.len() <= i < values.len() ==> names_missing(
                    receiver@,
                    last,
                    #[trigger] values[i],
                )
        }),
{
    let state = receiver@;
    receiver.lemma_inv();
    lemma_ends_at(state, last);
    law_request_names_the_lowest_gaps(state, last);
    let wanted = state.wanted()->0;
    assert forall|i: int| 0 <= i < wanted.len() implies (#[trigger] wanted[i]) < 0x1_0000 by {}
    lemma_option_values(state.template, wanted, state.szx->0);
    let values = packet_contents(request).values(31);
    let brought = state.template.values(31);
    assert forall|i: int| brought.len() <= i < values.len() implies names_missing(
        state,
        last,
        #[trigger] values[i],
    ) by {
        let n = wanted[i - brought.len()];
        assert(values[brought.len() + (i - brought.len())] == option_value(n, state.szx->0));
    }
}

/// Whether an option value names a block that is missing.
pub open spec fn names_missing(state: ReceiverState, last: u32, value: Seq<u8>) -> bool {
    exists|n: u32|
        n <= last && !state.received.blocks.contains(n) && value == #[trigger] option_value(
            n,
            state.szx->0,
        )
}

/// The value of an option that names block `n` as one to send again.
pub open spec fn option_value(n: u32, szx: u8) -> Seq<u8> {
    block_bytes(BlockValue { num: n as u16, more: false, size_exponent: szx })
}

proof fn lemma_option_values(template: Message, blocks: Seq<u32>, szx: u8)
    requires
        szx < 8,
        forall|i: int| 0 <= i < blocks.len() ==> (#[trigger] blocks[i]) < 0x1_0000,
    ensures
        ({
            let values = with_block_requests(template, blocks, block_len(szx)).values(31);
            let brought = template.values(31);
            &&& values.len() == brought.len() + blocks.len()
            &&& forall|i: int| 0 <= i < brought.len() ==> #[trigger] values[i] == brought[i]
            &&& forall|i: int|
                0 <= i < blocks.len() ==> #[trigger] values[brought.len() + i] == option_value(
                    blocks[i],
                    szx,
                )
        }),
    decreases blocks.len(),
{
    if blocks.len() > 0 {
        let front = blocks.drop_last();
        assert forall|i: int| 0 <= i < front.len() implies (#[trigger] front[i]) < 0x1_0000 by {
            assert(front[i] == blocks[i]);
        }
        lemma_option_values(template, front, szx);
        lemma_small_sizes(szx);
        lemma_size_exponent(szx);
        assert(blocks[blocks.len() - 1] == blocks.last());
        let before = with_block_requests(template, front, block_len(szx)).values(31);
        let values = with_block_requests(template, blocks, block_len(szx)).values(31);
        let brought = template.values(31);
        assert(values =~= before.push(option_value(blocks.last(), szx)));
        assert forall|i: int| 0 <= i < blocks.len() implies #[trigger] values[brought.len() + i]
            == option_value(blocks[i], szx) by {
            if i < front.len() {
                assert(front[i] == blocks[i]);
                assert(values[brought.len() + i] == before[brought.len() + i]);
            }
        }
        assert forall|i: int| 0 <= i < brought.len() implies #[trigger] values[i] == brought[i] by {
            assert(values[i] == before[i]);
        }
    }
}

/// A receiver waits for the base timeout, doubled by every round since the last recorded block; a
/// shorter silence is waited out to the nanosecond. Then it asks, if there is something to ask for,
/// and counts the round; it looks again after the base timeout if there is not. With all rounds
/// spent it gives up. Nothing else changes.
pub proof fn law_polls_follow_the_backoff(
    receiver: &mut QBlockReceiver,
    since_activity: Duration,
    outcome: RecoveryOutcome,
    request: Option<Packet>,
)
    requires
        old(receiver).wf(),
        old(receiver)@.retry < 32,
        nanos(old(receiver)@.config.non_receive_timeout) * pow2(old(receiver)@.retry as nat)
            <= u64::MAX * 1_000_000_000 + 999_999_999,
        call_ensures(QBlockReceiver::poll_recovery, (receiver, since_activity), outcome),
        call_ensures(QBlockReceiver::build_recovery_request, (&*old(receiver),), request),
    ensures
        call_requires(QBlockReceiver::poll_recovery, (receiver, since_activity)),
        ({
            let before = old(receiver)@;
            let after = final(receiver)@;
            let base = nanos(before.config.non_receive_timeout);
            let due = base * pow2(before.retry as nat);
            let waited = nanos(since_activity) >= due;
            let spent = before.retry >= before.config.non_max_retransmit;
            &&& !waited ==> outcome is Wait && nanos(outcome->Wait_0) + nanos(since_activity) == due
            &&& outcome is Expired <==> waited && spent
            &&& outcome is Resend <==> waited && !spent && request is Some
            &&& outcome is Resend ==> packet_contents(outcome->Resend_0) == packet_contents(
                request->0,
            )
            &&& waited && !spent && request is None ==> outcome is Wait && nanos(outcome->Wait_0)
                == base
            &&& outcome is Resend ==> after == (ReceiverState {
                retry: (before.retry + 1) as u32,
                ..before
            })
            &&& !(outcome is Resend) ==> after == before
        }),
{
}

/// What is said to be the next deadline is the time after which a poll waits no more.
pub proof fn law_deadline_is_when_polls_stop_waiting(
    receiver: &mut QBlockReceiver,
    deadline: Option<Duration>,
    since_activity: Duration,
    outcome: RecoveryOutcome,
)
    requires
        old(receiver).wf(),
        call_ensures(QBlockReceiver::next_deadline, (&*old(receiver),), deadline),
        deadline is Some,
        call_ensures(QBlockReceiver::poll_recovery, (receiver, since_activity), outcome),
    ensures
        old(receiver)@.deadline_fits(),
        nanos(deadline->0) == nanos(old(receiver)@.config.non_receive_timeout) * pow2(
            old(receiver)@.retry as nat,
        ),
        nanos(since_activity) < nanos(deadline->0) ==> outcome is Wait && nanos(since_activity)
            + nanos(outcome->Wait_0) == nanos(deadline->0),
        nanos(since_activity) >= nanos(deadline->0) && outcome is Wait ==> nanos(outcome->Wait_0)
            == nanos(old(receiver)@.config.non_receive_timeout),
{
}

/// A deadline can be told if it is no longer than the longest span and no more than 31 rounds were
/// counted.
pub proof fn law_deadline_is_told_if_it_can_be(
    receiver: &QBlockReceiver,
    deadline: Option<Duration>,
)
    requires
        call_ensures(QBlockReceiver::next_deadline, (receiver,), deadline),
    ensures
        deadline is Some <==> receiver@.retry < 32 && nanos(receiver@.config.non_receive_timeout)
            * pow2(receiver@.retry as nat) <= u64::MAX * 1_000_000_000 + 999_999_999,
{
}

/// Some part of the messages of a body, read in any order by a new receiver, leaves it knowing the
/// length of the body, and so where the body ends. Every block that was not among them is still to
/// be asked for, be it the last one.
pub proof fn law_any_part_of_a_body_tells_its_length(
    machine: ByteOrder,
    sender: SenderState,
    template: Message,
    receiver: ReceiverState,
    order: Seq<u32>,
    pdus: Seq<Seq<u8>>,
    lost: u32,
)
    requires
        made_from(sender, template),
        is_template(template, sender.option, machine),
        nameable(sender),
        receiver.option == sender.option,
        fits(receiver, sender.body, sender.szx),
        receiver.received == BlockSet::empty(),
        receiver.body.len() == 0,
        receiver.szx is None,
        receiver.total_len is None,
        receiver.final_len is None,
        order.len() > 0,
        forall|i: int|
            0 <= i < order.len() ==> (#[trigger] order[i]) < blocks_of(sender.body, sender.szx),
        lost < blocks_of(sender.body, sender.szx),
        !order.contains(lost),
        sent_as(sender, order, pdus),
    ensures
        ({
            let now = fed(machine, receiver, pdus);
            &&& now.total_len == Some(sender.body.len() as u32)
            &&& now.szx == Some(sender.szx)
            &&& ends_at(now, (blocks_of(sender.body, sender.szx) - 1) as u32)
            &&& !now.received.blocks.contains(lost)
            &&& now.wanted() is Some
            &&& !now.wanted()->0.contains(lost) ==> now.wanted()->0.len()
                == now.config.max_payloads && forall|i: int|
                0 <= i < now.wanted()->0.len() ==> now.wanted()->0[i] < lost
        }),
{
    let body = sender.body;
    let szx = sender.szx;
    let size = Some(body.len() as u32);
    let count = blocks_of(body, szx);
    let now = fed(machine, receiver, pdus);
    lemma_fed(machine, sender, template, receiver, order, pdus);
    lemma_part_is_held(receiver, body, szx, size, order, lost);
    lemma_small_sizes(szx);
    lemma_block_count(body.len(), block_len(szx));
    lemma_block_bounds(body.len(), block_len(szx), (count - 1) as nat);
    let last = (count - 1) as u32;
    let s = block_len(szx) as int;
    assert((last + 1) * s == last * s + s) by (nonlinear_arith);
    assert(now.received.total is Some ==> now.received.total == Some(count as u32));
    assert(now.last_block(block_len(szx)) == Some(last));
    law_request_names_the_lowest_gaps(now, last);
}

proof fn lemma_part_is_held(
    state: ReceiverState,
    body: Seq<u8>,
    szx: u8,
    size: Option<u32>,
    order: Seq<u32>,
    lost: u32,
)
    requires
        fits(state, body, szx),
        state.received == BlockSet::empty(),
        state.body.len() == 0,
        state.szx is None,
        state.total_len is None,
        state.final_len is None,
        forall|i: int| 0 <= i < order.len() ==> (#[trigger] order[i]) < blocks_of(body, szx),
        lost < blocks_of(body, szx),
        !order.contains(lost),
    ensures
        ({
            let now = after(state, body, szx, size, order);
            &&& holds_part(now, body, szx)
            &&& !now.received.blocks.contains(lost)
            &&& order.len() > 0 ==> now.szx == Some(szx) && now.total_len == size
            &&& now.config == state.config
        }),
    decreases order.len(),
{
    let now = after(state, body, szx, size, order);
    if order.len() == 0 {
        law_fresh_receiver_holds_nothing(state, body, szx);
    } else {
        let front = order.drop_last();
        let n = order.last();
        assert(order[order.len() - 1] == n);
        assert forall|i: int| 0 <= i < front.len() implies (#[trigger] front[i]) < blocks_of(
            body,
            szx,
        ) by {
            assert(front[i] == order[i]);
        }
        assert(!front.contains(lost)) by {
            if front.contains(lost) {
                let i = choose|i: int| 0 <= i < front.len() && front[i] == lost;
                assert(order[i] == lost);
            }
        }
        lemma_part_is_held(state, body, szx, size, front, lost);
        let before = after(state, body, szx, size, front);
        assert(blocks_below(blocks_of(body, szx) as u32).contains(lost));
        law_delivery(before, body, szx, size, n);
        assert(n != lost);
        assert(!now.received.blocks.contains(lost));
    }
}

} // verus!
