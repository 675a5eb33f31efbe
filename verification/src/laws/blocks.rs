//! Laws of the calls that feed blocks to a receiver: what each block does, whatever came before.
use crate::body::block_len;
use crate::config::QBlockConfig;
use crate::config::QBlockError;
use crate::packet::packet_contents;
use crate::packet::BlockValue;
use crate::range_set::blocks_below;
use crate::range_set::law_missing_names_the_gaps;
use crate::range_set::lemma_below_finite;
use crate::range_set::run_count;
use crate::range_set::run_starts;
use crate::range_set::RangeSet;
use crate::range_set::RBLOCK_CNT;
use crate::receiver::BlockOutcome;
use crate::receiver::QBlockReceiver;
use coap_lite::Packet;
use vstd::prelude::*;
use vstd::set_lib::lemma_set_subset_finite;

verus! {

/// Every set of block numbers is finite.
pub proof fn lemma_numbers_are_finite(blocks: Set<u32>)
    ensures
        blocks.finite(),
{
    lemma_below_finite(u32::MAX as nat);
    let all = blocks_below(u32::MAX).insert(u32::MAX);
    assert(blocks.subset_of(all));
    lemma_set_subset_finite(all, blocks);
}

/// A number starts a run of its own if and only if it is new and neither neighbour is there.
pub proof fn lemma_new_run(blocks: Set<u32>, n: u32)
    ensures
        run_count(blocks.insert(n)) > run_count(blocks) <==> !blocks.contains(n) && !(n > 0
            && blocks.contains((n - 1) as u32)) && !(n < u32::MAX && blocks.contains(
            (n + 1) as u32,
        )),
        run_count(blocks.insert(n)) <= run_count(blocks) + 1,
{
    let starts = run_starts(blocks);
    let after = run_starts(blocks.insert(n));
    lemma_numbers_are_finite(starts);
    lemma_numbers_are_finite(after);
    if blocks.contains(n) {
        assert(blocks.insert(n) =~= blocks);
    } else {
        let left = n > 0 && blocks.contains((n - 1) as u32);
        let right = n < u32::MAX && blocks.contains((n + 1) as u32);
        if left && right {
            assert(after =~= starts.remove((n + 1) as u32));
            assert(starts.contains((n + 1) as u32));
        } else if left {
            assert(after =~= starts);
        } else if right {
            assert(starts.contains((n + 1) as u32));
            assert(after =~= starts.remove((n + 1) as u32).insert(n));
        } else {
            assert(after =~= starts.insert(n));
            assert(!starts.contains(n));
        }
    }
}

/// A tracked set refuses a block for two reasons only: it lies beyond the last block, or it starts
/// a run of its own while there are as many as there may be. Otherwise the block is in the set, and
/// the last block of a body tells how many there are. No other block comes or goes.
pub proof fn law_tracking_a_block(set: &mut RangeSet, n: u32, more: bool, taken: bool)
    requires
        old(set).wf(),
        n < u32::MAX,
        call_ensures(RangeSet::insert, (set, n, more), taken),
    ensures
        taken <==> !(old(set)@.total matches Some(total) && n >= total) && (run_count(
            old(set)@.blocks.insert(n),
        ) <= run_count(old(set)@.blocks) || run_count(old(set)@.blocks) < RBLOCK_CNT),
        taken ==> final(set)@.blocks == old(set)@.blocks.insert(n),
        taken && more ==> final(set)@.total == old(set)@.total,
        taken && !more ==> final(set)@.total == Some((n + 1) as u32),
        !taken ==> final(set)@ == old(set)@,
{
    lemma_new_run(old(set)@.blocks, n);
}

/// Taking a block out of a tracked set leaves every other one, and what is known of the end.
pub proof fn law_untracking_a_block(set: &mut RangeSet, n: u32)
    requires
        old(set).wf(),
        call_ensures(RangeSet::remove, (set, n), ()),
    ensures
        !final(set)@.blocks.contains(n),
        forall|m: u32|
            m != n ==> #[trigger] final(set)@.blocks.contains(m) == old(set)@.blocks.contains(m),
        final(set)@.total == old(set)@.total,
{
}

/// A tracked set says of itself what is in it: whether it is empty, its smallest block, whether it
/// holds a whole body, and which blocks up to a given one it lacks, in ascending order.
pub proof fn law_tracked_blocks_are_told(
    set: &RangeSet,
    empty: bool,
    first: Option<u32>,
    complete: bool,
    last: u32,
    missing: Vec<u32>,
)
    requires
        set.wf(),
        call_ensures(RangeSet::is_empty, (set,), empty),
        call_ensures(RangeSet::first, (set,), first),
        call_ensures(RangeSet::is_complete, (set,), complete),
        call_ensures(RangeSet::missing, (set, last), missing),
    ensures
        empty <==> forall|n: u32| !set@.blocks.contains(n),
        first is None <==> empty,
        first matches Some(n) ==> set@.blocks.contains(n) && forall|m: u32| #[trigger]
            set@.blocks.contains(m) ==> n <= m,
        complete <==> set@.total is Some && forall|n: u32|
            n < set@.total->0 ==> set@.blocks.contains(n),
        forall|n: u32| #[trigger] missing@.contains(n) <==> n <= last && !set@.blocks.contains(n),
        forall|i: int, j: int| 0 <= i < j < missing@.len() ==> missing@[i] < missing@[j],
{
    law_missing_names_the_gaps(set@.blocks, last as nat + 1);
}

/// A receiver refuses a block for three reasons only: its size is not that of the blocks before; it
/// reaches past the longest body; or it cannot be tracked, since it lies beyond the last block or
/// starts a run of its own while there are as many as there may be.
pub proof fn law_blocks_are_refused_for_cause(
    receiver: &mut QBlockReceiver,
    block: BlockValue,
    size: Option<u32>,
    payload: &[u8],
    outcome: Result<BlockOutcome, QBlockError>,
)
    requires
        old(receiver).wf(),
        block.size_exponent < 8,
        call_ensures(QBlockReceiver::accept_block, (receiver, block, size, payload), outcome),
    ensures
        ({
            let before = old(receiver)@;
            let known = before.received;
            let other_size = before.szx is Some && before.szx->0 != block.size_exponent;
            let too_long = block.num * block_len(block.size_exponent) + payload@.len()
                > before.max_body_len;
            let untracked = (known.total is Some && block.num >= known.total->0) || (run_count(
                known.blocks.insert(block.num as u32),
            ) > run_count(known.blocks) && run_count(known.blocks) >= RBLOCK_CNT);
            &&& (outcome matches Err(QBlockError::SizeChanged)) <==> other_size
            &&& (outcome matches Err(QBlockError::BodyTooLong)) <==> !other_size && too_long
            &&& (outcome matches Ok(BlockOutcome::Dropped)) <==> !other_size && !too_long
                && untracked
            &&& outcome matches Err(e) ==> e == QBlockError::SizeChanged || e
                == QBlockError::BodyTooLong
            &&& !(outcome matches Ok(BlockOutcome::NotQBlock))
        }),
{
    lemma_new_run(old(receiver)@.received.blocks, block.num as u32);
}

/// A block that is refused changes nothing that was received. One of another size changes nothing
/// at all.
pub proof fn law_refused_blocks_change_nothing_received(
    receiver: &mut QBlockReceiver,
    block: BlockValue,
    size: Option<u32>,
    payload: &[u8],
    outcome: Result<BlockOutcome, QBlockError>,
)
    requires
        old(receiver).wf(),
        block.size_exponent < 8,
        call_ensures(QBlockReceiver::accept_block, (receiver, block, size, payload), outcome),
        outcome is Err || outcome->Ok_0 is Dropped,
    ensures
        final(receiver)@.received == old(receiver)@.received,
        final(receiver)@.body == old(receiver)@.body,
        final(receiver)@.final_len == old(receiver)@.final_len,
        final(receiver)@.retry == old(receiver)@.retry,
        outcome matches Err(QBlockError::SizeChanged) ==> final(receiver)@ == old(receiver)@,
{
}

/// A block never changes what a transfer was opened with.
pub proof fn law_blocks_leave_the_settings(
    receiver: &mut QBlockReceiver,
    block: BlockValue,
    size: Option<u32>,
    payload: &[u8],
    outcome: Result<BlockOutcome, QBlockError>,
)
    requires
        old(receiver).wf(),
        block.size_exponent < 8,
        call_ensures(QBlockReceiver::accept_block, (receiver, block, size, payload), outcome),
    ensures
        final(receiver)@.option == old(receiver)@.option,
        final(receiver)@.template == old(receiver)@.template,
        final(receiver)@.max_body_len == old(receiver)@.max_body_len,
        final(receiver)@.config == old(receiver)@.config,
{
}

/// The first block tells the block size, and the first block of that size that comes with a length
/// tells the length of the body, be it recorded or not. What is known stays.
pub proof fn law_first_blocks_tell_size_and_length(
    receiver: &mut QBlockReceiver,
    block: BlockValue,
    size: Option<u32>,
    payload: &[u8],
    outcome: Result<BlockOutcome, QBlockError>,
)
    requires
        old(receiver).wf(),
        block.size_exponent < 8,
        call_ensures(QBlockReceiver::accept_block, (receiver, block, size, payload), outcome),
    ensures
        old(receiver)@.szx is Some ==> final(receiver)@.szx == old(receiver)@.szx,
        old(receiver)@.szx is None ==> final(receiver)@.szx == Some(block.size_exponent),
        old(receiver)@.total_len is Some ==> final(receiver)@.total_len == old(receiver)@.total_len,
        old(receiver)@.total_len is None && (old(receiver)@.szx is None || old(receiver)@.szx
            == Some(block.size_exponent)) ==> final(receiver)@.total_len == size,
{
}

/// A block that is not refused is recorded: it is among the received ones, and with it no other is;
/// its bytes stand at its place, every other byte stays, and bytes before it that are yet to come
/// are zero. The last block tells how many there are and where the body ends. The rounds of asking
/// start anew.
pub proof fn law_block_is_recorded_at_its_place(
    receiver: &mut QBlockReceiver,
    block: BlockValue,
    size: Option<u32>,
    payload: &[u8],
    outcome: Result<BlockOutcome, QBlockError>,
)
    requires
        old(receiver).wf(),
        block.size_exponent < 8,
        call_ensures(QBlockReceiver::accept_block, (receiver, block, size, payload), outcome),
        outcome is Ok,
        !(outcome->Ok_0 is Dropped),
    ensures
        ({
            let before = old(receiver)@;
            let after = final(receiver)@;
            let start = block.num * block_len(block.size_exponent);
            let end = start + payload@.len();
            let bytes = if outcome->Ok_0 is Complete {
                outcome->Ok_0->Complete_0@
            } else {
                after.body
            };
            &&& after.received.blocks == before.received.blocks.insert(block.num as u32)
            &&& after.retry == 0
            &&& block.more ==> after.received.total == before.received.total && after.final_len
                == before.final_len
            &&& !block.more ==> after.received.total == Some((block.num + 1) as u32)
                && after.final_len == Some(end as usize)
            &&& outcome->Ok_0 is Accepted ==> bytes.len() >= end && bytes.len()
                >= before.body.len() && (bytes.len() == end || bytes.len() == before.body.len())
            &&& forall|i: int|
                start <= i < end && i < bytes.len() ==> #[trigger] bytes[i] == payload@[i - start]
            &&& forall|i: int|
                (0 <= i < start || end <= i) && i < bytes.len() ==> #[trigger] bytes[i] == if i
                    < before.body.len() {
                    before.body[i]
                } else {
                    0
                }
        }),
{
}

/// A body is handed out by the block that closes its last gap, and by no other: all blocks up to
/// the last are then received. It is as long as its last block says, if that much was written.
pub proof fn law_body_is_handed_out_when_whole(
    receiver: &mut QBlockReceiver,
    block: BlockValue,
    size: Option<u32>,
    payload: &[u8],
    outcome: Result<BlockOutcome, QBlockError>,
)
    requires
        old(receiver).wf(),
        block.size_exponent < 8,
        call_ensures(QBlockReceiver::accept_block, (receiver, block, size, payload), outcome),
        outcome is Ok,
        !(outcome->Ok_0 is Dropped),
    ensures
        ({
            let before = old(receiver)@;
            let after = final(receiver)@;
            let end = block.num * block_len(block.size_exponent) + payload@.len();
            let written = if before.body.len() < end {
                end
            } else {
                before.body.len() as int
            };
            let whole = after.received.total is Some && forall|n: u32|
                n < after.received.total->0 ==> after.received.blocks.contains(n);
            &&& outcome->Ok_0 is Complete <==> whole
            &&& outcome->Ok_0 is Accepted <==> !whole
            &&& outcome matches Ok(BlockOutcome::Complete(body)) ==> after.body.len() == 0
                && body@.len() == (if after.final_len is Some && after.final_len->0 <= written {
                after.final_len->0 as int
            } else {
                written
            })
        }),
{
}

/// The option that a message names the length of its body with: Size1 for a request body, and Size2
/// for a response body.
pub open spec fn length_option(request_body: bool) -> u16 {
    if request_body {
        60
    } else {
        28
    }
}

/// Feeding a message is feeding its block, with the length from its Size1 option for a request body
/// and from its Size2 option for a response body, and with its payload. A message without a block
/// of the transfer changes nothing.
pub proof fn law_message_is_fed_as_its_block(
    receiver: &mut QBlockReceiver,
    pdu: &Packet,
    outcome: Result<BlockOutcome, QBlockError>,
    other: &mut QBlockReceiver,
    block: BlockValue,
    size: Option<u32>,
    payload: &[u8],
    other_outcome: Result<BlockOutcome, QBlockError>,
)
    requires
        old(receiver).wf(),
        old(other).wf(),
        old(receiver)@ == old(other)@,
        block.size_exponent < 8,
        call_ensures(QBlockReceiver::accept, (receiver, pdu), outcome),
        call_ensures(QBlockReceiver::accept_block, (other, block, size, payload), other_outcome),
        size == packet_contents(*pdu).first_u32(length_option(old(receiver)@.option == 19)),
        payload@ == packet_contents(*pdu).payload,
    ensures
        packet_contents(*pdu).first_block(old(receiver)@.option) == Some(block) ==> final(receiver)@
            == final(other)@ && match (outcome, other_outcome) {
            (Ok(a), Ok(b)) => a@ == b@,
            (Err(e), Err(f)) => e == f,
            _ => false,
        },
        packet_contents(*pdu).first_block(old(receiver)@.option) is None ==> final(receiver)@
            == old(receiver)@ && outcome matches Ok(BlockOutcome::NotQBlock),
{
}

/// The first message of a body that says how long the body is tells the receiver, for request
/// bodies and for response bodies alike, and whatever becomes of its block: unless the block has
/// another size than those before it.
pub proof fn law_announced_length_is_noted(
    receiver: &mut QBlockReceiver,
    pdu: &Packet,
    outcome: Result<BlockOutcome, QBlockError>,
)
    requires
        old(receiver).wf(),
        call_ensures(QBlockReceiver::accept, (receiver, pdu), outcome),
        packet_contents(*pdu).first_block(old(receiver)@.option) is Some,
        !(outcome matches Err(QBlockError::SizeChanged)),
    ensures
        final(receiver)@.total_len == if old(receiver)@.total_len is Some {
            old(receiver)@.total_len
        } else {
            packet_contents(*pdu).first_u32(length_option(old(receiver)@.option == 19))
        },
{
}

/// A receiver says of itself what it has received.
pub proof fn law_receiver_tells_what_it_has(
    receiver: &QBlockReceiver,
    blocks: &RangeSet,
    total: Option<u32>,
    complete: bool,
)
    requires
        receiver.wf(),
        call_ensures(QBlockReceiver::rec_blocks, (receiver,), blocks),
        call_ensures(RangeSet::total_blocks, (blocks,), total),
        call_ensures(QBlockReceiver::is_complete, (receiver,), complete),
    ensures
        blocks.wf(),
        blocks@ == receiver@.received,
        total == receiver@.received.total,
        complete <==> total is Some && forall|n: u32|
            n < total->0 ==> receiver@.received.blocks.contains(n),
{
}

/// A new set tracks nothing.
pub proof fn law_new_set_tracks_nothing(set: RangeSet)
    requires
        call_ensures(RangeSet::new, (), set),
    ensures
        set.wf(),
        forall|n: u32| !set@.blocks.contains(n),
        set@.total is None,
{
}

/// A receiver starts with nothing received and nothing known, and with what it was opened with.
pub proof fn law_new_receiver_knows_nothing(
    option: u16,
    recovery_template: Packet,
    max_body_len: usize,
    config: QBlockConfig,
    receiver: QBlockReceiver,
    complete: bool,
)
    requires
        call_ensures(
            QBlockReceiver::new,
            (option, recovery_template, max_body_len, config),
            receiver,
        ),
        call_ensures(QBlockReceiver::is_complete, (&receiver,), complete),
    ensures
        receiver.wf(),
        forall|n: u32| !receiver@.received.blocks.contains(n),
        receiver@.received.total is None,
        !complete,
        receiver@.body.len() == 0,
        receiver@.final_len is None,
        receiver@.total_len is None,
        receiver@.szx is None,
        receiver@.retry == 0,
        receiver@.option == option,
        receiver@.template == packet_contents(recovery_template),
        receiver@.max_body_len == max_body_len,
        receiver@.config == config,
{
}

} // verus!
