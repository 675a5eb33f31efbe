//! Laws of the receiving side: blocks in any order give the body back.
use crate::body::block_count;
use crate::body::block_end;
use crate::body::block_len;
use crate::body::block_of;
use crate::body::block_start;
use crate::body::lemma_block_bounds;
use crate::body::lemma_block_count;
use crate::body::lemma_block_of_byte;
use crate::body::lemma_small_sizes;
use crate::config::QBlockError;
use crate::packet::BlockValue;
use crate::range_set::blocks_below;
use crate::range_set::lemma_run_count_below;
use crate::range_set::BlockSet;
use crate::receiver::written;
use crate::receiver::Outcome;
use crate::receiver::ReceiverState;
use crate::time::nanos;
use vstd::arithmetic::power2::lemma2_to64;
use vstd::prelude::*;

verus! {

/// How many blocks a body spans in blocks of the size that `szx` stands for.
pub open spec fn blocks_of(body: Seq<u8>, szx: u8) -> nat {
    block_count(body.len(), block_len(szx))
}

/// The block option of block `n` of a body.
pub open spec fn option_of(body: Seq<u8>, szx: u8, n: u32) -> BlockValue {
    BlockValue { num: n as u16, more: n + 1 < blocks_of(body, szx), size_exponent: szx }
}

/// What delivery of block `n` of a body does, with `size` as the announced length.
pub open spec fn delivered(
    state: ReceiverState,
    body: Seq<u8>,
    szx: u8,
    size: Option<u32>,
    n: u32,
) -> (ReceiverState, Result<Outcome, QBlockError>) {
    state.step(option_of(body, szx, n), size, block_of(body, block_len(szx), n as nat))
}

/// The receiver after blocks of a body were delivered in some order.
pub open spec fn after(
    state: ReceiverState,
    body: Seq<u8>,
    szx: u8,
    size: Option<u32>,
    order: Seq<u32>,
) -> ReceiverState
    decreases order.len(),
{
    if order.len() == 0 {
        state
    } else {
        delivered(after(state, body, szx, size, order.drop_last()), body, szx, size, order.last()).0
    }
}

/// Whether a body fits a transfer: its blocks can be numbered, and the receiver takes its length.
pub open spec fn fits(state: ReceiverState, body: Seq<u8>, szx: u8) -> bool {
    &&& szx < 8
    &&& body.len() <= state.max_body_len
    &&& blocks_of(body, szx) <= 0x1_0000
}

/// Whether a receiver holds the blocks of a body that it has recorded, and nothing else.
pub open spec fn holds_part(state: ReceiverState, body: Seq<u8>, szx: u8) -> bool {
    let count = blocks_of(body, szx);
    let size = block_len(szx);
    let last = (count - 1) as u32;
    &&& fits(state, body, szx)
    &&& state.szx is None || state.szx == Some(szx)
    &&& forall|n: u32| #[trigger] state.received.blocks.contains(n) ==> n < count
    &&& state.received.total == (if state.received.blocks.contains(last) {
        Some(count as u32)
    } else {
        None
    })
    &&& state.final_len == (if state.received.blocks.contains(last) {
        Some(body.len() as usize)
    } else {
        None
    })
    &&& state.body.len() <= body.len()
    &&& forall|n: u32| #[trigger]
        state.received.blocks.contains(n) ==> block_end(body.len(), size, n as nat)
            <= state.body.len()
    &&& forall|n: u32, i: int|
        #![trigger state.received.blocks.contains(n), state.body[i]]
        state.received.blocks.contains(n) && block_start(size, n as nat) <= i < block_end(
            body.len(),
            size,
            n as nat,
        ) ==> state.body[i] == body[i]
}

/// Whether a receiver has recorded every block of a body.
pub open spec fn holds_all(state: ReceiverState, body: Seq<u8>, szx: u8) -> bool {
    blocks_below(blocks_of(body, szx) as u32).subset_of(state.received.blocks)
}

/// A fresh receiver holds part of any body, namely none of it.
pub proof fn law_fresh_receiver_holds_nothing(state: ReceiverState, body: Seq<u8>, szx: u8)
    requires
        fits(state, body, szx),
        state.received == BlockSet::empty(),
        state.body.len() == 0,
        state.szx is None,
        state.final_len is None,
    ensures
        holds_part(state, body, szx),
        !holds_all(state, body, szx),
{
    lemma_small_sizes(szx);
    lemma_block_count(body.len(), block_len(szx));
    assert(blocks_below(blocks_of(body, szx) as u32).contains(0));
}

/// A block of a body that is delivered to a receiver that holds other parts of it is recorded,
/// unless it cannot be tracked; then nothing of it is kept. The block that was the last one
/// missing completes the body, and the body that is handed out is the one that was sent.
pub proof fn law_delivery(
    state: ReceiverState,
    body: Seq<u8>,
    szx: u8,
    size: Option<u32>,
    n: u32,
)
    requires
        holds_part(state, body, szx),
        !holds_all(state, body, szx),
        n < blocks_of(body, szx),
    ensures
        ({
            let (next, outcome) = delivered(state, body, szx, size, n);
            if !state.received.admits(n) {
                &&& outcome == Ok::<Outcome, QBlockError>(Outcome::Dropped)
                &&& next.received == state.received
                &&& next.body == state.body
                &&& holds_part(next, body, szx)
            } else {
                &&& next.received.blocks == state.received.blocks.insert(n)
                &&& next.retry == 0
                &&& holds_all(next, body, szx) ==> outcome == Ok::<Outcome, QBlockError>(
                    Outcome::Complete(body),
                )
                &&& !holds_all(next, body, szx) ==> outcome == Ok::<Outcome, QBlockError>(
                    Outcome::Accepted,
                ) && holds_part(next, body, szx)
            }
        }),
{
    let count = blocks_of(body, szx);
    let len = block_len(szx);
    let block = option_of(body, szx, n);
    let payload = block_of(body, len, n as nat);
    let offset = block_start(len, n as nat);
    let stop = block_end(body.len(), len, n as nat);
    let last = (count - 1) as u32;
    lemma_small_sizes(szx);
    lemma_block_bounds(body.len(), len, n as nat);
    assert(payload.len() == stop - offset);
    assert(block.num as u32 == n);
    let (next, outcome) = delivered(state, body, szx, size, n);
    if !state.received.admits(n) {
        assert(next.received == state.received);
        assert(holds_part(next, body, szx));
    } else {
        let stored = state.learned(block, size).stored(block, payload);
        assert(stored.received.blocks == state.received.blocks.insert(n));
        assert(stored.body == written(state.body, offset, payload));
        assert(stored.body.len() <= body.len());
        assert(stored.received.total == (if stored.received.blocks.contains(last) {
            Some(count as u32)
        } else {
            None
        }));
        assert(stored.final_len == (if stored.received.blocks.contains(last) {
            Some(body.len() as usize)
        } else {
            None
        }));
        assert forall|m: u32, i: int|
            #![trigger stored.received.blocks.contains(m), stored.body[i]]
            stored.received.blocks.contains(m) && block_start(len, m as nat) <= i < block_end(
                body.len(),
                len,
                m as nat,
            ) implies stored.body[i] == body[i] by {
            assert(m < count);
            lemma_block_bounds(body.len(), len, m as nat);
            if offset <= i < stop {
                assert(payload[i - offset] == body[i]);
            } else {
                assert(m != n);
                assert(state.received.blocks.contains(m));
                assert(state.body[i] == body[i]);
            }
        }
        assert forall|m: u32| #[trigger]
            stored.received.blocks.contains(m) implies block_end(body.len(), len, m as nat)
            <= stored.body.len() by {
            if m != n {
                assert(state.received.blocks.contains(m));
            }
        }
        assert(holds_part(stored, body, szx));
        lemma_complete(stored, body, szx);
        if holds_all(stored, body, szx) {
            lemma_all_parts(stored, body, szx);
        }
    }
}

/// A receiver that holds part of a body is complete once it holds all of it.
proof fn lemma_complete(state: ReceiverState, body: Seq<u8>, szx: u8)
    requires
        holds_part(state, body, szx),
    ensures
        state.received.complete() == holds_all(state, body, szx),
{
    let count = blocks_of(body, szx);
    let last = (count - 1) as u32;
    lemma_small_sizes(szx);
    lemma_block_count(body.len(), block_len(szx));
    if holds_all(state, body, szx) {
        assert(blocks_below(count as u32).contains(last));
        assert forall|n: u32| n < count implies state.received.blocks.contains(n) by {
            assert(blocks_below(count as u32).contains(n));
        }
    }
}

/// All the blocks of a body are the body.
proof fn lemma_all_parts(state: ReceiverState, body: Seq<u8>, szx: u8)
    requires
        holds_part(state, body, szx),
        holds_all(state, body, szx),
    ensures
        state.body == body,
        state.assembled() == body,
{
    let count = blocks_of(body, szx);
    let len = block_len(szx);
    let last = (count - 1) as u32;
    lemma_small_sizes(szx);
    lemma_block_count(body.len(), len);
    assert(blocks_below(count as u32).contains(last));
    lemma_block_bounds(body.len(), len, last as nat);
    assert(state.received.blocks.contains(last));
    assert forall|i: int| 0 <= i < body.len() implies state.body[i] == body[i] by {
        lemma_block_of_byte(body.len(), len, i as nat);
        let n = (i as nat / len) as u32;
        assert(blocks_below(count as u32).contains(n));
        assert(state.received.blocks.contains(n));
    }
    assert(state.body =~= body);
    assert(state.body.take(body.len() as int) =~= body);
}

/// Whether every block of `order` can be tracked when its turn comes.
pub open spec fn admitted(
    state: ReceiverState,
    body: Seq<u8>,
    szx: u8,
    size: Option<u32>,
    order: Seq<u32>,
) -> bool {
    forall|k: int|
        0 <= k < order.len() ==> (#[trigger] after(state, body, szx, size, order.take(
            k,
        ))).received.admits(order[k])
}

/// The blocks of a list.
pub open spec fn listed(order: Seq<u32>) -> Set<u32> {
    Set::new(|n: u32| order.contains(n))
}

/// While blocks of a body are still missing, a receiver holds exactly the blocks that were delivered.
pub proof fn lemma_after(
    state: ReceiverState,
    body: Seq<u8>,
    szx: u8,
    size: Option<u32>,
    order: Seq<u32>,
)
    requires
        holds_part(state, body, szx),
        forall|k: int| 0 <= k < order.len() ==> (#[trigger] order[k]) < blocks_of(body, szx),
        admitted(state, body, szx, size, order),
        !blocks_below(blocks_of(body, szx) as u32).subset_of(
            state.received.blocks.union(listed(order)),
        ),
    ensures
        holds_part(after(state, body, szx, size, order), body, szx),
        after(state, body, szx, size, order).received.blocks == state.received.blocks.union(
            listed(order),
        ),
    decreases order.len(),
{
    let all = blocks_below(blocks_of(body, szx) as u32);
    if order.len() == 0 {
        assert(state.received.blocks.union(listed(order)) =~= state.received.blocks);
    } else {
        let front = order.drop_last();
        let n = order.last();
        assert(order[order.len() - 1] == n);
        lemma_listed_push(front, n);
        assert(order =~= front.push(n));
        assert forall|k: int| 0 <= k < front.len() implies (#[trigger] after(
            state,
            body,
            szx,
            size,
            front.take(k),
        )).received.admits(front[k]) by {
            assert(front.take(k) =~= order.take(k));
            assert(order[k] == front[k]);
        }
        assert forall|k: int| 0 <= k < front.len() implies (#[trigger] front[k]) < blocks_of(
            body,
            szx,
        ) by {
            assert(order[k] == front[k]);
        }
        let before = after(state, body, szx, size, front);
        assert(state.received.blocks.union(listed(front)).insert(n)
            =~= state.received.blocks.union(listed(order)));
        lemma_after(state, body, szx, size, front);
        assert(order.take(order.len() - 1) =~= front);
        assert(before.received.admits(order[order.len() - 1]));
        law_delivery(before, body, szx, size, n);
    }
}

pub proof fn lemma_listed_push(front: Seq<u32>, n: u32)
    ensures
        listed(front.push(n)) == listed(front).insert(n),
{
    let order = front.push(n);
    assert forall|m: u32| listed(order).contains(m) <==> listed(front).insert(n).contains(m) by {
        if order.contains(m) {
            let i = choose|i: int| 0 <= i < order.len() && order[i] == m;
            if i < front.len() {
                assert(front[i] == m);
            }
        }
        if front.contains(m) {
            let i = choose|i: int| 0 <= i < front.len() && front[i] == m;
            assert(order[i] == m);
        }
        assert(order[front.len() as int] == n);
    }
    assert(listed(order) =~= listed(front).insert(n));
}

/// Blocks of a body may arrive in any order and more than once. If each can be tracked when it
/// arrives, the one that closes the last gap completes the transfer, and hands out the body that
/// was sent.
pub proof fn law_any_order_reassembles_the_body(
    state: ReceiverState,
    body: Seq<u8>,
    szx: u8,
    size: Option<u32>,
    order: Seq<u32>,
    n: u32,
)
    requires
        holds_part(state, body, szx),
        forall|k: int| 0 <= k < order.len() ==> (#[trigger] order[k]) < blocks_of(body, szx),
        n < blocks_of(body, szx),
        admitted(state, body, szx, size, order.push(n)),
        !blocks_below(blocks_of(body, szx) as u32).subset_of(
            state.received.blocks.union(listed(order)),
        ),
        blocks_below(blocks_of(body, szx) as u32).subset_of(
            state.received.blocks.union(listed(order)).insert(n),
        ),
    ensures
        delivered(after(state, body, szx, size, order), body, szx, size, n).1 == Ok::<
            Outcome,
            QBlockError,
        >(Outcome::Complete(body)),
{
    let all = order.push(n);
    assert forall|k: int| 0 <= k < order.len() implies (#[trigger] after(
        state,
        body,
        szx,
        size,
        order.take(k),
    )).received.admits(order[k]) by {
        assert(order.take(k) =~= all.take(k));
        assert(all[k] == order[k]);
    }
    lemma_after(state, body, szx, size, order);
    let before = after(state, body, szx, size, order);
    assert(all.take(order.len() as int) =~= order);
    assert(before.received.admits(all[order.len() as int]));
    law_delivery(before, body, szx, size, n);
}

/// The numbers from 0 to below `end` in order.
pub open spec fn counting(end: nat) -> Seq<u32> {
    Seq::new(end, |i: int| i as u32)
}

/// Blocks that arrive in order are always tracked: every block before the last is accepted, and
/// the last one completes the body.
pub proof fn law_in_order_reassembles_the_body(
    state: ReceiverState,
    body: Seq<u8>,
    szx: u8,
    size: Option<u32>,
    n: nat,
)
    requires
        fits(state, body, szx),
        state.received == BlockSet::empty(),
        state.body.len() == 0,
        state.szx is None,
        state.final_len is None,
        n < blocks_of(body, szx),
    ensures
        delivered(after(state, body, szx, size, counting(n)), body, szx, size, n as u32).1 == Ok::<
            Outcome,
            QBlockError,
        >(
            if n + 1 < blocks_of(body, szx) {
                Outcome::Accepted
            } else {
                Outcome::Complete(body)
            },
        ),
{
    lemma_in_order(state, body, szx, size, n);
    let before = after(state, body, szx, size, counting(n));
    lemma_run_count_below(n as u32);
    law_delivery(before, body, szx, size, n as u32);
    let count = blocks_of(body, szx);
    let next = delivered(before, body, szx, size, n as u32).0;
    assert(next.received.blocks =~= blocks_below((n + 1) as u32));
    if n + 1 < count {
        assert(blocks_below(count as u32).contains((n + 1) as u32));
    }
}

proof fn lemma_in_order(
    state: ReceiverState,
    body: Seq<u8>,
    szx: u8,
    size: Option<u32>,
    n: nat,
)
    requires
        fits(state, body, szx),
        state.received == BlockSet::empty(),
        state.body.len() == 0,
        state.szx is None,
        state.final_len is None,
        n < blocks_of(body, szx),
    ensures
        ({
            let now = after(state, body, szx, size, counting(n));
            &&& holds_part(now, body, szx)
            &&& !holds_all(now, body, szx)
            &&& now.received == (BlockSet { blocks: blocks_below(n as u32), total: None })
        }),
    decreases n,
{
    let count = blocks_of(body, szx);
    let now = after(state, body, szx, size, counting(n));
    if n == 0 {
        law_fresh_receiver_holds_nothing(state, body, szx);
        assert(now.received.blocks =~= blocks_below(0));
    } else {
        let m = (n - 1) as nat;
        lemma_in_order(state, body, szx, size, m);
        let before = after(state, body, szx, size, counting(m));
        assert(counting(n).drop_last() =~= counting(m));
        assert(counting(n).last() == m as u32);
        lemma_run_count_below(m as u32);
        law_delivery(before, body, szx, size, m as u32);
        assert(now.received.blocks =~= blocks_below(n as u32));
        assert(blocks_below(count as u32).contains(n as u32));
    }
}

/// A message that is refused, dropped or not part of the transfer leaves the recorded blocks, the
/// buffer and the round counter as they were.
pub proof fn law_refused_block_is_not_recorded(
    state: ReceiverState,
    block: BlockValue,
    size: Option<u32>,
    payload: Seq<u8>,
)
    ensures
        ({
            let (next, outcome) = state.step(block, size, payload);
            outcome is Err || outcome == Ok::<Outcome, QBlockError>(Outcome::Dropped) ==> {
                &&& next.received == state.received
                &&& next.body == state.body
                &&& next.final_len == state.final_len
                &&& next.retry == state.retry
            }
        }),
{
}

/// A recorded block starts the backoff anew: the next wait is the base timeout again.
pub proof fn law_recorded_block_resets_backoff(
    state: ReceiverState,
    block: BlockValue,
    size: Option<u32>,
    payload: Seq<u8>,
)
    ensures
        ({
            let (next, outcome) = state.step(block, size, payload);
            outcome matches Ok(o) && (o is Accepted || o is Complete) ==> next.retry == 0
                && next.deadline() == nanos(state.config.non_receive_timeout)
                && next.received.blocks.contains(block.num as u32)
        }),
{
    lemma2_to64();
    let base = nanos(state.config.non_receive_timeout);
    assert(base * 1 == base);
}

/// No block makes the buffer longer than the longest body that is accepted.
pub proof fn law_buffer_stays_within_the_limit(
    state: ReceiverState,
    block: BlockValue,
    size: Option<u32>,
    payload: Seq<u8>,
)
    requires
        state.inv(),
        block.size_exponent < 8,
    ensures
        state.step(block, size, payload).0.inv(),
        state.step(block, size, payload).0.body.len() <= state.max_body_len,
        state.step(block, size, payload).1 matches Ok(Outcome::Complete(body)) ==> body.len()
            <= state.max_body_len,
{
}

} // verus!
