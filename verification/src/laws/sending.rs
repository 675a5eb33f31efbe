//! Laws of the sending side: what bursts send, and what a refill queues.
use crate::drive::next_after;
use crate::drive::SendEvent;
use crate::drive::SendNext;
use crate::laws::receiving::listed;
use crate::range_set::is_least;
use crate::range_set::least;
use crate::range_set::run_count;
use crate::range_set::run_starts;
use crate::range_set::BlockSet;
use crate::range_set::RBLOCK_CNT;
use crate::sender::queued;
use crate::sender::Burst;
use crate::sender::SenderState;
use vstd::prelude::*;
use vstd::set_lib::lemma_len_subset;

verus! {

/// The numbers from `start` to below `end`.
pub open spec fn blocks_between(start: nat, end: nat) -> Set<u32> {
    Set::new(|n: u32| start <= n < end)
}

/// Whether every block from `start` to below `end` has bytes to send.
pub open spec fn sendable(state: SenderState, start: nat, end: nat) -> bool {
    forall|n: u32| start <= n < end ==> (#[trigger] state.pdu(n)) is Some
}

/// The smaller of two numbers.
pub open spec fn min_nat(a: nat, b: nat) -> nat {
    if a <= b {
        a
    } else {
        b
    }
}

/// A sender with other blocks to send.
pub open spec fn with_blocks(state: SenderState, blocks: Set<u32>) -> SenderState {
    SenderState { outstanding: BlockSet { blocks, ..state.outstanding }, ..state }
}

/// Bursts of `limit` blocks, one after the other.
pub open spec fn bursts(state: SenderState, limit: nat, rounds: nat) -> Burst
    decreases rounds,
{
    if rounds == 0 {
        Burst { state, blocks: Seq::empty(), pdus: Seq::empty(), ok: true }
    } else {
        let before = bursts(state, limit, (rounds - 1) as nat);
        let last = before.state.burst(limit);
        Burst {
            state: last.state,
            blocks: before.blocks + last.blocks,
            pdus: before.pdus + last.pdus,
            ok: before.ok && last.ok,
        }
    }
}

/// The smallest member of a set is unique.
pub proof fn lemma_least(blocks: Set<u32>, n: u32)
    requires
        is_least(blocks, n),
    ensures
        least(blocks) == n,
{
    let m = least(blocks);
    assert(is_least(blocks, m));
}

/// Of the blocks from `start` to the end, a burst sends the first `limit`, each once and in
/// ascending order, and leaves the rest.
pub proof fn law_burst_sends_lowest_in_order(
    state: SenderState,
    start: nat,
    end: nat,
    limit: nat,
)
    requires
        start <= end <= u32::MAX,
        state.outstanding.blocks == blocks_between(start, end),
        sendable(state, start, min_nat(start + limit, end)),
    ensures
        ({
            let burst = state.burst(limit);
            let stop = min_nat(start + limit, end);
            &&& burst.ok
            &&& burst.state == with_blocks(state, blocks_between(stop, end))
            &&& burst.blocks == Seq::new((stop - start) as nat, |i: int| (start + i) as u32)
            &&& burst.pdus == Seq::new(
                (stop - start) as nat,
                |i: int| state.pdu((start + i) as u32)->0,
            )
        }),
    decreases limit,
{
    let burst = state.burst(limit);
    let stop = min_nat(start + limit, end);
    if start == end {
        assert(state.idle());
        assert(burst.state == with_blocks(state, blocks_between(stop, end)));
    } else if limit == 0 {
        assert(burst.state == with_blocks(state, blocks_between(stop, end)));
    } else {
        let n = start as u32;
        assert(is_least(state.outstanding.blocks, n));
        lemma_least(state.outstanding.blocks, n);
        assert(state.outstanding.blocks.contains(n));
        assert(!state.idle());
        assert(state.pdu(n) is Some);
        let next = state.sent(n);
        assert(next.outstanding.blocks =~= blocks_between(start + 1, end));
        assert forall|m: u32| start + 1 <= m < min_nat(start + 1 + (limit - 1) as nat, end) implies (
        #[trigger] next.pdu(m)) is Some by {
            assert(state.pdu(m) is Some);
        }
        law_burst_sends_lowest_in_order(next, start + 1, end, (limit - 1) as nat);
        let rest = next.burst((limit - 1) as nat);
        assert(burst.blocks =~= seq![n] + rest.blocks);
        assert(burst.pdus =~= seq![state.pdu(n)->0] + rest.pdus);
        assert(forall|m: u32| #[trigger] next.pdu(m) == state.pdu(m));
        assert(burst.blocks =~= Seq::new((stop - start) as nat, |i: int| (start + i) as u32));
        assert(burst.pdus =~= Seq::new(
            (stop - start) as nat,
            |i: int| state.pdu((start + i) as u32)->0,
        ));
        assert(burst.state =~= with_blocks(state, blocks_between(stop, end)));
    }
}

/// Whether a list of block numbers ascends.
pub open spec fn ascending(order: Seq<u32>) -> bool {
    forall|i: int, j: int| 0 <= i < j < order.len() ==> order[i] < order[j]
}

/// A burst that has room for all the blocks to send sends them in ascending order, and leaves
/// none.
pub proof fn law_burst_sends_all_in_order(state: SenderState, order: Seq<u32>, limit: nat)
    requires
        ascending(order),
        state.outstanding.blocks == listed(order),
        forall|i: int| 0 <= i < order.len() ==> (#[trigger] state.pdu(order[i])) is Some,
        order.len() <= limit,
    ensures
        ({
            let burst = state.burst(limit);
            &&& burst.ok
            &&& burst.blocks == order
            &&& burst.pdus == order.map_values(|n: u32| state.pdu(n)->0)
            &&& burst.state == with_blocks(state, Set::empty())
        }),
    decreases order.len(),
{
    let burst = state.burst(limit);
    if order.len() == 0 {
        assert(state.outstanding.blocks =~= Set::<u32>::empty());
        assert(burst.blocks =~= order);
        assert(burst.pdus =~= order.map_values(|n: u32| state.pdu(n)->0));
    } else {
        let n = order[0];
        let rest = order.skip(1);
        assert(listed(order).contains(n));
        assert(is_least(state.outstanding.blocks, n)) by {
            assert forall|m: u32| #[trigger] listed(order).contains(m) implies n <= m by {
                let i = choose|i: int| 0 <= i < order.len() && order[i] == m;
                if i > 0 {
                    assert(order[0] < order[i]);
                }
            }
        }
        lemma_least(state.outstanding.blocks, n);
        assert(!state.idle());
        let next = state.sent(n);
        assert forall|m: u32| next.outstanding.blocks.contains(m) <==> listed(rest).contains(m) by {
            if order.contains(m) && m != n {
                let i = choose|i: int| 0 <= i < order.len() && order[i] == m;
                assert(rest[i - 1] == m);
            }
            if rest.contains(m) {
                let i = choose|i: int| 0 <= i < rest.len() && rest[i] == m;
                assert(order[i + 1] == m);
                assert(order[0] < order[i + 1]);
            }
        }
        assert(next.outstanding.blocks =~= listed(rest));
        assert(forall|m: u32| #[trigger] next.pdu(m) == state.pdu(m));
        assert forall|i: int| 0 <= i < rest.len() implies (#[trigger] next.pdu(rest[i])) is Some by {
            assert(state.pdu(order[i + 1]) is Some);
        }
        law_burst_sends_all_in_order(next, rest, (limit - 1) as nat);
        assert(burst.blocks =~= order);
        assert(burst.pdus =~= order.map_values(|m: u32| state.pdu(m)->0));
        assert(burst.state =~= with_blocks(state, Set::empty()));
    }
}

pub(crate) proof fn lemma_least_exists(blocks: Set<u32>, n: u32)
    requires
        blocks.contains(n),
    ensures
        is_least(blocks, least(blocks)),
    decreases n,
{
    if !is_least(blocks, n) {
        let m = choose|m: u32| #[trigger] blocks.contains(m) && m < n;
        lemma_least_exists(blocks, m);
    }
}

/// Of any set of blocks to send, a burst sends the lowest, as many as it has room for: each once,
/// in ascending order, and it leaves exactly the others.
pub proof fn law_burst_sends_the_lowest_blocks(state: SenderState, limit: nat)
    requires
        state.outstanding.blocks.finite(),
        forall|n: u32| #[trigger] state.outstanding.blocks.contains(n) ==> state.pdu(n) is Some,
    ensures
        ({
            let burst = state.burst(limit);
            let queue = state.outstanding.blocks;
            &&& burst.ok
            &&& burst.blocks.len() == min_nat(limit, queue.len())
            &&& ascending(burst.blocks)
            &&& burst.pdus == burst.blocks.map_values(|n: u32| state.pdu(n)->0)
            &&& forall|i: int|
                0 <= i < burst.blocks.len() ==> queue.contains(#[trigger] burst.blocks[i])
            &&& forall|n: u32, i: int|
                #![trigger queue.contains(n), burst.blocks[i]]
                queue.contains(n) && !burst.blocks.contains(n) && 0 <= i < burst.blocks.len()
                    ==> burst.blocks[i] < n
            &&& burst.state == with_blocks(state, queue.difference(listed(burst.blocks)))
        }),
    decreases limit,
{
    let burst = state.burst(limit);
    let queue = state.outstanding.blocks;
    if limit == 0 || state.idle() {
        if state.idle() {
            assert(queue.len() == 0);
        }
        assert(burst.blocks =~= Seq::<u32>::empty());
        assert(burst.pdus =~= burst.blocks.map_values(|n: u32| state.pdu(n)->0));
        assert(queue.difference(listed(burst.blocks)) =~= queue);
    } else {
        let some = choose|n: u32| queue.contains(n);
        lemma_least_exists(queue, some);
        let n = least(queue);
        let next = state.sent(n);
        let rest = next.burst((limit - 1) as nat);
        assert(forall|m: u32| #[trigger] next.pdu(m) == state.pdu(m));
        assert forall|m: u32| #[trigger] next.outstanding.blocks.contains(m) implies next.pdu(
            m,
        ) is Some by {
            assert(queue.contains(m));
        }
        law_burst_sends_the_lowest_blocks(next, (limit - 1) as nat);
        assert(state.pdu(n) is Some);
        assert(burst.blocks =~= seq![n] + rest.blocks);
        assert(burst.pdus =~= burst.blocks.map_values(|m: u32| state.pdu(m)->0));
        assert(queue.remove(n).len() == queue.len() - 1);
        assert forall|i: int| 0 <= i < burst.blocks.len() implies queue.contains(
            #[trigger] burst.blocks[i],
        ) by {
            if i > 0 {
                assert(next.outstanding.blocks.contains(rest.blocks[i - 1]));
            }
        }
        assert forall|i: int, j: int| 0 <= i < j < burst.blocks.len() implies burst.blocks[i]
            < burst.blocks[j] by {
            assert(next.outstanding.blocks.contains(rest.blocks[j - 1]));
            if i > 0 {
                assert(rest.blocks[i - 1] < rest.blocks[j - 1]);
            }
        }
        assert forall|m: u32| #[trigger] burst.blocks.contains(m) <==> m == n
            || rest.blocks.contains(m) by {
            if burst.blocks.contains(m) {
                let i = choose|i: int| 0 <= i < burst.blocks.len() && burst.blocks[i] == m;
                if i > 0 {
                    assert(rest.blocks[i - 1] == m);
                }
            }
            assert(burst.blocks[0] == n);
            if rest.blocks.contains(m) {
                let i = choose|i: int| 0 <= i < rest.blocks.len() && rest.blocks[i] == m;
                assert(burst.blocks[i + 1] == m);
            }
        }
        assert forall|m: u32, i: int|
            #![trigger queue.contains(m), burst.blocks[i]]
            queue.contains(m) && !burst.blocks.contains(m) && 0 <= i
                < burst.blocks.len() implies burst.blocks[i] < m by {
            if i > 0 {
                assert(next.outstanding.blocks.contains(m));
                assert(rest.blocks[i - 1] < m);
            }
        }
        assert(burst.state =~= with_blocks(state, queue.difference(listed(burst.blocks)))) by {
            assert(queue.remove(n).difference(listed(rest.blocks)) =~= queue.difference(
                listed(burst.blocks),
            ));
        }
    }
}

/// Bursts that follow each other send the body front to back: after `rounds` bursts of `limit`
/// blocks the first `rounds * limit` blocks have been sent, each once and in order.
pub proof fn law_bursts_send_the_body(state: SenderState, limit: nat, rounds: nat)
    requires
        state.inv(),
        !state.started,
        sendable(state, 0, state.total() as nat),
    ensures
        ({
            let all = bursts(state.begun(), limit, rounds);
            let total = state.total() as nat;
            let stop = min_nat(rounds * limit, total);
            &&& all.ok
            &&& all.state == with_blocks(state.begun(), blocks_between(stop, total))
            &&& all.blocks == Seq::new(stop, |i: int| i as u32)
            &&& all.pdus == Seq::new(stop, |i: int| state.pdu(i as u32)->0)
            &&& rounds * limit >= total ==> all.state.started && all.state.idle()
        }),
    decreases rounds,
{
    let begun = state.begun();
    let total = state.total() as nat;
    let all = bursts(begun, limit, rounds);
    let stop = min_nat(rounds * limit, total);
    if rounds == 0 {
        assert(rounds * limit == 0) by (nonlinear_arith)
            requires
                rounds == 0,
        ;
        assert(begun.outstanding.blocks =~= blocks_between(0, total));
        assert(all.state =~= with_blocks(begun, blocks_between(0, total)));
    } else {
        let before = bursts(begun, limit, (rounds - 1) as nat);
        let start = min_nat(((rounds - 1) as nat) * limit, total);
        law_bursts_send_the_body(state, limit, (rounds - 1) as nat);
        assert(rounds * limit == (rounds - 1) * limit + limit) by (nonlinear_arith);
        assert forall|n: u32| start <= n < min_nat(start + limit, total) implies (
        #[trigger] before.state.pdu(n)) is Some by {
            assert(state.pdu(n) is Some);
            assert(before.state.pdu(n) == state.pdu(n));
        }
        law_burst_sends_lowest_in_order(before.state, start, total, limit);
        let last = before.state.burst(limit);
        assert(forall|m: u32| #[trigger] before.state.pdu(m) == state.pdu(m));
        assert(all.blocks =~= before.blocks + last.blocks);
        assert(all.pdus =~= before.pdus + last.pdus);
        assert(all.blocks =~= Seq::new(stop, |i: int| i as u32));
        assert(all.pdus =~= Seq::new(stop, |i: int| state.pdu(i as u32)->0));
        assert(all.state =~= with_blocks(begun, blocks_between(stop, total)));
    }
    if rounds * limit >= total {
        assert(all.state.outstanding.blocks =~= Set::<u32>::empty());
    }
}

/// One more member adds at most one run.
pub proof fn lemma_run_count_insert(blocks: Set<u32>, n: u32)
    requires
        blocks.finite(),
    ensures
        run_count(blocks.insert(n)) <= run_count(blocks) + 1,
{
    let starts = run_starts(blocks);
    assert(starts.subset_of(blocks));
    vstd::set_lib::lemma_set_subset_finite(blocks, starts);
    assert(run_starts(blocks.insert(n)).subset_of(starts.insert(n)));
    lemma_len_subset(run_starts(blocks.insert(n)), starts.insert(n));
}

/// The listed blocks that lie within a body of `total` blocks.
pub open spec fn within(blocks: Seq<u32>, total: u32) -> Set<u32> {
    Set::new(|n: u32| n < total && blocks.contains(n))
}

/// A refill keeps every block that was to send, and adds nothing but listed blocks of the body.
pub proof fn law_refill_adds_only_listed_blocks(set: BlockSet, blocks: Seq<u32>, total: u32)
    ensures
        set.blocks.subset_of(queued(set, blocks, total).blocks),
        queued(set, blocks, total).blocks.subset_of(set.blocks.union(within(blocks, total))),
    decreases blocks.len(),
{
    if blocks.len() > 0 {
        let front = blocks.drop_last();
        law_refill_adds_only_listed_blocks(set, front, total);
        assert(within(front, total).subset_of(within(blocks, total))) by {
            assert forall|n: u32| front.contains(n) implies blocks.contains(n) by {
                let i = choose|i: int| 0 <= i < front.len() && front[i] == n;
                assert(blocks[i] == n);
            }
        }
        assert(blocks[blocks.len() - 1] == blocks.last());
    }
}

/// A sender that has nothing to send queues all of the blocks of its body that it is asked for,
/// if it is asked for no more than it can track apart.
pub proof fn law_refill_queues_the_request(set: BlockSet, blocks: Seq<u32>, total: u32)
    requires
        set.blocks == Set::<u32>::empty(),
        set.total == Some(total),
        blocks.len() <= RBLOCK_CNT,
    ensures
        queued(set, blocks, total) == (BlockSet {
            blocks: within(blocks, total),
            total: Some(total),
        }),
{
    lemma_refill_count(set, blocks, total);
}

proof fn lemma_refill_count(set: BlockSet, blocks: Seq<u32>, total: u32)
    requires
        set.blocks == Set::<u32>::empty(),
        set.total == Some(total),
        blocks.len() <= RBLOCK_CNT,
    ensures
        queued(set, blocks, total) == (BlockSet {
            blocks: within(blocks, total),
            total: Some(total),
        }),
        queued(set, blocks, total).blocks.finite(),
        run_count(queued(set, blocks, total).blocks) <= blocks.len(),
    decreases blocks.len(),
{
    let all = queued(set, blocks, total);
    if blocks.len() == 0 {
        assert(all.blocks =~= within(blocks, total));
        assert(run_starts(all.blocks) =~= Set::<u32>::empty());
    } else {
        let front = blocks.drop_last();
        let n = blocks.last();
        let before = queued(set, front, total);
        lemma_refill_count(set, front, total);
        assert forall|m: u32| #[trigger] blocks.contains(m) <==> front.contains(m) || m == n by {
            if blocks.contains(m) {
                let i = choose|i: int| 0 <= i < blocks.len() && blocks[i] == m;
                if i < front.len() {
                    assert(front[i] == m);
                }
            }
            if front.contains(m) {
                let i = choose|i: int| 0 <= i < front.len() && front[i] == m;
                assert(blocks[i] == m);
            }
            assert(blocks[blocks.len() - 1] == n);
        }
        if n < total {
            lemma_run_count_insert(before.blocks, n);
            assert(before.admits(n));
        }
        assert(all.blocks =~= within(blocks, total));
    }
}

/// Bursts stay paced: after one that left blocks to send, the next follows when the pause is over
/// or the peer reports missing blocks, and not because no more reports can come.
pub proof fn law_bursts_are_paced(state: SenderState, event: SendEvent)
    requires
        !(state.started && state.idle()),
    ensures
        next_after(state.wait(), event) == SendNext::Burst <==> event is Elapsed
            || event is Missing,
        event is Closed ==> next_after(state.wait(), event) == SendNext::KeepPausing
            && state.resumed(event) == state,
{
}

/// A transfer ends only after all that was to send was sent.
pub proof fn law_send_ends_only_when_all_is_sent(state: SenderState, event: SendEvent)
    requires
        next_after(state.wait(), event) == SendNext::Finish,
    ensures
        state.started,
        state.idle(),
        state.resumed(event) == state,
{
}

} // verus!
