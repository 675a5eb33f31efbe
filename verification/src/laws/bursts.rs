//! Laws of the calls that send a body: what a sender is made of, what each block message says, and
//! which blocks a burst sends.
use crate::body::block_count;
use crate::body::block_len;
use crate::body::lemma_block_bounds;
use crate::body::lemma_block_count;
use crate::body::szx_fits;
use crate::config::QBlockConfig;
use crate::config::QBlockError;
use crate::config::QBlockErrorKind;
use crate::config::TransferKind;
use crate::laws::blocks::lemma_new_run;
use crate::laws::blocks::length_option;
use crate::laws::sending::ascending;
use crate::laws::sending::law_refill_adds_only_listed_blocks;
use crate::laws::sending::lemma_least_exists;
use crate::laws::sending::with_blocks;
use crate::laws::sending::within;
use crate::packet::block_bytes;
use crate::packet::decode_block;
use crate::packet::law_block_round_trip;
use crate::packet::lemma_size_exponent;
use crate::packet::packet_contents;
use crate::packet::spells;
use crate::packet::wire_encoding;
use crate::packet::BlockValue;
use crate::packet::Message;
use crate::range_set::blocks_below;
use crate::range_set::least;
use crate::range_set::run_count;
use crate::range_set::BlockSet;
use crate::range_set::RBLOCK_CNT;
use crate::sender::queued;
use crate::sender::QBlockSender;
use crate::sender::SenderState;
use crate::uint::decode_uint;
use crate::uint::law_uint_round_trip;
use crate::uint::lemma_uint_width;
use coap_lite::Packet;
use vstd::arithmetic::div_mod::lemma_mod_multiples_vanish;
use vstd::arithmetic::div_mod::lemma_mul_mod_noop_left;
use vstd::arithmetic::div_mod::lemma_small_mod;
use vstd::arithmetic::power2::lemma2_to64;
use vstd::arithmetic::power2::lemma_pow2_pos;
use vstd::arithmetic::power2::lemma_pow2_strictly_increases;
use vstd::prelude::*;

verus! {

/// Whether a message is the one for block `n` of a sender's body: the template with the block's
/// bytes for its payload and one more block option, which names the block, its size and whether
/// others follow. The type, the code, the message ID, the token and all other options are those of
/// the template.
pub open spec fn is_block_message(sender: SenderState, n: u32, message: Message) -> bool {
    let option = sender.option;
    &&& message == (Message {
        options: message.options,
        payload: message.payload,
        ..sender.template
    })
    &&& carries_bytes(sender, n, message.payload)
    &&& message.values(option).len() == sender.template.values(option).len() + 1
    &&& forall|i: int|
        0 <= i < sender.template.values(option).len() ==> #[trigger] message.values(option)[i]
            == sender.template.values(option)[i]
    &&& !is_nameless(sender, n) ==> {
        let block = BlockValue {
            num: n as u16,
            more: (n + 1) * block_len(sender.szx) < sender.body.len(),
            size_exponent: sender.szx,
        };
        &&& message.values(option).last() == block_bytes(block)
        &&& n < 4096 ==> decode_block(message.values(option).last()) == Some(block)
    }
    &&& forall|number: u16|
        number != option ==> #[trigger] message.values(number) == sender.template.values(number)
}

/// Whether bytes are those of the message for block `n` of a sender's body.
pub open spec fn is_block(sender: SenderState, n: u32, bytes: Seq<u8>) -> bool {
    exists|message: Message| #[trigger]
        is_block_message(sender, n, message) && wire_encoding(message) == Some(bytes) && spells(
            bytes,
            message,
        )
}

/// Whether block `n` of a sender's body cannot be named: a block option has no room for its number
/// or its size.
pub open spec fn is_nameless(sender: SenderState, n: u32) -> bool {
    n >= 0x1_0000 || block_len(sender.szx) >= 4096
}

/// Whether there are no bytes for block `n` of a sender's body: it cannot be named, or its message
/// cannot be encoded.
pub open spec fn is_unsendable(sender: SenderState, n: u32) -> bool {
    is_nameless(sender, n) || exists|message: Message| #[trigger]
        is_block_message(sender, n, message) && wire_encoding(message) is None
}

/// Whether a payload is block `n` of a sender's body: it starts where `n` blocks end, and is as
/// long as a block, or reaches the end of the body.
pub open spec fn carries_bytes(sender: SenderState, n: u32, payload: Seq<u8>) -> bool {
    let start = n * block_len(sender.szx);
    &&& start + payload.len() <= sender.body.len()
    &&& payload.len() == block_len(sender.szx) || (payload.len() < block_len(sender.szx) && start
        + payload.len() == sender.body.len())
    &&& forall|i: int| 0 <= i < payload.len() ==> #[trigger] payload[i] == sender.body[start + i]
}

/// A new sender has the body, the block size and the settings that it was given. It starts from the
/// template with one option more: the length of the body, in Size1 for a request body and in Size2
/// for a response body. It has sent nothing yet.
pub proof fn law_new_sender_announces_its_body(
    template: Packet,
    option: u16,
    body: Vec<u8>,
    szx: u8,
    kind: TransferKind,
    config: QBlockConfig,
    seed: u64,
    sender: QBlockSender,
    done: bool,
)
    requires
        call_ensures(
            QBlockSender::new,
            (template, option, body, szx, kind, config, seed),
            sender,
        ),
        szx + 4 < usize::BITS,
        call_ensures(QBlockSender::is_done, (&sender,), done),
    ensures
        call_requires(QBlockSender::new, (template, option, body, szx, kind, config, seed)),
        sender.wf(),
        sender@.body == body@,
        sender@.option == option,
        sender@.szx == szx,
        sender@.kind == kind,
        sender@.config == config,
        sender@.rng == seed,
        !done,
        !sender@.started,
        forall|n: u32| !sender@.outstanding.blocks.contains(n),
        ({
            let old_template = packet_contents(template);
            let size_option = length_option(option == 19);
            &&& sender@.template == (Message { options: sender@.template.options, ..old_template })
            &&& sender@.template.values(size_option).len() == old_template.values(size_option).len()
                + 1
            &&& body@.len() <= u32::MAX ==> decode_uint(
                sender@.template.values(size_option).last(),
                4,
            ) == Some(body@.len())
            &&& forall|number: u16|
                number != size_option ==> #[trigger] sender@.template.values(number)
                    == old_template.values(number)
        }),
{
    law_uint_round_trip(body@.len() % 0x1_0000_0000);
    lemma_uint_width(body@.len() % 0x1_0000_0000);
}

/// A body spans as many blocks as it takes to hold it, and an empty one spans one.
pub proof fn law_blocks_hold_the_body(sender: &QBlockSender, total: u32)
    requires
        sender.wf(),
        call_ensures(QBlockSender::total_blocks, (sender,), total),
        sender@.body.len() <= u32::MAX,
    ensures
        total > 0,
        sender@.body.len() == 0 ==> total == 1,
        sender@.body.len() > 0 ==> (total - 1) * block_len(sender@.szx) < sender@.body.len()
            <= total * block_len(sender@.szx),
{
    sender.lemma_inv();
    lemma_total(sender@);
    let size = block_len(sender@.szx);
    lemma_block_bounds(sender@.body.len(), size, (total - 1) as nat);
    let t = total as int;
    let s = size as int;
    assert((t - 1) * s + s == t * s) by (nonlinear_arith);
}

proof fn lemma_total(state: SenderState)
    requires
        szx_fits(state.szx),
        state.body.len() <= u32::MAX,
    ensures
        state.total() == block_count(state.body.len(), block_len(state.szx)),
        block_len(state.szx) > 0,
        state.total() > 0,
{
    let size = block_len(state.szx);
    lemma_pow2_pos((state.szx + 4) as nat);
    lemma_block_count(state.body.len(), size);
    let l = state.body.len() as int;
    let s = size as int;
    if l > 0 {
        assert((l - 1) / s <= l - 1) by (nonlinear_arith)
            requires
                l >= 1,
                s >= 1,
        ;
    }
}

proof fn lemma_is_block(state: SenderState, n: u32, bytes: Seq<u8>)
    requires
        szx_fits(state.szx),
        state.body.len() <= u32::MAX,
        n < state.total(),
        state.pdu(n) == Some(bytes),
        state.reads_back(n, bytes),
    ensures
        is_block(state, n, bytes),
{
    lemma_is_block_message(state, n);
}

proof fn lemma_is_unsendable(state: SenderState, n: u32)
    requires
        szx_fits(state.szx),
        state.body.len() <= u32::MAX,
        n < state.total(),
        state.pdu(n) is None,
    ensures
        is_unsendable(state, n),
        state.pdu_error(n) == QBlockErrorKind::InvalidInput <==> is_nameless(state, n),
        state.pdu_error(n) == QBlockErrorKind::InvalidData <==> !is_nameless(state, n),
{
    lemma_total(state);
    if !is_nameless(state, n) {
        lemma_is_block_message(state, n);
    }
}

proof fn lemma_small_exponent(szx: u8)
    requires
        block_len(szx) < 4096,
    ensures
        szx < 8,
{
    if szx >= 8 {
        lemma2_to64();
        if szx > 8 {
            lemma_pow2_strictly_increases(12, (szx + 4) as nat);
        }
    }
}

proof fn lemma_is_block_message(state: SenderState, n: u32)
    requires
        szx_fits(state.szx),
        state.body.len() <= u32::MAX,
        n < state.total(),
        state.block(n) is Some,
    ensures
        is_block_message(state, n, state.block_message(n, state.block(n)->0)),
{
    let size = block_len(state.szx);
    let block = state.block(n)->0;
    let message = state.block_message(n, block);
    lemma_total(state);
    lemma_block_bounds(state.body.len(), size, n as nat);
    let m = n as int;
    let s = size as int;
    assert((m + 1) * s == m * s + s) by (nonlinear_arith);
    if !is_nameless(state, n) {
        lemma_small_exponent(state.szx);
        lemma_size_exponent(state.szx);
        if n + 1 == state.total() {
            assert((n + 1) * size >= state.body.len());
        }
        if n < 4096 {
            law_block_round_trip(block);
        }
    }
    assert(message.values(state.option).last() == block_bytes(block));
}

/// What is built for a block is the message for that block. Nothing can be built for a block whose
/// number or size a block option cannot name, which is bad input, nor where the message is too
/// large.
pub proof fn law_built_block_is_the_block(
    sender: &QBlockSender,
    n: u32,
    total: u32,
    pdu: Result<Vec<u8>, QBlockError>,
)
    requires
        sender.wf(),
        sender@.body.len() <= u32::MAX,
        call_ensures(QBlockSender::total_blocks, (sender,), total),
        n < total,
        call_ensures(QBlockSender::build_block, (sender, n, total), pdu),
    ensures
        call_requires(QBlockSender::build_block, (sender, n, total)),
        pdu matches Ok(bytes) ==> is_block(sender@, n, bytes@),
        pdu matches Err(e) ==> is_unsendable(sender@, n) && (e is Block <==> is_nameless(
            sender@,
            n,
        )),
        is_nameless(sender@, n) ==> pdu is Err,
{
    sender.lemma_inv();
    lemma_total(sender@);
    if pdu is Ok {
        lemma_is_block(sender@, n, pdu->Ok_0@);
    } else {
        lemma_is_unsendable(sender@, n);
    }
}

/// The first look for a block to send queues the whole body; a later one queues nothing. The lowest
/// block that is queued is the next, until the burst is full or nothing is queued. It stays queued
/// until it is noted as sent.
pub proof fn law_next_block_is_the_lowest(
    sender: &mut QBlockSender,
    sent: u32,
    next: Result<Option<(u32, Vec<u8>)>, QBlockError>,
)
    requires
        old(sender).wf(),
        old(sender)@.kind == TransferKind::Non,
        old(sender)@.body.len() <= u32::MAX,
        call_ensures(QBlockSender::next_block, (sender, sent), next),
    ensures
        final(sender)@.started,
        final(sender)@ == (SenderState {
            outstanding: final(sender)@.outstanding,
            started: true,
            ..old(sender)@
        }),
        old(sender)@.started ==> final(sender)@.outstanding == old(sender)@.outstanding,
        !old(sender)@.started ==> forall|n: u32| #[trigger]
            final(sender)@.outstanding.blocks.contains(n) <==> n == 0 || n * block_len(
                old(sender)@.szx,
            ) < old(sender)@.body.len(),
        (next matches Ok(None)) <==> sent >= old(sender)@.config.max_payloads || forall|n: u32|
            !final(sender)@.outstanding.blocks.contains(n),
        next matches Ok(Some((n, bytes))) ==> {
            &&& is_block(final(sender)@, n, bytes@)
            &&& final(sender)@.outstanding.blocks.contains(n)
            &&& forall|m: u32| #[trigger]
                final(sender)@.outstanding.blocks.contains(m) ==> n <= m
        },
        next matches Err(e) ==> exists|n: u32| #[trigger]
            is_unsendable(final(sender)@, n) && final(sender)@.outstanding.blocks.contains(n)
                && forall|m: u32| #[trigger]
                final(sender)@.outstanding.blocks.contains(m) ==> n <= m,
{
    let before = old(sender)@;
    let after = final(sender)@;
    old(sender).lemma_inv();
    final(sender).lemma_inv();
    lemma_total(before);
    if !before.started {
        lemma_queue(before);
    }
    if let Ok(Some((n, bytes))) = next {
        assert(after.outstanding.blocks.contains(n));
        lemma_is_block(after, n, bytes@);
    }
    if next is Err {
        let some = choose|n: u32| after.outstanding.blocks.contains(n);
        lemma_least_exists(after.outstanding.blocks, some);
        lemma_is_unsendable(after, least(after.outstanding.blocks));
    }
}

proof fn lemma_queue(state: SenderState)
    requires
        szx_fits(state.szx),
        state.body.len() <= u32::MAX,
    ensures
        forall|n: u32| #[trigger]
            blocks_below(state.total()).contains(n) <==> n == 0 || n * block_len(state.szx)
                < state.body.len(),
{
    let size = block_len(state.szx);
    lemma_total(state);
    let total = state.total();
    lemma_block_bounds(state.body.len(), size, (total - 1) as nat);
    assert forall|n: u32| #[trigger]
        blocks_below(total).contains(n) <==> n == 0 || n * size < state.body.len() by {
        let m = n as int;
        let t = total as int;
        let s = size as int;
        if n < total {
            lemma_block_bounds(state.body.len(), size, n as nat);
            if state.body.len() == 0 {
                assert(n == 0);
            }
        } else {
            assert(m * s >= t * s) by (nonlinear_arith)
                requires
                    m >= t,
                    s > 0,
            ;
            assert((t - 1) * s + s == t * s) by (nonlinear_arith);
        }
    }
}

/// Noting a block as sent takes it, and no other, from the queue.
pub proof fn law_sent_block_leaves_the_queue(sender: &mut QBlockSender, n: u32)
    requires
        old(sender).wf(),
        call_ensures(QBlockSender::mark_sent, (sender, n), ()),
    ensures
        !final(sender)@.outstanding.blocks.contains(n),
        forall|m: u32| m != n ==> #[trigger] final(sender)@.outstanding.blocks.contains(m)
            == old(sender)@.outstanding.blocks.contains(m),
        final(sender)@ == (SenderState {
            outstanding: final(sender)@.outstanding,
            ..old(sender)@
        }),
        final(sender)@.outstanding.total == old(sender)@.outstanding.total,
{
}

/// A sender says of itself what it was made with.
pub proof fn law_sender_tells_its_settings(
    sender: &QBlockSender,
    config: QBlockConfig,
    kind: TransferKind,
    limit: u32,
)
    requires
        call_ensures(QBlockSender::config, (sender,), config),
        call_ensures(QBlockSender::kind, (sender,), kind),
        call_ensures(QBlockSender::burst_limit, (sender,), limit),
    ensures
        config == sender@.config,
        kind == sender@.kind,
        limit == sender@.config.max_payloads,
{
}

/// A sender is done when its body was queued and nothing of it is left in the queue.
pub proof fn law_sender_is_done_when_nothing_is_left(sender: &QBlockSender, done: bool)
    requires
        sender.wf(),
        call_ensures(QBlockSender::is_done, (sender,), done),
    ensures
        done <==> sender@.started && forall|n: u32| !sender@.outstanding.blocks.contains(n),
{
    if done {
        assert(forall|n: u32| !sender@.outstanding.blocks.contains(n));
    } else if sender@.started && forall|n: u32| !sender@.outstanding.blocks.contains(n) {
        assert(sender@.outstanding.blocks =~= Set::<u32>::empty());
    }
}

proof fn lemma_all_are_queued(set: BlockSet, blocks: Seq<u32>, total: u32)
    requires
        set.total == Some(total),
        run_count(set.blocks) + blocks.len() <= RBLOCK_CNT,
    ensures
        queued(set, blocks, total) == (BlockSet {
            blocks: set.blocks.union(within(blocks, total)),
            total: Some(total),
        }),
        run_count(queued(set, blocks, total).blocks) <= run_count(set.blocks) + blocks.len(),
    decreases blocks.len(),
{
    let all = queued(set, blocks, total);
    if blocks.len() == 0 {
        assert(all.blocks =~= set.blocks.union(within(blocks, total)));
    } else {
        let front = blocks.drop_last();
        let n = blocks.last();
        let before = queued(set, front, total);
        lemma_all_are_queued(set, front, total);
        assert forall|m: u32| #[trigger] blocks.contains(m) <==> front.contains(m) || m == n by {
            if blocks.contains(m) {
                let i = choose|i: int| 0 <= i < blocks.len() && blocks[i] == m;
                if i < front.len() {
                    assert(front[i] == m);
                }
            }
            if front.contains(m) {
                let i = choose|i: int| 0 <= i < front.len() && front[i] == m;
                assert(blocks[i] == m);
            }
            assert(blocks[blocks.len() - 1] == n);
        }
        if n < total {
            lemma_new_run(before.blocks, n);
            assert(before.admits(n));
        }
        assert(all.blocks =~= set.blocks.union(within(blocks, total)));
    }
}

/// A report of missing blocks queues nothing but reported blocks of the body, keeps what was
/// queued, and queues the whole body first if that was not done yet. All the reported blocks are
/// queued if there is room for each as a run of its own. Nothing else changes.
pub proof fn law_reported_blocks_are_queued(sender: &mut QBlockSender, blocks: &[u32])
    requires
        old(sender).wf(),
        old(sender)@.body.len() <= u32::MAX,
        call_ensures(QBlockSender::refill, (sender, blocks), ()),
    ensures
        final(sender)@.started,
        final(sender)@ == (SenderState {
            outstanding: final(sender)@.outstanding,
            started: true,
            ..old(sender)@
        }),
        forall|n: u32| #[trigger]
            old(sender)@.outstanding.blocks.contains(n)
                ==> final(sender)@.outstanding.blocks.contains(n),
        !old(sender)@.started ==> forall|n: u32| #[trigger]
            final(sender)@.outstanding.blocks.contains(n) <==> n == 0 || n * block_len(
                old(sender)@.szx,
            ) < old(sender)@.body.len(),
        old(sender)@.started ==> forall|n: u32| #[trigger]
            final(sender)@.outstanding.blocks.contains(n)
                ==> old(sender)@.outstanding.blocks.contains(n) || (blocks@.contains(n) && (n == 0
                || n * block_len(old(sender)@.szx) < old(sender)@.body.len())),
        old(sender)@.started && run_count(old(sender)@.outstanding.blocks) + blocks@.len()
            <= RBLOCK_CNT ==> forall|n: u32|
            blocks@.contains(n) && (n == 0 || n * block_len(old(sender)@.szx)
                < old(sender)@.body.len()) ==> #[trigger]
            final(sender)@.outstanding.blocks.contains(n),
{
    let before = old(sender)@;
    let begun = before.begun();
    old(sender).lemma_inv();
    lemma_total(before);
    lemma_queue(before);
    law_refill_adds_only_listed_blocks(begun.outstanding, blocks@, before.total());
    let all = queued(begun.outstanding, blocks@, before.total());
    assert forall|n: u32| #[trigger]
        within(blocks@, before.total()).contains(n) <==> blocks@.contains(n) && blocks_below(
            before.total(),
        ).contains(n) by {}
    if before.started && run_count(before.outstanding.blocks) + blocks@.len() <= RBLOCK_CNT {
        lemma_all_are_queued(before.outstanding, blocks@, before.total());
        assert forall|n: u32|
            blocks@.contains(n) && (n == 0 || n * block_len(before.szx)
                < before.body.len()) implies #[trigger] all.blocks.contains(n) by {
            assert(blocks_below(before.total()).contains(n));
            assert(within(blocks@, before.total()).contains(n));
        }
    }
    if !before.started {
        assert forall|n: u32| #[trigger] all.blocks.contains(n) <==> blocks_below(
            before.total(),
        ).contains(n) by {
            if blocks_below(before.total()).contains(n) {
                assert(begun.outstanding.blocks.contains(n));
            }
            if all.blocks.contains(n) && !begun.outstanding.blocks.contains(n) {
                assert(within(blocks@, before.total()).contains(n));
            }
        }
    }
}

/// A report is taken block by block: a list does what its front does, and then its last block. A
/// block that lies in the body is queued if it is queued already or joins a run that is, or if
/// there is room for another run; any other changes nothing.
pub proof fn law_reports_are_taken_block_by_block(
    sender: &mut QBlockSender,
    blocks: &[u32],
    first: &mut QBlockSender,
    front: &[u32],
    second: &mut QBlockSender,
    last: &[u32],
)
    requires
        old(sender).wf(),
        old(sender)@.started,
        old(sender)@.body.len() <= u32::MAX,
        old(first).wf(),
        old(second).wf(),
        old(first)@ == old(sender)@,
        old(second)@ == final(first)@,
        last@.len() == 1,
        blocks@ == front@ + last@,
        call_ensures(QBlockSender::refill, (sender, blocks), ()),
        call_ensures(QBlockSender::refill, (first, front), ()),
        call_ensures(QBlockSender::refill, (second, last), ()),
    ensures
        final(sender)@ == final(second)@,
        ({
            let n = last@[0];
            let queue = old(second)@.outstanding.blocks;
            let inside = n == 0 || n * block_len(old(second)@.szx) < old(second)@.body.len();
            let room = run_count(queue.insert(n)) <= run_count(queue) || run_count(queue)
                < RBLOCK_CNT;
            &&& inside && room ==> final(second)@.outstanding.blocks == queue.insert(n)
            &&& !(inside && room) ==> final(second)@.outstanding.blocks == queue
        }),
{
    let n = last@[0];
    let total = old(sender)@.total();
    old(second).lemma_inv();
    old(sender).lemma_inv();
    lemma_total(old(sender)@);
    lemma_queue(old(sender)@);
    assert(blocks@.drop_last() =~= front@);
    assert(blocks@.last() == n);
    assert(last@.drop_last() =~= Seq::<u32>::empty());
    assert(last@.last() == n);
    lemma_new_run(old(second)@.outstanding.blocks, n);
    assert(blocks_below(total).contains(n) <==> n < total);
    let before = old(second)@.outstanding;
    assert(queued(before, last@.drop_last(), total) == before);
    assert(old(second)@.outstanding.total == Some(total));
}

proof fn lemma_burst(state: SenderState, limit: nat)
    ensures
        ({
            let burst = state.burst(limit);
            let queue = state.outstanding.blocks;
            &&& burst.blocks.len() == burst.pdus.len() <= limit
            &&& ascending(burst.blocks)
            &&& forall|i: int|
                0 <= i < burst.blocks.len() ==> queue.contains(#[trigger] burst.blocks[i])
            &&& forall|i: int|
                0 <= i < burst.blocks.len() ==> state.pdu(#[trigger] burst.blocks[i]) == Some(
                    burst.pdus[i],
                )
            &&& forall|n: u32, i: int|
                #![trigger queue.contains(n), burst.blocks[i]]
                queue.contains(n) && !burst.blocks.contains(n) && 0 <= i < burst.blocks.len()
                    ==> burst.blocks[i] < n
            &&& forall|n: u32| #[trigger]
                burst.state.outstanding.blocks.contains(n) <==> queue.contains(n)
                    && !burst.blocks.contains(n)
            &&& burst.state == with_blocks(state, burst.state.outstanding.blocks)
            &&& burst.ok ==> burst.blocks.len() == limit || burst.state.idle()
            &&& !burst.ok ==> !burst.state.idle() && burst.blocks.len() < limit && state.pdu(
                least(burst.state.outstanding.blocks),
            ) is None
        }),
    decreases limit,
{
    let burst = state.burst(limit);
    let queue = state.outstanding.blocks;
    if limit == 0 || state.idle() {
        assert(burst.state == with_blocks(state, queue));
    } else {
        let some = choose|n: u32| queue.contains(n);
        lemma_least_exists(queue, some);
        let n = least(queue);
        if state.pdu(n) is None {
            assert(burst.state == with_blocks(state, queue));
        } else {
            let next = state.sent(n);
            let rest = next.burst((limit - 1) as nat);
            lemma_burst(next, (limit - 1) as nat);
            assert(forall|m: u32| #[trigger] next.pdu(m) == state.pdu(m));
            assert(burst.blocks =~= seq![n] + rest.blocks);
            assert forall|m: u32| #[trigger] burst.blocks.contains(m) <==> m == n
                || rest.blocks.contains(m) by {
                if burst.blocks.contains(m) {
                    let i = choose|i: int| 0 <= i < burst.blocks.len() && burst.blocks[i] == m;
                    if i > 0 {
                        assert(rest.blocks[i - 1] == m);
                    }
                }
                assert(burst.blocks[0] == n);
                if rest.blocks.contains(m) {
                    let i = choose|i: int| 0 <= i < rest.blocks.len() && rest.blocks[i] == m;
                    assert(burst.blocks[i + 1] == m);
                }
            }
            assert forall|i: int| 0 <= i < burst.blocks.len() implies queue.contains(
                #[trigger] burst.blocks[i],
            ) by {
                if i > 0 {
                    assert(next.outstanding.blocks.contains(rest.blocks[i - 1]));
                }
            }
            assert forall|i: int| 0 <= i < burst.blocks.len() implies state.pdu(
                #[trigger] burst.blocks[i],
            ) == Some(burst.pdus[i]) by {
                if i > 0 {
                    assert(next.pdu(rest.blocks[i - 1]) == Some(rest.pdus[i - 1]));
                }
            }
            assert forall|i: int, j: int| 0 <= i < j < burst.blocks.len() implies burst.blocks[i]
                < burst.blocks[j] by {
                assert(next.outstanding.blocks.contains(rest.blocks[j - 1]));
                if i > 0 {
                    assert(rest.blocks[i - 1] < rest.blocks[j - 1]);
                }
            }
            assert forall|m: u32, i: int|
                #![trigger queue.contains(m), burst.blocks[i]]
                queue.contains(m) && !burst.blocks.contains(m) && 0 <= i
                    < burst.blocks.len() implies burst.blocks[i] < m by {
                if i > 0 {
                    assert(next.outstanding.blocks.contains(m));
                    assert(rest.blocks[i - 1] < m);
                }
            }
            assert forall|m: u32| #[trigger]
                burst.state.outstanding.blocks.contains(m) <==> queue.contains(m)
                    && !burst.blocks.contains(m) by {
                let queue_then = next.outstanding.blocks;
                assert(rest.state.outstanding.blocks.contains(m) <==> queue_then.contains(m)
                    && !rest.blocks.contains(m));
            }
        }
    }
}

/// What was sent in a burst: the blocks whose messages it moved out.
pub open spec fn burst_of(
    before: SenderState,
    after: SenderState,
    blocks: Seq<u32>,
    sent: Seq<Seq<u8>>,
) -> bool {
    &&& blocks.len() == sent.len()
    &&& ascending(blocks)
    &&& forall|i: int|
        0 <= i < sent.len() ==> is_block(before, #[trigger] blocks[i], sent[i])
    &&& forall|n: u32, i: int|
        #![trigger after.outstanding.blocks.contains(n), blocks[i]]
        after.outstanding.blocks.contains(n) && 0 <= i < blocks.len() ==> blocks[i] < n
    &&& forall|n: u32|
        blocks.contains(n) ==> !(#[trigger] after.outstanding.blocks.contains(n))
    &&& forall|n: u32| #[trigger]
        after.outstanding.blocks.contains(n) || blocks.contains(n) <==> if before.started {
            before.outstanding.blocks.contains(n)
        } else {
            n == 0 || n * block_len(before.szx) < before.body.len()
        }
}

/// A burst moves out the messages for the lowest blocks of the queue, in ascending order and each
/// once, behind what was there. It ends when it is full or the queue is empty; if it fails, at a
/// block that no message can be built for. What it moved out has left the queue, and nothing else
/// has. A first burst starts from the whole body.
pub proof fn law_burst_moves_out_the_lowest_blocks(
    sender: &mut QBlockSender,
    sink: &mut Vec<Vec<u8>>,
    sent: Result<u32, QBlockError>,
)
    requires
        old(sender).wf(),
        old(sender)@.kind == TransferKind::Non,
        old(sender)@.body.len() <= u32::MAX,
        call_ensures(QBlockSender::drain_burst, (sender, sink), sent),
    ensures
        ({
            let limit = old(sender)@.config.max_payloads;
            let base = old(sink)@.len();
            let moved = Seq::new(
                (final(sink)@.len() - base) as nat,
                |i: int| final(sink)@[base + i]@,
            );
            &&& final(sink)@.len() >= base
            &&& forall|i: int| 0 <= i < base ==> final(sink)@[i] == old(sink)@[i]
            &&& moved.len() <= limit
            &&& exists|blocks: Seq<u32>| #[trigger]
                burst_of(old(sender)@, final(sender)@, blocks, moved)
            &&& sent matches Ok(count) ==> count == moved.len() && (count == limit || forall|n: u32|
                !final(sender)@.outstanding.blocks.contains(n))
            &&& sent is Err ==> moved.len() < limit && exists|n: u32| #[trigger]
                is_unsendable(final(sender)@, n) && final(sender)@.outstanding.blocks.contains(n)
                    && forall|m: u32| #[trigger]
                    final(sender)@.outstanding.blocks.contains(m) ==> n <= m
            &&& final(sender)@ == (SenderState {
                outstanding: final(sender)@.outstanding,
                started: true,
                ..old(sender)@
            })
        }),
{
    let before = old(sender)@;
    let begun = before.begun();
    let limit = before.config.max_payloads as nat;
    let burst = begun.burst(limit);
    old(sender).lemma_inv();
    lemma_total(before);
    lemma_queue(before);
    lemma_burst(begun, limit);
    let base = old(sink)@.len();
    let moved = Seq::new((final(sink)@.len() - base) as nat, |i: int| final(sink)@[base + i]@);
    assert(moved =~= burst.pdus);
    assert forall|i: int| 0 <= i < moved.len() implies is_block(
        before,
        #[trigger] burst.blocks[i],
        moved[i],
    ) by {
        let n = burst.blocks[i];
        assert(begun.outstanding.blocks.contains(n));
        assert(before.reads_back(burst.blocks[i], burst.pdus[i]));
        assert(before.pdu(n) == begun.pdu(n));
        if before.started {
            assert(before.outstanding.blocks.contains(n));
        }
        lemma_is_block(before, n, moved[i]);
    }
    assert(burst_of(before, final(sender)@, burst.blocks, moved)) by {
        assert forall|n: u32| #[trigger]
            final(sender)@.outstanding.blocks.contains(n) || burst.blocks.contains(n) <==> (
            if before.started {
                before.outstanding.blocks.contains(n)
            } else {
                n == 0 || n * block_len(before.szx) < before.body.len()
            }) by {
            if burst.blocks.contains(n) {
                let i = choose|i: int| 0 <= i < burst.blocks.len() && burst.blocks[i] == n;
                assert(begun.outstanding.blocks.contains(burst.blocks[i]));
            }
            if !before.started {
                assert(begun.outstanding.blocks.contains(n) <==> blocks_below(
                    before.total(),
                ).contains(n));
            }
        }
    }
    if sent is Err {
        assert(!burst.state.idle());
        if forall|n: u32| !burst.state.outstanding.blocks.contains(n) {
            assert(burst.state.outstanding.blocks =~= Set::<u32>::empty());
        }
        let some = choose|n: u32| burst.state.outstanding.blocks.contains(n);
        lemma_least_exists(burst.state.outstanding.blocks, some);
        let n = least(burst.state.outstanding.blocks);
        assert(begun.outstanding.blocks.contains(n));
        assert(burst.state.pdu(n) == begun.pdu(n));
        lemma_is_unsendable(burst.state, n);
    }
    if sent is Ok && burst.state.idle() {
        assert(forall|n: u32| !burst.state.outstanding.blocks.contains(n));
    }
}

/// A factor that undoes another modulo 2^64 does so for every number.
proof fn lemma_factor_undone(x: u64, c: nat, d: nat, k: nat)
    requires
        c * d == k * 0x1_0000_0000_0000_0000 + 1,
    ensures
        ((x as nat * c) % 0x1_0000_0000_0000_0000 * d) % 0x1_0000_0000_0000_0000 == x,
{
    let m = 0x1_0000_0000_0000_0000int;
    let n = x as int;
    lemma_mul_mod_noop_left(n * c as int, d as int, m);
    assert((n * c as int) * d as int == n * (c as int * d as int)) by (nonlinear_arith);
    assert(n * (k as int * m + 1) == m * (n * k as int) + n) by (nonlinear_arith);
    lemma_mod_multiples_vanish(n * k as int, n, m);
    lemma_small_mod(x as nat, m as nat);
}

/// What undoes the mixing of the generator: the shifts and the factors in reverse.
pub open spec fn unmixed(z: u64) -> u64 {
    let b = z ^ (z >> 31) ^ (z >> 62);
    let c = b.wrapping_mul(0x3196_42B2_D24D_8EC3);
    let a = c ^ (c >> 27) ^ (c >> 54);
    let d = a.wrapping_mul(0x96DE_1B17_3F11_9089);
    d ^ (d >> 30) ^ (d >> 60)
}

/// The numbers that are drawn tell the generator: no two states of it give the same number, and
/// each step adds the same odd constant to the state.
pub proof fn law_numbers_tell_the_generator(sender: &mut QBlockSender, z: u64)
    requires
        old(sender).wf(),
        call_ensures(QBlockSender::next_rand, (sender,), z),
    ensures
        unmixed(z) == final(sender)@.rng,
        final(sender)@.rng == old(sender)@.rng.wrapping_add(0x9E37_79B9_7F4A_7C15),
{
    let s = final(sender)@.rng;
    let u = s ^ (s >> 30);
    let a = u.wrapping_mul(0xBF58_476D_1CE4_E5B9);
    let v = a ^ (a >> 27);
    let b = v.wrapping_mul(0x94D0_49BB_1331_11EB);
    assert(z == b ^ (b >> 31));
    assert(z ^ (z >> 31) ^ (z >> 62) == b) by (bit_vector)
        requires
            z == b ^ (b >> 31),
    ;
    assert(v ^ (v >> 27) ^ (v >> 54) == a) by (bit_vector)
        requires
            v == a ^ (a >> 27),
    ;
    assert(u ^ (u >> 30) ^ (u >> 60) == s) by (bit_vector)
        requires
            u == s ^ (s >> 30),
    ;
    lemma_factor_undone(v, 0x94D0_49BB_1331_11EB, 0x3196_42B2_D24D_8EC3, 0x1CD3_36ED_A85F_1453);
    lemma_factor_undone(u, 0xBF58_476D_1CE4_E5B9, 0x96DE_1B17_3F11_9089, 0x70C3_BCA7_8F27_F46C);
}

/// Drawing a random number changes nothing but the generator, which never stands still, and the
/// number depends on nothing but the generator.
pub proof fn law_jitter_draws_from_the_generator(
    sender: &mut QBlockSender,
    fraction: u64,
    other: &mut QBlockSender,
    z: u64,
)
    requires
        old(sender).wf(),
        old(other).wf(),
        old(sender)@.rng == old(other)@.rng,
        call_ensures(QBlockSender::jitter, (sender,), fraction),
        call_ensures(QBlockSender::next_rand, (other,), z),
    ensures
        fraction == z >> 11,
        fraction < 0x20_0000_0000_0000,
        final(sender)@.rng == final(other)@.rng,
        final(sender)@.rng != old(sender)@.rng,
        final(sender)@ == (SenderState { rng: final(sender)@.rng, ..old(sender)@ }),
        final(other)@ == (SenderState { rng: final(other)@.rng, ..old(other)@ }),
{
}

} // verus!
