//! Laws of whole transfers: what a sender sends, a receiver puts together.
use crate::body::block_len;
use crate::body::block_of;
use crate::body::lemma_block_count;
use crate::body::lemma_small_sizes;
use crate::config::QBlockError;
use crate::laws::receiving::admitted;
use crate::laws::receiving::after;
use crate::laws::receiving::blocks_of;
use crate::laws::receiving::counting;
use crate::laws::receiving::delivered;
use crate::laws::receiving::fits;
use crate::laws::receiving::holds_all;
use crate::laws::receiving::holds_part;
use crate::laws::receiving::law_any_order_reassembles_the_body;
use crate::laws::receiving::law_in_order_reassembles_the_body;
use crate::laws::receiving::lemma_after;
use crate::laws::receiving::lemma_listed_push;
use crate::laws::receiving::listed;
use crate::laws::receiving::option_of;
use crate::laws::recovery::gaps;
use crate::laws::recovery::law_incomplete_transfer_asks_for_its_gaps;
use crate::laws::sending::law_burst_sends_all_in_order;
use crate::laws::sending::law_refill_queues_the_request;
use crate::laws::sending::sendable;
use crate::packet::block_bytes;
use crate::packet::block_scalar;
use crate::packet::law_block_round_trip;
use crate::packet::lemma_size_exponent;
use crate::packet::role_of;
use crate::packet::spec_size_option;
use crate::packet::wire_decoding;
use crate::packet::ByteOrder;
use crate::packet::Message;
use crate::packet::Q_BLOCK1;
use crate::packet::Q_BLOCK2;
use crate::packet::TWO_BYTE_FIELD;
use crate::range_set::blocks_below;
use crate::range_set::law_missing_names_the_gaps;
use crate::range_set::lemma_below_finite;
use crate::range_set::missing_below;
use crate::range_set::run_count;
use crate::range_set::run_starts;
use crate::range_set::BlockSet;
use crate::range_set::RBLOCK_CNT;
use crate::receiver::Outcome;
use crate::receiver::ReceiverState;
use crate::sender::SenderState;
use crate::uint::law_uint_round_trip;
use crate::uint::lemma_uint_width;
use crate::uint::uint_bytes;
use vstd::prelude::*;
use vstd::relations::injective_on;
use vstd::set_lib::lemma_int_range;
use vstd::set_lib::lemma_len_subset;
use vstd::set_lib::lemma_map_size;
use vstd::set_lib::set_int_range;

verus! {

/// Numbers below `end` fall into at most `(end + 1) / 2` runs, since there is a gap between runs.
proof fn lemma_runs_within(blocks: Set<u32>, end: nat)
    requires
        end <= u32::MAX,
        blocks.subset_of(blocks_below(end as u32)),
    ensures
        run_starts(blocks).finite(),
        2 * run_count(blocks) <= end + 1,
{
    let starts = run_starts(blocks);
    lemma_below_finite(end);
    assert(starts.subset_of(blocks_below(end as u32)));
    lemma_len_subset(starts, blocks_below(end as u32));
    let half = |n: u32| n as int / 2;
    let image = starts.map(half);
    assert(injective_on(half, starts)) by {
        assert forall|a: u32, b: u32|
            starts.contains(a) && starts.contains(b) && #[trigger] half(a) == #[trigger] half(
                b,
            ) implies a == b by {
            if a + 1 == b {
                assert(blocks.contains((b - 1) as u32));
            }
            if b + 1 == a {
                assert(blocks.contains((a - 1) as u32));
            }
        }
    }
    lemma_map_size(starts, image, half);
    let top = (end as int + 1) / 2;
    assert(image.subset_of(set_int_range(0, top))) by {
        assert forall|h: int| image.contains(h) implies set_int_range(0, top).contains(h) by {
            let a = choose|a: u32| starts.contains(a) && h == half(a);
            assert(blocks_below(end as u32).contains(a));
        }
    }
    lemma_int_range(0, top);
    lemma_len_subset(image, set_int_range(0, top));
}

/// A body of at most twice as many blocks as there can be ranges is received in any order: no
/// block of it is ever dropped.
pub proof fn law_small_body_is_never_dropped(
    state: ReceiverState,
    body: Seq<u8>,
    szx: u8,
    n: u32,
)
    requires
        holds_part(state, body, szx),
        blocks_of(body, szx) <= 2 * RBLOCK_CNT,
        n < blocks_of(body, szx),
    ensures
        state.received.admits(n),
{
    let count = blocks_of(body, szx);
    let blocks = state.received.blocks;
    lemma_below_finite(count);
    assert(blocks.subset_of(blocks_below(count as u32)));
    if !blocks.contains(n) && !state.received.touches(n) {
        lemma_runs_within(blocks, count);
        lemma_runs_within(blocks.insert(n), count);
        assert(run_starts(blocks.insert(n)) =~= run_starts(blocks).insert(n));
        assert(!run_starts(blocks).contains(n));
    }
}

/// With the two lowest blocks missing, there are fewer runs than missing blocks.
proof fn lemma_runs_and_gaps(blocks: Set<u32>, end: nat)
    requires
        0 < end <= u32::MAX,
        blocks.subset_of(blocks_below(end as u32)),
        !blocks.contains(0),
        !blocks.contains(1),
    ensures
        run_count(blocks) < missing_below(blocks, end).len(),
{
    let starts = run_starts(blocks);
    let missing = missing_below(blocks, end);
    lemma_runs_within(blocks, end);
    law_missing_names_the_gaps(blocks, end);
    let back = |n: u32| (n - 1) as u32;
    let image = starts.map(back);
    assert(injective_on(back, starts)) by {
        assert forall|a: u32, b: u32|
            starts.contains(a) && starts.contains(b) && #[trigger] back(a) == #[trigger] back(
                b,
            ) implies a == b by {
            assert(blocks.contains(a) && blocks.contains(b));
            assert(a > 0 && b > 0);
        }
    }
    lemma_map_size(starts, image, back);
    assert(image.insert(0).subset_of(missing.to_set())) by {
        assert forall|m: u32| image.insert(0).contains(m) implies missing.to_set().contains(m) by {
            if m == 0 {
                assert(missing.contains(0));
            } else {
                let a = choose|a: u32| starts.contains(a) && m == back(a);
                assert(blocks_below(end as u32).contains(a));
                assert(missing.contains(m));
            }
        }
    }
    assert(!image.contains(0)) by {
        if image.contains(0) {
            let a = choose|a: u32| starts.contains(a) && 0 == back(a);
            assert(blocks.contains(a));
            assert(a == 1);
        }
    }
    missing.lemma_cardinality_of_set();
    vstd::seq_lib::seq_to_set_is_finite(missing);
    lemma_len_subset(image.insert(0), missing.to_set());
}

/// Whether a partial body can be completed gap by gap: its first block is there, or there are few
/// gaps.
pub open spec fn recoverable(state: ReceiverState, body: Seq<u8>, szx: u8) -> bool {
    state.received.blocks.contains(0) || gaps(state, body, szx).len() <= RBLOCK_CNT
}

/// The gaps of a body, delivered in ascending order, are all tracked.
proof fn lemma_gaps_admitted(
    state: ReceiverState,
    body: Seq<u8>,
    szx: u8,
    size: Option<u32>,
    k: int,
)
    requires
        holds_part(state, body, szx),
        !holds_all(state, body, szx),
        recoverable(state, body, szx),
        0 <= k <= gaps(state, body, szx).len(),
    ensures
        admitted(state, body, szx, size, gaps(state, body, szx).take(k)),
    decreases k,
{
    let count = blocks_of(body, szx);
    let blocks = state.received.blocks;
    let all = gaps(state, body, szx);
    if k > 0 {
        let front = all.take(k - 1);
        let n = all[k - 1];
        lemma_gaps_admitted(state, body, szx, size, k - 1);
        lemma_small_sizes(szx);
        lemma_block_count(body.len(), block_len(szx));
        law_missing_names_the_gaps(blocks, count);
        assert(all.contains(n));
        assert forall|i: int| 0 <= i < front.len() implies (#[trigger] front[i]) < count by {
            assert(front[i] == all[i]);
            assert(all.contains(all[i]));
        }
        assert(!listed(front).contains(n)) by {
            if front.contains(n) {
                let i = choose|i: int| 0 <= i < front.len() && front[i] == n;
                assert(all[i] < all[k - 1]);
            }
        }
        assert(blocks_below(count as u32).contains(n));
        lemma_after(state, body, szx, size, front);
        let now = after(state, body, szx, size, front);
        assert(now.received.admits(n)) by {
            if n > 0 {
                let m = (n - 1) as u32;
                if !blocks.contains(m) {
                    assert(all.contains(m));
                    let i = choose|i: int| 0 <= i < all.len() && all[i] == m;
                    if i >= k {
                        assert(all[k - 1] < all[i]);
                    }
                    assert(i != k - 1);
                    assert(front[i] == m);
                }
                assert(now.received.blocks.contains(m));
            } else {
                if k - 1 > 0 {
                    assert(all[0] < all[k - 1]);
                }
                assert(front =~= Seq::<u32>::empty());
                assert(now == state);
                assert(blocks.subset_of(blocks_below(count as u32)));
                if !blocks.contains(1) {
                    lemma_runs_and_gaps(blocks, count);
                }
            }
        }
        let taken = all.take(k);
        assert forall|j: int| 0 <= j < taken.len() implies (#[trigger] after(
            state,
            body,
            szx,
            size,
            taken.take(j),
        )).received.admits(taken[j]) by {
            if j < k - 1 {
                assert(taken.take(j) =~= front.take(j));
                assert(taken[j] == front[j]);
            } else {
                assert(taken.take(j) =~= front);
            }
        }
    }
}

/// A partial body is completed by its gaps: delivered in ascending order, none of them is dropped,
/// and the last one hands the body out. It has its first block, or few gaps.
pub proof fn law_gaps_complete_the_body(
    state: ReceiverState,
    body: Seq<u8>,
    szx: u8,
    size: Option<u32>,
)
    requires
        holds_part(state, body, szx),
        !holds_all(state, body, szx),
        recoverable(state, body, szx),
    ensures
        ({
            let all = gaps(state, body, szx);
            &&& all.len() > 0
            &&& admitted(state, body, szx, size, all)
            &&& delivered(
                after(state, body, szx, size, all.drop_last()),
                body,
                szx,
                size,
                all.last(),
            ).1 == Ok::<Outcome, QBlockError>(Outcome::Complete(body))
        }),
{
    let count = blocks_of(body, szx);
    let blocks = state.received.blocks;
    let all = gaps(state, body, szx);
    law_missing_names_the_gaps(blocks, count);
    let lost = choose|n: u32| blocks_below(count as u32).contains(n) && !blocks.contains(n);
    assert(all.contains(lost));
    lemma_gaps_admitted(state, body, szx, size, all.len() as int);
    assert(all.take(all.len() as int) =~= all);
    let front = all.drop_last();
    let n = all.last();
    assert(all =~= front.push(n));
    assert(all.contains(all[all.len() - 1]));
    assert forall|i: int| 0 <= i < front.len() implies (#[trigger] front[i]) < count by {
        assert(front[i] == all[i]);
        assert(all.contains(all[i]));
    }
    assert(!front.contains(n)) by {
        if front.contains(n) {
            let i = choose|i: int| 0 <= i < front.len() && front[i] == n;
            assert(all[i] < all[all.len() - 1]);
        }
    }
    assert(blocks_below(count as u32).contains(n));
    lemma_listed_push(front, n);
    assert(blocks_below(count as u32).subset_of(blocks.union(listed(front)).insert(n))) by {
        assert forall|m: u32| blocks_below(count as u32).contains(m) implies blocks.union(
            listed(front),
        ).insert(n).contains(m) by {
            if !blocks.contains(m) {
                assert(all.contains(m));
                assert(listed(all).contains(m));
            }
        }
    }
    law_any_order_reassembles_the_body(state, body, szx, size, front, n);
}

/// Every round of recovery makes progress: the lowest gaps, delivered in ascending order, are all
/// tracked, and exactly the other gaps are left.
pub proof fn law_recovery_round_makes_progress(
    state: ReceiverState,
    body: Seq<u8>,
    szx: u8,
    size: Option<u32>,
    round: nat,
)
    requires
        holds_part(state, body, szx),
        !holds_all(state, body, szx),
        recoverable(state, body, szx),
        round < gaps(state, body, szx).len(),
    ensures
        ({
            let sent = gaps(state, body, szx).take(round as int);
            let next = after(state, body, szx, size, sent);
            &&& admitted(state, body, szx, size, sent)
            &&& holds_part(next, body, szx)
            &&& !holds_all(next, body, szx)
            &&& forall|n: u32| #[trigger]
                gaps(next, body, szx).contains(n) <==> gaps(state, body, szx).contains(n)
                    && !sent.contains(n)
        }),
{
    let count = blocks_of(body, szx);
    let blocks = state.received.blocks;
    let all = gaps(state, body, szx);
    let sent = all.take(round as int);
    let next = after(state, body, szx, size, sent);
    lemma_gaps_admitted(state, body, szx, size, round as int);
    law_missing_names_the_gaps(blocks, count);
    assert forall|i: int| 0 <= i < sent.len() implies (#[trigger] sent[i]) < count by {
        assert(sent[i] == all[i]);
        assert(all.contains(all[i]));
    }
    let left = all[round as int];
    assert(all.contains(left));
    assert(!sent.contains(left)) by {
        if sent.contains(left) {
            let i = choose|i: int| 0 <= i < sent.len() && sent[i] == left;
            assert(all[i] < all[round as int]);
        }
    }
    assert(blocks_below(count as u32).contains(left));
    assert(!blocks.union(listed(sent)).contains(left));
    lemma_after(state, body, szx, size, sent);
    assert(!next.received.blocks.contains(left));
    law_missing_names_the_gaps(next.received.blocks, count);
}

/// Whether a sender starts from `template`, with nothing but the length of its body added.
pub open spec fn made_from(sender: SenderState, template: Message) -> bool {
    &&& sender.inv()
    &&& sender.template == template.with_option(
        spec_size_option(sender.option),
        uint_bytes(sender.body.len() % 0x1_0000_0000),
    )
}

/// Whether block messages can start from `template`: it has a code, a token of the length it
/// notes, no block option and no length, and with a length its options are near each other and
/// short enough for the machine to read.
pub open spec fn is_template(template: Message, option: u16, machine: ByteOrder) -> bool {
    &&& option == Q_BLOCK1 || option == Q_BLOCK2
    &&& template.values(option).len() == 0
    &&& template.values(spec_size_option(option)).len() == 0
    &&& template.token.len() == template.first % 16
    &&& template.token.len() <= 8
    &&& template.code != 0
    &&& template.role == role_of(template.code)
    &&& machine is Little || template.with_option(
        spec_size_option(option),
        Seq::empty(),
    ).short_fields()
}

/// Whether the blocks of a sender can be named by a block option.
pub open spec fn nameable(sender: SenderState) -> bool {
    &&& sender.szx < 8
    &&& sender.body.len() <= u32::MAX
    &&& blocks_of(sender.body, sender.szx) <= 4096
}

proof fn lemma_short_message(sender: SenderState, template: Message, n: u32)
    requires
        made_from(sender, template),
        is_template(template, sender.option, ByteOrder::Big),
        sender.block(n) is Some,
        sender.body.len() <= u32::MAX,
    ensures
        sender.block_message(n, sender.block(n)->0).short_fields(),
{
    let option = sender.option;
    let size_option = spec_size_option(option);
    let base = template.with_option(size_option, Seq::empty());
    let block = sender.block(n)->0;
    let message = sender.block_message(n, block);
    lemma_uint_width(block_scalar(block));
    lemma_uint_width(sender.body.len() % 0x1_0000_0000);
    assert(message.values(option) =~= seq![block_bytes(block)]);
    assert(message.values(size_option) =~= seq![uint_bytes(
        sender.body.len() % 0x1_0000_0000,
    )]);
    assert forall|number: u16| number != option && number != size_option implies #[trigger]
        message.values(number) == base.values(number) by {}
    assert forall|number: u16, i: int| 0 <= i < message.values(number).len() implies (
    #[trigger] message.values(number)[i]).len() < TWO_BYTE_FIELD by {
        if number != option && number != size_option {
            assert(base.values(number)[i].len() < TWO_BYTE_FIELD);
        }
    }
    assert forall|number: u16|
        number >= TWO_BYTE_FIELD && (#[trigger] message.values(number)).len() > 0 implies exists|
        before: u16,
    |
        before < number < before + TWO_BYTE_FIELD && (#[trigger] message.values(before)).len() > 0 by {
        assert(base.values(number).len() > 0);
        let before = choose|before: u16|
            before < number < before + TWO_BYTE_FIELD && (#[trigger] base.values(before)).len() > 0;
        assert(message.values(before).len() > 0);
    }
}

/// A block message says on the wire which block it carries, how long the body is, and the bytes
/// of the block; a receiver of the same option, on a machine that can read the message, reads just
/// that.
pub proof fn law_block_message_is_understood(
    machine: ByteOrder,
    sender: SenderState,
    template: Message,
    receiver: ReceiverState,
    n: u32,
)
    requires
        made_from(sender, template),
        is_template(template, sender.option, machine),
        nameable(sender),
        receiver.option == sender.option,
        n < blocks_of(sender.body, sender.szx),
    ensures
        sender.total() == blocks_of(sender.body, sender.szx),
        sender.block(n) == Some(option_of(sender.body, sender.szx, n)),
        ({
            let message = sender.block_message(n, sender.block(n)->0);
            &&& message.readable(machine)
            &&& receiver.receive(message.as_sent()) == delivered(
                receiver,
                sender.body,
                sender.szx,
                Some(sender.body.len() as u32),
                n,
            )
        }),
{
    let szx = sender.szx;
    let body = sender.body;
    let option = sender.option;
    let size_option = spec_size_option(option);
    let len = body.len();
    lemma_small_sizes(szx);
    lemma_size_exponent(szx);
    lemma_block_count(len, block_len(szx));
    let block = option_of(body, szx, n);
    law_block_round_trip(block);
    law_uint_round_trip(len);
    lemma_uint_width(len);
    let message = sender.block_message(n, sender.block(n)->0);
    assert(sender.block(n) == Some(block));
    assert(message.values(option) =~= seq![block_bytes(block)]);
    assert(message.values(size_option) =~= seq![uint_bytes(len)]);
    if machine is Big {
        lemma_short_message(sender, template, n);
    }
    let sent = message.as_sent();
    assert(sent.values(option) == message.values(option));
    assert(sent.values(size_option) == message.values(size_option));
    assert(sent.first_block(option) == Some(block));
    assert(sent.first_u32(size_option) == Some(len as u32));
    assert(sent.payload == block_of(body, block_len(szx), n as nat));
}

/// Whether `pdus` are what the sender makes of the blocks of `order`, one by one.
pub open spec fn sent_as(sender: SenderState, order: Seq<u32>, pdus: Seq<Seq<u8>>) -> bool {
    &&& pdus.len() == order.len()
    &&& forall|i: int| 0 <= i < pdus.len() ==> sender.reads_back(order[i], #[trigger] pdus[i])
}

/// What a receiver on a machine makes of bytes from the wire.
pub open spec fn read(machine: ByteOrder, receiver: ReceiverState, bytes: Seq<u8>) -> (
    ReceiverState,
    Result<Outcome, QBlockError>,
) {
    receiver.receive(wire_decoding(bytes, machine)->0)
}

/// The receiver after it has read one message after the other.
pub open spec fn fed(
    machine: ByteOrder,
    receiver: ReceiverState,
    pdus: Seq<Seq<u8>>,
) -> ReceiverState
    decreases pdus.len(),
{
    if pdus.len() == 0 {
        receiver
    } else {
        read(machine, fed(machine, receiver, pdus.drop_last()), pdus.last()).0
    }
}

pub(crate) proof fn lemma_fed(
    machine: ByteOrder,
    sender: SenderState,
    template: Message,
    receiver: ReceiverState,
    order: Seq<u32>,
    pdus: Seq<Seq<u8>>,
)
    requires
        made_from(sender, template),
        is_template(template, sender.option, machine),
        nameable(sender),
        receiver.option == sender.option,
        forall|i: int|
            0 <= i < order.len() ==> (#[trigger] order[i]) < blocks_of(sender.body, sender.szx),
        sent_as(sender, order, pdus),
    ensures
        fed(machine, receiver, pdus).option == receiver.option,
        fed(machine, receiver, pdus) == after(
            receiver,
            sender.body,
            sender.szx,
            Some(sender.body.len() as u32),
            order,
        ),
    decreases order.len(),
{
    if order.len() > 0 {
        let front = order.drop_last();
        let early = pdus.drop_last();
        let n = order.last();
        assert(order[order.len() - 1] == n);
        assert forall|i: int| 0 <= i < front.len() implies (#[trigger] front[i]) < blocks_of(
            sender.body,
            sender.szx,
        ) by {
            assert(front[i] == order[i]);
        }
        assert forall|i: int| 0 <= i < early.len() implies sender.reads_back(
            front[i],
            #[trigger] early[i],
        ) by {
            assert(early[i] == pdus[i]);
        }
        lemma_fed(machine, sender, template, receiver, front, early);
        let now = fed(machine, receiver, early);
        law_block_message_is_understood(machine, sender, template, now, n);
        assert(sender.reads_back(order[order.len() - 1], pdus[pdus.len() - 1]));
        assert(pdus[pdus.len() - 1] == pdus.last());
    }
}

/// A body arrives as it was sent: a receiver that reads the messages of all the blocks in the
/// order in which bursts send them accepts each, and the last one completes the body.
pub proof fn law_lossless_transfer(
    machine: ByteOrder,
    sender: SenderState,
    template: Message,
    receiver: ReceiverState,
    pdus: Seq<Seq<u8>>,
)
    requires
        made_from(sender, template),
        is_template(template, sender.option, machine),
        nameable(sender),
        receiver.option == sender.option,
        fits(receiver, sender.body, sender.szx),
        receiver.received == BlockSet::empty(),
        receiver.body.len() == 0,
        receiver.szx is None,
        receiver.final_len is None,
        sent_as(sender, counting(blocks_of(sender.body, sender.szx)), pdus),
    ensures
        forall|i: int|
            0 <= i < pdus.len() ==> read(
                machine,
                fed(machine, receiver, pdus.take(i)),
                #[trigger] pdus[i],
            ).1 == Ok::<Outcome, QBlockError>(
                if i + 1 < pdus.len() {
                    Outcome::Accepted
                } else {
                    Outcome::Complete(sender.body)
                },
            ),
        pdus.len() > 0,
{
    let count = blocks_of(sender.body, sender.szx);
    let size = Some(sender.body.len() as u32);
    lemma_small_sizes(sender.szx);
    lemma_block_count(sender.body.len(), block_len(sender.szx));
    assert forall|i: int| 0 <= i < pdus.len() implies read(
        machine,
        fed(machine, receiver, pdus.take(i)),
        #[trigger] pdus[i],
    ).1 == Ok::<Outcome, QBlockError>(
        if i + 1 < pdus.len() {
            Outcome::Accepted
        } else {
            Outcome::Complete(sender.body)
        },
    ) by {
        let early = pdus.take(i);
        assert forall|k: int| 0 <= k < early.len() implies sender.reads_back(
            counting(i as nat)[k],
            #[trigger] early[k],
        ) by {
            assert(early[k] == pdus[k]);
            assert(counting(i as nat)[k] == counting(count)[k]);
        }
        lemma_fed(machine, sender, template, receiver, counting(i as nat), early);
        let now = fed(machine, receiver, early);
        law_block_message_is_understood(machine, sender, template, now, i as u32);
        assert(sender.reads_back(counting(count)[i], pdus[i]));
        law_in_order_reassembles_the_body(receiver, sender.body, sender.szx, size, i as nat);
    }
}

/// What is lost is recovered: a receiver that lacks at most as many blocks as it can ask for at
/// once, and as can be queued apart, asks for exactly those; a sender that is done queues exactly
/// those and sends them in one burst; and the receiver reads the last of them as the whole body.
pub proof fn law_lossy_transfer_recovers(
    machine: ByteOrder,
    sender: SenderState,
    template: Message,
    receiver: ReceiverState,
    limit: nat,
)
    requires
        made_from(sender, template),
        is_template(template, sender.option, machine),
        nameable(sender),
        sender.started,
        sender.idle(),
        sendable(sender, 0, sender.total() as nat),
        receiver.option == sender.option,
        holds_part(receiver, sender.body, sender.szx),
        !holds_all(receiver, sender.body, sender.szx),
        receiver.szx == Some(sender.szx),
        receiver.received.total is Some || receiver.total_len == Some(sender.body.len() as u32),
        gaps(receiver, sender.body, sender.szx).len() <= RBLOCK_CNT,
        gaps(receiver, sender.body, sender.szx).len() <= receiver.config.max_payloads,
        gaps(receiver, sender.body, sender.szx).len() <= limit,
    ensures
        ({
            let lost = gaps(receiver, sender.body, sender.szx);
            let refilled = sender.refilled(lost);
            let burst = refilled.burst(limit);
            &&& receiver.wanted() == Some(lost)
            &&& burst.ok
            &&& burst.blocks == lost
            &&& burst.state.idle()
            &&& sent_as(sender, burst.blocks, burst.pdus) ==> burst.pdus.len() > 0 && read(
                machine,
                fed(machine, receiver, burst.pdus.drop_last()),
                burst.pdus.last(),
            ).1 == Ok::<Outcome, QBlockError>(Outcome::Complete(sender.body))
        }),
{
    let body = sender.body;
    let szx = sender.szx;
    let size = Some(body.len() as u32);
    let count = blocks_of(body, szx);
    let lost = gaps(receiver, body, szx);
    let refilled = sender.refilled(lost);
    let burst = refilled.burst(limit);
    lemma_small_sizes(szx);
    lemma_block_count(body.len(), block_len(szx));
    law_block_message_is_understood(machine, sender, template, receiver, 0);
    law_incomplete_transfer_asks_for_its_gaps(receiver, body, szx);
    law_missing_names_the_gaps(receiver.received.blocks, count);
    law_refill_queues_the_request(sender.outstanding, lost, sender.total());
    assert forall|i: int| 0 <= i < lost.len() implies (#[trigger] lost[i]) < count by {
        assert(lost.contains(lost[i]));
    }
    assert(refilled.outstanding.blocks =~= listed(lost));
    assert forall|i: int| 0 <= i < lost.len() implies (#[trigger] refilled.pdu(lost[i])) is Some by {
        assert(sender.pdu(lost[i]) is Some);
    }
    law_burst_sends_all_in_order(refilled, lost, limit);
    if sent_as(sender, burst.blocks, burst.pdus) {
        let front = lost.drop_last();
        let early = burst.pdus.drop_last();
        let n = lost.last();
        assert(lost[lost.len() - 1] == n);
        assert forall|i: int| 0 <= i < early.len() implies sender.reads_back(
            front[i],
            #[trigger] early[i],
        ) by {
            assert(early[i] == burst.pdus[i]);
            assert(front[i] == lost[i]);
        }
        assert forall|i: int| 0 <= i < front.len() implies (#[trigger] front[i]) < count by {
            assert(front[i] == lost[i]);
        }
        lemma_fed(machine, sender, template, receiver, front, early);
        let now = fed(machine, receiver, early);
        law_block_message_is_understood(machine, sender, template, now, n);
        assert(sender.reads_back(burst.blocks[lost.len() - 1], burst.pdus[lost.len() - 1]));
        law_gaps_complete_the_body(receiver, body, szx, size);
    }
}

} // verus!
