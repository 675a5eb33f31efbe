//! Laws of the calls that read reports and tags, and of the registry that they keep apart.
use crate::config::QBlockConfig;
use crate::config::QBlockError;
use crate::laws::registry::routed_all;
use crate::laws::server::law_report_names_its_request;
use crate::missing_blocks::decode;
use crate::missing_blocks::InvalidMissingBlocks;
use crate::packet::decode_block;
use crate::packet::packet_contents;
use crate::packet::Message;
use crate::receiver::BlockOutcome;
use crate::receiver::QBlockReceiver;
use crate::receiver::ReceiverState;
use crate::receiver::RecoveryOutcome;
use crate::receivers::QBlockReceivers;
use crate::receivers::RegistryState;
use crate::reports::block_numbers;
use crate::reports::parse_missing_request;
use crate::reports::report_template;
use crate::reports::request_tag_of;
use crate::reports::spec_request_tag;
use crate::time::nanos;
use coap_lite::Packet;
use std::time::Duration;
use vstd::arithmetic::power2::pow2;
use vstd::prelude::*;

verus! {

/// The tag of a request body is the first Request-Tag of a message, and empty where there is none.
pub proof fn law_tag_is_the_first_request_tag(packet: &Packet, tag: Vec<u8>)
    requires
        call_ensures(request_tag_of, (packet,), tag),
    ensures
        ({
            let tags = packet_contents(*packet).values(292);
            &&& tags.len() > 0 ==> tag@ == tags[0]
            &&& tags.len() == 0 ==> tag@.len() == 0
        }),
{
}

/// Whether a message belongs to the request body with a tag.
pub open spec fn tagged(message: Message, tag: Seq<u8>) -> bool {
    let tags = message.values(292);
    if tags.len() > 0 {
        tag == tags[0]
    } else {
        tag.len() == 0
    }
}

pub(crate) proof fn lemma_tagged(message: Message, tag: Seq<u8>)
    ensures
        tagged(message, tag) <==> spec_request_tag(message) == tag,
{
    if message.values(292).len() == 0 && tag.len() == 0 {
        assert(tag =~= Seq::<u8>::empty());
    }
}

/// A packet for reports on a request body is a non-confirmable message of version 1 with the token
/// and the tag of the body, and with nothing else. An empty tag is left out.
pub proof fn law_reports_start_from_token_and_tag(token: Vec<u8>, tag: &[u8], packet: Packet)
    requires
        call_ensures(report_template, (token, tag), packet),
        token@.len() < 16,
    ensures
        call_requires(report_template, (token, tag)),
        ({
            let message = packet_contents(packet);
            &&& message.token == token@
            &&& message.first / 16 == 5
            &&& message.first % 16 == token@.len()
            &&& tagged(message, tag@)
            &&& message.values(292).len() <= 1
            &&& message.payload.len() == 0
            &&& forall|number: u16| number != 292 ==> (#[trigger] message.values(number)).len() == 0
        }),
{
    lemma_tagged(packet_contents(packet), tag@);
}

proof fn lemma_block_numbers(values: Seq<Seq<u8>>)
    ensures
        forall|n: u32| #[trigger]
            block_numbers(values).contains(n) <==> exists|i: int|
                0 <= i < values.len() && decode_block(#[trigger] values[i]) is Some
                    && decode_block(values[i])->0.num == n,
        (forall|i: int| 0 <= i < values.len() ==> decode_block(#[trigger] values[i]) is Some)
            ==> block_numbers(values).len() == values.len() && forall|i: int|
            0 <= i < values.len() ==> block_numbers(values)[i] == decode_block(
                #[trigger] values[i],
            )->0.num,
    decreases values.len(),
{
    if values.len() > 0 {
        let front = values.drop_last();
        let last = values.last();
        lemma_block_numbers(front);
        let before = block_numbers(front);
        let all = block_numbers(values);
        assert(forall|i: int| 0 <= i < front.len() ==> #[trigger] values[i] == front[i]);
        assert(values[values.len() - 1] == last);
        assert forall|n: u32| #[trigger] all.contains(n) <==> exists|i: int|
            0 <= i < values.len() && decode_block(#[trigger] values[i]) is Some && decode_block(
                values[i],
            )->0.num == n by {
            if all.contains(n) {
                let k = choose|k: int| 0 <= k < all.len() && all[k] == n;
                if k < before.len() {
                    assert(before[k] == n);
                    assert(before.contains(n));
                    let i = choose|i: int|
                        0 <= i < front.len() && decode_block(#[trigger] front[i]) is Some
                            && decode_block(front[i])->0.num == n;
                    assert(values[i] == front[i]);
                } else {
                    assert(decode_block(values[values.len() - 1])->0.num == n);
                }
            }
            if exists|i: int|
                0 <= i < values.len() && decode_block(#[trigger] values[i]) is Some && decode_block(
                    values[i],
                )->0.num == n {
                let i = choose|i: int|
                    0 <= i < values.len() && decode_block(#[trigger] values[i]) is Some
                        && decode_block(values[i])->0.num == n;
                if i < front.len() {
                    assert(front[i] == values[i]);
                    assert(before.contains(n));
                    let k = choose|k: int| 0 <= k < before.len() && before[k] == n;
                    assert(all[k] == n);
                } else {
                    assert(all.last() == n);
                    assert(all[all.len() - 1] == n);
                }
            }
        }
        if forall|i: int| 0 <= i < values.len() ==> decode_block(#[trigger] values[i]) is Some {
            assert forall|i: int| 0 <= i < front.len() implies decode_block(
                #[trigger] front[i],
            ) is Some by {
                assert(front[i] == values[i]);
            }
            assert(decode_block(values[values.len() - 1]) is Some);
            assert forall|i: int| 0 <= i < values.len() implies all[i] == decode_block(
                #[trigger] values[i],
            )->0.num by {
                if i < front.len() {
                    assert(front[i] == values[i]);
                }
            }
        }
    }
}

/// A request for blocks of a response body asks for the blocks that its Q-Block2 options name, in
/// their order, and for no others. Options that name no block count for nothing.
pub proof fn law_options_ask_for_the_blocks_they_name(packet: &Packet, blocks: Vec<u32>)
    requires
        call_ensures(parse_missing_request, (packet, 31), blocks),
    ensures
        ({
            let values = packet_contents(*packet).values(31);
            &&& forall|n: u32| #[trigger]
                blocks@.contains(n) <==> exists|i: int|
                    0 <= i < values.len() && decode_block(#[trigger] values[i]) is Some
                        && decode_block(values[i])->0.num == n
            &&& (forall|i: int|
                0 <= i < values.len() ==> decode_block(#[trigger] values[i]) is Some)
                ==> blocks@.len() == values.len() && forall|i: int|
                0 <= i < values.len() ==> blocks@[i] == decode_block(#[trigger] values[i])->0.num
        }),
{
    lemma_block_numbers(packet_contents(*packet).values(31));
}

/// A report on a request body asks for the blocks that its payload lists, and for none if the
/// payload is no such list. With any other option nothing is asked for.
pub proof fn law_payload_asks_for_the_blocks_it_lists(
    packet: &Packet,
    option: u16,
    blocks: Vec<u32>,
    payload: &[u8],
    list: Result<Vec<u32>, InvalidMissingBlocks>,
)
    requires
        call_ensures(parse_missing_request, (packet, option), blocks),
        call_ensures(decode, (payload,), list),
        payload@ == packet_contents(*packet).payload,
    ensures
        option == 19 && list is Ok ==> blocks@ == list->Ok_0@,
        option == 19 && list is Err ==> blocks@.len() == 0,
        option != 19 && option != 31 ==> blocks@.len() == 0,
{
}

/// Whether two maps agree on every key but one.
pub open spec fn alike_but<V>(
    before: Map<Seq<u8>, V>,
    after: Map<Seq<u8>, V>,
    key: Seq<u8>,
) -> bool {
    forall|other: Seq<u8>|
        other != key ==> #[trigger] after.dom().contains(other) == before.dom().contains(other) && (
        before.dom().contains(other) ==> after[other] == before[other])
}

/// Whether a receiver of a request body answers the request with a token and a tag: its reports
/// start from both.
pub open spec fn answers(state: ReceiverState, token: Seq<u8>, tag: Seq<u8>) -> bool {
    &&& state.option == 19
    &&& state.template.token == token
    &&& tagged(state.template, tag)
}

/// A message without a Q-Block1 option is none of the registry's business, and changes nothing.
pub proof fn law_registry_takes_request_blocks_only(
    registry: &mut QBlockReceivers,
    pdu: &Packet,
    routed: Result<Option<(Vec<u8>, BlockOutcome)>, QBlockError>,
)
    requires
        old(registry).wf(),
        call_ensures(QBlockReceivers::accept, (registry, pdu), routed),
    ensures
        (routed matches Ok(None)) <==> !packet_contents(*pdu).has(19),
        !packet_contents(*pdu).has(19) ==> final(registry)@ == old(registry)@,
        final(registry)@.max_body_len == old(registry)@.max_body_len,
        final(registry)@.config == old(registry)@.config,
{
}

/// A block goes to the receiver of its tag, and what that makes of it is the outcome. Where there
/// is none yet, it goes to a new receiver with the limits of the registry, whose reports answer the
/// message. The receiver is kept, unless the body is complete; receivers of other tags do not
/// change.
pub proof fn law_registry_feeds_the_receiver_of_the_tag(
    registry: &mut QBlockReceivers,
    pdu: &Packet,
    routed: Result<Option<(Vec<u8>, BlockOutcome)>, QBlockError>,
    tag: Seq<u8>,
    token: Vec<u8>,
    tag_bytes: &[u8],
    template: Packet,
    receiver: &mut QBlockReceiver,
    outcome: Result<BlockOutcome, QBlockError>,
)
    requires
        old(registry).wf(),
        old(receiver).wf(),
        call_ensures(QBlockReceivers::accept, (registry, pdu), routed),
        call_ensures(QBlockReceiver::accept, (receiver, pdu), outcome),
        packet_contents(*pdu).has(19),
        tagged(packet_contents(*pdu), tag),
        token@ == packet_contents(*pdu).token,
        tag_bytes@ == tag,
        call_ensures(report_template, (token, tag_bytes), template),
        old(registry)@.transfers.dom().contains(tag) ==> old(receiver)@
            == old(registry)@.transfers[tag],
        !old(registry)@.transfers.dom().contains(tag) ==> call_ensures(
            QBlockReceiver::new,
            (19, template, old(registry)@.max_body_len, old(registry)@.config),
            *old(receiver),
        ),
    ensures
        match (routed, outcome) {
            (Ok(Some((named, a))), Ok(b)) => named@ == tag && a@ == b@,
            (Err(e), Err(f)) => e == f,
            _ => false,
        },
        outcome is Ok && outcome->Ok_0 is Complete ==> !final(registry)@.transfers.dom().contains(
            tag,
        ),
        !(outcome is Ok && outcome->Ok_0 is Complete) ==> final(registry)@.transfers.dom().contains(
            tag,
        ) && final(registry)@.transfers[tag] == final(receiver)@,
        alike_but(old(registry)@.transfers, final(registry)@.transfers, tag),
{
    lemma_tagged(packet_contents(*pdu), tag);
}

/// A transfer answers the message that opened it: its reports have the token of that message and
/// its tag. It has the limits of the registry.
pub proof fn law_opened_transfer_answers_its_request(
    registry: &mut QBlockReceivers,
    pdu: &Packet,
    routed: Result<Option<(Vec<u8>, BlockOutcome)>, QBlockError>,
    tag: Seq<u8>,
)
    requires
        old(registry).wf(),
        call_ensures(QBlockReceivers::accept, (registry, pdu), routed),
        tagged(packet_contents(*pdu), tag),
        !old(registry)@.transfers.dom().contains(tag),
        final(registry)@.transfers.dom().contains(tag),
    ensures
        answers(final(registry)@.transfers[tag], packet_contents(*pdu).token, tag),
        final(registry)@.transfers[tag].max_body_len == old(registry)@.max_body_len,
        final(registry)@.transfers[tag].config == old(registry)@.config,
{
    lemma_tagged(packet_contents(*pdu), tag);
    lemma_tagged(final(registry)@.transfers[tag].template, tag);
    law_report_names_its_request(packet_contents(*pdu).token, tag);
}

/// A transfer answers the same request for as long as it lasts, whatever message comes in.
pub proof fn law_transfers_answer_the_same_request(
    registry: &mut QBlockReceivers,
    pdu: &Packet,
    routed: Result<Option<(Vec<u8>, BlockOutcome)>, QBlockError>,
    token: Seq<u8>,
    tag: Seq<u8>,
)
    requires
        old(registry).wf(),
        call_ensures(QBlockReceivers::accept, (registry, pdu), routed),
        old(registry)@.transfers.dom().contains(tag),
        answers(old(registry)@.transfers[tag], token, tag),
        final(registry)@.transfers.dom().contains(tag),
    ensures
        answers(final(registry)@.transfers[tag], token, tag),
{
}

/// Polling a transfer is polling its receiver, and leaves it answering the same request; each
/// report that it yields is a 4.08 with the token and the tag of that request.
pub proof fn law_every_report_answers_the_request(
    registry: &mut QBlockReceivers,
    tag: &[u8],
    since_activity: Duration,
    outcome: Option<RecoveryOutcome>,
    token: Seq<u8>,
)
    requires
        old(registry).wf(),
        call_ensures(QBlockReceivers::poll_recovery, (registry, tag, since_activity), outcome),
        old(registry)@.transfers.dom().contains(tag@),
        answers(old(registry)@.transfers[tag@], token, tag@),
    ensures
        final(registry)@.transfers.dom().contains(tag@) ==> answers(
            final(registry)@.transfers[tag@],
            token,
            tag@,
        ),
        outcome matches Some(RecoveryOutcome::Resend(packet)) ==> {
            let message = packet_contents(packet);
            &&& message.token == token
            &&& tagged(message, tag@)
            &&& message.code == 0x88
            &&& message.first == old(registry)@.transfers[tag@].template.first
        },
{
    if let Some(RecoveryOutcome::Resend(packet)) = outcome {
        let message = packet_contents(packet);
        let state = old(registry)@.transfers[tag@];
        assert(message.values(292) == state.template.values(292));
    }
}

/// The registry polls the receiver of the tag, and what that says is what it says. An expired
/// transfer is gone, and any other is kept as its receiver is after the poll. Other transfers do
/// not change, and nothing does where no transfer has the tag.
pub proof fn law_registry_polls_the_receiver_of_the_tag(
    registry: &mut QBlockReceivers,
    tag: &[u8],
    since_activity: Duration,
    outcome: Option<RecoveryOutcome>,
    receiver: &mut QBlockReceiver,
    polled: RecoveryOutcome,
)
    requires
        old(registry).wf(),
        old(receiver).wf(),
        call_ensures(QBlockReceivers::poll_recovery, (registry, tag, since_activity), outcome),
        call_ensures(QBlockReceiver::poll_recovery, (receiver, since_activity), polled),
        old(registry)@.transfers.dom().contains(tag@) ==> old(receiver)@
            == old(registry)@.transfers[tag@],
    ensures
        outcome is None <==> !old(registry)@.transfers.dom().contains(tag@),
        outcome is None ==> final(registry)@ == old(registry)@,
        outcome matches Some(o) ==> match (o, polled) {
            (RecoveryOutcome::Wait(a), RecoveryOutcome::Wait(b)) => nanos(a) == nanos(b),
            (RecoveryOutcome::Resend(a), RecoveryOutcome::Resend(b)) => packet_contents(a)
                == packet_contents(b),
            (RecoveryOutcome::Expired, RecoveryOutcome::Expired) => true,
            _ => false,
        },
        outcome matches Some(o) ==> {
            &&& o is Expired <==> !final(registry)@.transfers.dom().contains(tag@)
            &&& !(o is Expired) ==> final(registry)@.transfers[tag@] == final(receiver)@
            &&& alike_but(old(registry)@.transfers, final(registry)@.transfers, tag@)
            &&& final(registry)@.max_body_len == old(registry)@.max_body_len
            &&& final(registry)@.config == old(registry)@.config
        },
{
}

/// In every state that follows the message that opened a transfer, while the transfer lasts, it
/// answers that message.
pub proof fn law_transfer_answers_the_message_that_opened_it(
    registry: RegistryState,
    opening: Message,
    messages: Seq<Message>,
    tag: Seq<u8>,
)
    requires
        opening.has(19),
        tagged(opening, tag),
        !registry.transfers.dom().contains(tag),
        forall|i: int|
            0 <= i <= messages.len() ==> routed_all(
                registry.routed(opening),
                #[trigger] messages.take(i),
            ).transfers.dom().contains(tag),
    ensures
        answers(
            routed_all(registry.routed(opening), messages).transfers[tag],
            opening.token,
            tag,
        ),
    decreases messages.len(),
{
    let opened = registry.routed(opening);
    lemma_tagged(opening, tag);
    assert(messages.take(messages.len() as int) =~= messages);
    if messages.len() == 0 {
        assert(messages =~= Seq::<Message>::empty());
        law_report_names_its_request(opening.token, tag);
        lemma_tagged(opened.transfers[tag].template, tag);
    } else {
        let front = messages.drop_last();
        assert forall|i: int| 0 <= i <= front.len() implies routed_all(
            opened,
            #[trigger] front.take(i),
        ).transfers.dom().contains(tag) by {
            assert(front.take(i) =~= messages.take(i));
        }
        law_transfer_answers_the_message_that_opened_it(registry, opening, front, tag);
        assert(front.take(front.len() as int) =~= front);
        let before = routed_all(opened, front);
        assert(before.transfers.dom().contains(tag));
    }
}

/// An empty registry holds no transfers, and counts them.
pub proof fn law_new_registry_is_empty(
    max_body_len: usize,
    config: QBlockConfig,
    registry: QBlockReceivers,
    len: usize,
    empty: bool,
)
    requires
        call_ensures(QBlockReceivers::new, (max_body_len, config), registry),
        call_ensures(QBlockReceivers::len, (&registry,), len),
        call_ensures(QBlockReceivers::is_empty, (&registry,), empty),
    ensures
        registry.wf(),
        forall|tag: Seq<u8>| !registry@.transfers.dom().contains(tag),
        len == 0,
        empty,
        registry@.max_body_len == max_body_len,
        registry@.config == config,
{
}

/// The registry is empty if and only if it counts no transfer; the count is that of the tags.
pub proof fn law_registry_counts_its_transfers(
    registry: &QBlockReceivers,
    len: usize,
    empty: bool,
    tag: &[u8],
    deadline: Option<Duration>,
)
    requires
        registry.wf(),
        call_ensures(QBlockReceivers::len, (registry,), len),
        call_ensures(QBlockReceivers::is_empty, (registry,), empty),
        call_ensures(QBlockReceivers::next_deadline, (registry, tag), deadline),
    ensures
        len == registry@.transfers.dom().len(),
        registry@.transfers.dom().finite(),
        empty <==> len == 0,
        empty <==> forall|other: Seq<u8>| !registry@.transfers.dom().contains(other),
        deadline is Some ==> registry@.transfers.dom().contains(tag@) && nanos(deadline->0)
            == nanos(registry@.transfers[tag@].config.non_receive_timeout) * pow2(
            registry@.transfers[tag@].retry as nat,
        ),
        registry@.transfers.dom().contains(tag@) && registry@.transfers[tag@].retry < 32 && nanos(
            registry@.transfers[tag@].config.non_receive_timeout,
        ) * pow2(registry@.transfers[tag@].retry as nat) <= u64::MAX * 1_000_000_000 + 999_999_999
            ==> deadline is Some,
{
    if empty {
        assert(registry@.transfers.dom() =~= Set::<Seq<u8>>::empty());
    }
    if len == 0 {
        registry@.transfers.dom().lemma_len0_is_empty();
    }
    if forall|other: Seq<u8>| !registry@.transfers.dom().contains(other) {
        assert(registry@.transfers.dom() =~= Set::<Seq<u8>>::empty());
    }
}

} // verus!
