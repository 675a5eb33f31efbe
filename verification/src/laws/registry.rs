//! Laws of the registry of request bodies: transfers do not meet.
use crate::body::lemma_small_sizes;
use crate::config::QBlockError;
use crate::laws::receiving::blocks_of;
use crate::laws::receiving::counting;
use crate::laws::transfer::fed;
use crate::laws::transfer::is_template;
use crate::laws::transfer::law_block_message_is_understood;
use crate::laws::transfer::law_lossless_transfer;
use crate::laws::transfer::made_from;
use crate::laws::transfer::nameable;
use crate::laws::transfer::read;
use crate::laws::transfer::sent_as;
use crate::packet::wire_decoding;
use crate::packet::ByteOrder;
use crate::packet::Message;
use crate::packet::Q_BLOCK1;
use crate::packet::REQUEST_TAG;
use crate::receiver::Outcome;
use crate::receiver::RecoveryOutcome;
use crate::receivers::RegistryState;
use crate::reports::spec_request_tag;
use crate::sender::SenderState;
use std::time::Duration;
use vstd::prelude::*;

verus! {

/// The registry after one message after the other.
pub open spec fn routed_all(registry: RegistryState, messages: Seq<Message>) -> RegistryState
    decreases messages.len(),
{
    if messages.len() == 0 {
        registry
    } else {
        routed_all(registry, messages.drop_last()).routed(messages.last())
    }
}

/// The messages of one transfer among `messages`.
pub open spec fn of_tag(messages: Seq<Message>, tag: Seq<u8>) -> Seq<Message>
    decreases messages.len(),
{
    if messages.len() == 0 {
        Seq::empty()
    } else {
        let before = of_tag(messages.drop_last(), tag);
        if spec_request_tag(messages.last()) == tag {
            before.push(messages.last())
        } else {
            before
        }
    }
}

/// Whether two registries agree on the transfer with a tag.
pub open spec fn agree_on(a: RegistryState, b: RegistryState, tag: Seq<u8>) -> bool {
    &&& a.transfers.dom().contains(tag) == b.transfers.dom().contains(tag)
    &&& a.transfers.dom().contains(tag) ==> a.transfers[tag] == b.transfers[tag]
    &&& a.max_body_len == b.max_body_len
    &&& a.config == b.config
}

/// A message changes no transfer but the one of its tag.
pub proof fn law_message_stays_in_its_transfer(
    registry: RegistryState,
    message: Message,
    tag: Seq<u8>,
)
    requires
        tag != spec_request_tag(message),
    ensures
        agree_on(registry, registry.routed(message), tag),
{
}

/// Transfers that run at the same time do not disturb each other: a transfer is where it would
/// be if only its own messages had come, and the next of them has the same outcome.
pub proof fn law_interleaved_transfers_are_independent(
    registry: RegistryState,
    messages: Seq<Message>,
    next: Message,
)
    ensures
        agree_on(
            routed_all(registry, messages),
            routed_all(registry, of_tag(messages, spec_request_tag(next))),
            spec_request_tag(next),
        ),
        routed_all(registry, messages).outcome(next) == routed_all(
            registry,
            of_tag(messages, spec_request_tag(next)),
        ).outcome(next),
    decreases messages.len(),
{
    let tag = spec_request_tag(next);
    if messages.len() > 0 {
        let front = messages.drop_last();
        let last = messages.last();
        law_interleaved_transfers_are_independent(registry, front, next);
        if spec_request_tag(last) == tag {
            let own = of_tag(front, tag).push(last);
            assert(own.drop_last() =~= of_tag(front, tag));
            assert(own.last() == last);
            law_interleaved_transfers_are_independent(registry, front, last);
        } else {
            law_message_stays_in_its_transfer(routed_all(registry, front), last, tag);
        }
    }
}

/// A transfer is in the registry while blocks of its body are missing, and gone once it is
/// complete; the tag can then be used anew.
pub proof fn law_completed_transfer_is_removed(registry: RegistryState, message: Message)
    requires
        message.has(Q_BLOCK1),
    ensures
        registry.routed(message).transfers.dom().contains(spec_request_tag(message)) == !(
        registry.outcome(message) matches Ok(outcome) && outcome is Complete),
{
}

/// Polling the recovery of a tag comes to nothing if and only if no transfer has the tag, and then
/// changes nothing. A transfer that has expired is gone: there is one less, and the next poll of
/// the tag comes to nothing. Otherwise there are as many transfers as before. No other transfer
/// changes.
pub proof fn law_polling_touches_one_transfer(
    before: RegistryState,
    tag: Seq<u8>,
    since_activity: Duration,
    after: RegistryState,
    outcome: Option<RecoveryOutcome>,
    next_since: Duration,
    later: RegistryState,
    next: Option<RecoveryOutcome>,
)
    requires
        before.transfers.dom().finite(),
        before.polled(tag, since_activity, after, outcome),
        after.polled(tag, next_since, later, next),
    ensures
        outcome is None <==> !before.transfers.dom().contains(tag),
        outcome is None ==> after == before,
        (outcome matches Some(o) && o is Expired) ==> after.transfers.dom().len() + 1
            == before.transfers.dom().len() && next is None,
        !(outcome matches Some(o) && o is Expired) ==> after.transfers.dom().len()
            == before.transfers.dom().len(),
        after.transfers.dom().finite(),
        forall|other: Seq<u8>| other != tag ==> #[trigger] agree_on(before, after, other),
{
    if before.transfers.dom().contains(tag) {
        let expired = outcome->0 is Expired;
        if expired {
            assert(after.transfers.dom() =~= before.transfers.dom().remove(tag));
        } else {
            assert(after.transfers.dom() =~= before.transfers.dom());
        }
    }
}

/// The messages that bytes read as on a machine.
pub open spec fn messages_of(machine: ByteOrder, pdus: Seq<Seq<u8>>) -> Seq<Message> {
    pdus.map_values(|bytes: Seq<u8>| wire_decoding(bytes, machine)->0)
}

/// Whether a body can be sent to a registry: as a request body, under a tag that is not in use.
pub open spec fn can_arrive(
    machine: ByteOrder,
    registry: RegistryState,
    sender: SenderState,
    template: Message,
    pdus: Seq<Seq<u8>>,
) -> bool {
    &&& made_from(sender, template)
    &&& sender.option == Q_BLOCK1
    &&& is_template(template, Q_BLOCK1, machine)
    &&& nameable(sender)
    &&& sender.body.len() <= registry.max_body_len
    &&& !registry.transfers.dom().contains(spec_request_tag(template))
    &&& sent_as(sender, counting(blocks_of(sender.body, sender.szx)), pdus)
}

proof fn lemma_block_carries_tag(
    machine: ByteOrder,
    registry: RegistryState,
    sender: SenderState,
    template: Message,
    pdus: Seq<Seq<u8>>,
    i: int,
)
    requires
        can_arrive(machine, registry, sender, template, pdus),
        0 <= i < pdus.len(),
    ensures
        messages_of(machine, pdus)[i] == wire_decoding(pdus[i], machine)->0,
        messages_of(machine, pdus)[i].has(Q_BLOCK1),
        spec_request_tag(messages_of(machine, pdus)[i]) == spec_request_tag(template),
        messages_of(machine, pdus)[i].token == template.token,
{
    let count = blocks_of(sender.body, sender.szx);
    let n = counting(count)[i];
    assert(n == i as u32);
    let some = registry.opened(template);
    law_block_message_is_understood(machine, sender, template, some, n);
    let message = sender.block_message(n, sender.block(n)->0);
    assert(sender.reads_back(counting(count)[i], pdus[i]));
    let sent = message.as_sent();
    assert(message.values(Q_BLOCK1).len() > 0);
    assert(message.values(REQUEST_TAG) =~= template.values(REQUEST_TAG));
    assert(sent.values(REQUEST_TAG) =~= message.values(REQUEST_TAG));
}

proof fn lemma_partly_arrived(
    machine: ByteOrder,
    registry: RegistryState,
    sender: SenderState,
    template: Message,
    pdus: Seq<Seq<u8>>,
    i: int,
)
    requires
        can_arrive(machine, registry, sender, template, pdus),
        0 <= i < pdus.len(),
    ensures
        ({
            let now = routed_all(registry, messages_of(machine, pdus).take(i));
            let next = messages_of(machine, pdus)[i];
            &&& now.receiver_for(next) == fed(machine, registry.opened(template), pdus.take(i))
            &&& now.max_body_len == registry.max_body_len
            &&& now.config == registry.config
        }),
    decreases i,
{
    let messages = messages_of(machine, pdus);
    let tag = spec_request_tag(template);
    let fresh = registry.opened(template);
    lemma_block_carries_tag(machine, registry, sender, template, pdus, i);
    if i == 0 {
        assert(messages.take(0) =~= Seq::<Message>::empty());
        assert(pdus.take(0) =~= Seq::<Seq<u8>>::empty());
        assert(registry.opened(messages[0]) == fresh);
    } else {
        lemma_partly_arrived(machine, registry, sender, template, pdus, i - 1);
        lemma_block_carries_tag(machine, registry, sender, template, pdus, i - 1);
        lemma_small_sizes(sender.szx);
        law_lossless_transfer(machine, sender, template, fresh, pdus);
        let before = routed_all(registry, messages.take(i - 1));
        let last = messages[i - 1];
        assert(messages.take(i).drop_last() =~= messages.take(i - 1));
        assert(messages.take(i).last() == last);
        assert(pdus.take(i).drop_last() =~= pdus.take(i - 1));
        assert(pdus.take(i).last() == pdus[i - 1]);
        assert(read(machine, fed(machine, fresh, pdus.take(i - 1)), pdus[i - 1]).1 == Ok::<
            Outcome,
            QBlockError,
        >(Outcome::Accepted));
    }
}

/// A request body arrives whole through the registry: each block before the last is accepted, the
/// last one hands the body out, and the transfer is gone.
pub proof fn law_tagged_transfer_arrives(
    machine: ByteOrder,
    registry: RegistryState,
    sender: SenderState,
    template: Message,
    pdus: Seq<Seq<u8>>,
)
    requires
        can_arrive(machine, registry, sender, template, pdus),
    ensures
        forall|i: int|
            0 <= i < pdus.len() ==> routed_all(
                registry,
                messages_of(machine, pdus).take(i),
            ).outcome(#[trigger] messages_of(machine, pdus)[i]) == Ok::<Outcome, QBlockError>(
                if i + 1 < pdus.len() {
                    Outcome::Accepted
                } else {
                    Outcome::Complete(sender.body)
                },
            ),
        pdus.len() > 0,
        !routed_all(registry, messages_of(machine, pdus)).transfers.dom().contains(
            spec_request_tag(template),
        ),
{
    let messages = messages_of(machine, pdus);
    let fresh = registry.opened(template);
    lemma_small_sizes(sender.szx);
    law_lossless_transfer(machine, sender, template, fresh, pdus);
    assert forall|i: int| 0 <= i < pdus.len() implies routed_all(
        registry,
        messages_of(machine, pdus).take(i),
    ).outcome(#[trigger] messages_of(machine, pdus)[i]) == Ok::<Outcome, QBlockError>(
        if i + 1 < pdus.len() {
            Outcome::Accepted
        } else {
            Outcome::Complete(sender.body)
        },
    ) by {
        lemma_partly_arrived(machine, registry, sender, template, pdus, i);
        lemma_block_carries_tag(machine, registry, sender, template, pdus, i);
        assert(read(machine, fed(machine, fresh, pdus.take(i)), pdus[i]).1 == Ok::<
            Outcome,
            QBlockError,
        >(
            if i + 1 < pdus.len() {
                Outcome::Accepted
            } else {
                Outcome::Complete(sender.body)
            },
        ));
    }
    let last = pdus.len() - 1;
    lemma_block_carries_tag(machine, registry, sender, template, pdus, last);
    assert(messages.take(last) =~= messages.drop_last());
    assert(messages.last() == messages[last]);
    assert(routed_all(registry, messages.take(last)).outcome(messages[last]) == Ok::<
        Outcome,
        QBlockError,
    >(Outcome::Complete(sender.body)));
}

} // verus!
