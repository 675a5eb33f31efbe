//! The request bodies that a server is receiving, told apart by their Request-Tags.
use crate::config::QBlockConfig;
use crate::config::QBlockError;
use crate::packet::get_option;
use crate::packet::get_token;
use crate::packet::packet_contents;
use crate::packet::Message;
use crate::packet::Q_BLOCK1;
use crate::range_set::BlockSet;
use crate::receiver::BlockOutcome;
use crate::receiver::Outcome;
use crate::receiver::QBlockReceiver;
use crate::receiver::ReceiverState;
use crate::receiver::RecoveryOutcome;
use crate::reports::report_template;
use crate::reports::request_tag_of;
use crate::reports::spec_report_template;
use crate::reports::spec_request_tag;
use crate::table::Table;
use crate::time::nanos;
use coap_lite::Packet;
use std::time::Duration;
use vstd::prelude::*;

verus! {

/// What a [`QBlockReceivers`] holds: a receiver for each tag.
#[verifier::ext_equal]
pub struct RegistryState {
    pub transfers: Map<Seq<u8>, ReceiverState>,
    pub max_body_len: usize,
    pub config: QBlockConfig,
}

impl RegistryState {
    /// The receiver that the first block of a body opens.
    pub open spec fn opened(self, message: Message) -> ReceiverState {
        ReceiverState {
            option: Q_BLOCK1,
            received: BlockSet::empty(),
            body: Seq::empty(),
            final_len: None,
            total_len: None,
            szx: None,
            retry: 0,
            template: spec_report_template(message.token, spec_request_tag(message)),
            max_body_len: self.max_body_len,
            config: self.config,
        }
    }

    /// The receiver that a message goes to.
    pub open spec fn receiver_for(self, message: Message) -> ReceiverState {
        let tag = spec_request_tag(message);
        if self.transfers.dom().contains(tag) {
            self.transfers[tag]
        } else {
            self.opened(message)
        }
    }

    /// What the receiver that a message goes to makes of it.
    pub open spec fn outcome(self, message: Message) -> Result<Outcome, QBlockError> {
        self.receiver_for(message).receive(message).1
    }

    /// The registry after a message. A completed transfer is gone.
    pub open spec fn routed(self, message: Message) -> RegistryState {
        let tag = spec_request_tag(message);
        if !message.has(Q_BLOCK1) {
            self
        } else if self.outcome(message) matches Ok(outcome) && outcome is Complete {
            RegistryState { transfers: self.transfers.remove(tag), ..self }
        } else {
            RegistryState {
                transfers: self.transfers.insert(
                    tag,
                    self.receiver_for(message).receive(message).0,
                ),
                ..self
            }
        }
    }
}

impl RegistryState {
    /// What polling the recovery of the transfer with a tag comes to. An expired transfer is gone.
    pub open spec fn polled(
        self,
        tag: Seq<u8>,
        since_activity: Duration,
        after: RegistryState,
        outcome: Option<RecoveryOutcome>,
    ) -> bool {
        if !self.transfers.dom().contains(tag) {
            outcome is None && after == self
        } else {
            let state = self.transfers[tag];
            &&& outcome matches Some(o)
            &&& state.polled(since_activity, o)
            &&& after == (RegistryState {
                transfers: if o is Expired {
                    self.transfers.remove(tag)
                } else {
                    self.transfers.insert(tag, state.after_poll(o))
                },
                ..self
            })
        }
    }
}

/// Routes the blocks of several request bodies, each to the receiver for its Request-Tag.
pub struct QBlockReceivers {
    by_rtag: Table<QBlockReceiver>,
    max_body_len: usize,
    config: QBlockConfig,
}

impl View for QBlockReceivers {
    type V = RegistryState;

    closed spec fn view(&self) -> RegistryState {
        RegistryState {
            transfers: self.by_rtag@.map_values(|receiver: QBlockReceiver| receiver@),
            max_body_len: self.max_body_len,
            config: self.config,
        }
    }
}

impl QBlockReceivers {
    pub closed spec fn wf(&self) -> bool {
        &&& self.by_rtag.wf()
        &&& forall|tag: Seq<u8>| #[trigger]
            self.by_rtag@.dom().contains(tag) ==> self.by_rtag@[tag].wf()
    }

    /// There are finitely many transfers, and each keeps within its limits.
    pub proof fn lemma_inv(&self)
        requires
            self.wf(),
        ensures
            self@.transfers.dom().finite(),
            forall|tag: Seq<u8>| #[trigger]
                self@.transfers.dom().contains(tag) ==> self@.transfers[tag].inv(),
    {
        self.by_rtag.lemma_finite();
        assert(self@.transfers.dom() =~= self.by_rtag@.dom());
        assert forall|tag: Seq<u8>| #[trigger]
            self@.transfers.dom().contains(tag) implies self@.transfers[tag].inv() by {
            assert(self.by_rtag@.dom().contains(tag));
            self.by_rtag@[tag].lemma_inv();
        }
    }

    /// An empty registry. `max_body_len` and `config` are those of every transfer.
    pub fn new(max_body_len: usize, config: QBlockConfig) -> (receivers: QBlockReceivers)
        ensures
            receivers.wf(),
            receivers@ == (RegistryState { transfers: Map::empty(), max_body_len, config }),
    {
        let receivers = QBlockReceivers { by_rtag: Table::new(), max_body_len, config };
        assert(receivers@.transfers =~= Map::<Seq<u8>, ReceiverState>::empty());
        receivers
    }

    /// Routes one message. There is no answer to a message without a Q-Block1 option; otherwise
    /// it is the tag of the transfer and what became of the block. A completed transfer is
    /// removed.
    pub fn accept(&mut self, pdu: &Packet) -> (routed: Result<
        Option<(Vec<u8>, BlockOutcome)>,
        QBlockError,
    >)
        requires
            old(self).wf(),
        ensures
            final(self).wf(),
            final(self)@ == old(self)@.routed(packet_contents(*pdu)),
            ({
                let message = packet_contents(*pdu);
                if !message.has(Q_BLOCK1) {
                    routed matches Ok(None)
                } else {
                    match old(self)@.outcome(message) {
                        Ok(stated) => {
                            &&& routed matches Ok(Some((tag, outcome)))
                            &&& tag@ == spec_request_tag(message)
                            &&& outcome@ == stated
                        },
                        Err(e) => routed matches Err(f) && f == e,
                    }
                }
            }),
    {
        if get_option(pdu, Q_BLOCK1).is_none() {
            return Ok(None);
        }
        let rtag = request_tag_of(pdu);
        let ghost message = packet_contents(*pdu);
        let ghost before = self@;
        let mut receiver = match self.by_rtag.remove(rtag.as_slice()) {
            Some(receiver) => receiver,
            None => {
                let template = report_template(get_token(pdu), rtag.as_slice());
                QBlockReceiver::new(Q_BLOCK1, template, self.max_body_len, self.config)
            },
        };
        assert(receiver@ == before.receiver_for(message));
        assert(self@.transfers =~= before.transfers.remove(rtag@));
        match receiver.accept(pdu) {
            Ok(outcome) => {
                let complete = match &outcome {
                    BlockOutcome::Complete(_) => true,
                    _ => false,
                };
                if !complete {
                    self.keep(rtag.as_slice(), receiver);
                    assert(self@.transfers =~= before.routed(message).transfers);
                }
                Ok(Some((rtag, outcome)))
            },
            Err(e) => {
                self.keep(rtag.as_slice(), receiver);
                assert(self@.transfers =~= before.routed(message).transfers);
                Err(e)
            },
        }
    }

    /// Puts a receiver back.
    fn keep(&mut self, rtag: &[u8], receiver: QBlockReceiver)
        requires
            old(self).wf(),
            receiver.wf(),
        ensures
            final(self).wf(),
            final(self)@ == (RegistryState {
                transfers: old(self)@.transfers.insert(rtag@, receiver@),
                ..old(self)@
            }),
    {
        let ghost before = self@;
        self.by_rtag.insert(crate::table::copy_bytes(rtag), receiver);
        assert(self@.transfers =~= before.transfers.insert(rtag@, receiver@));
    }

    /// How long after the last activity the next request of the transfer with this tag is due. None
    /// where there is no such transfer, or that cannot be expressed.
    pub fn next_deadline(&self, rtag: &[u8]) -> (deadline: Option<Duration>)
        requires
            self.wf(),
        ensures
            deadline is Some == (self@.transfers.dom().contains(rtag@)
                && self@.transfers[rtag@].deadline_fits()),
            deadline matches Some(span) ==> nanos(span) == self@.transfers[rtag@].deadline(),
    {
        match self.by_rtag.get(rtag) {
            Some(receiver) => receiver.next_deadline(),
            None => None,
        }
    }

    /// Drives recovery of the transfer with this tag, if there is one. An expired transfer is
    /// removed.
    pub fn poll_recovery(&mut self, rtag: &[u8], since_activity: Duration) -> (outcome: Option<
        RecoveryOutcome,
    >)
        requires
            old(self).wf(),
            old(self)@.transfers.dom().contains(rtag@)
                ==> old(self)@.transfers[rtag@].deadline_fits(),
        ensures
            final(self).wf(),
            old(self)@.polled(rtag@, since_activity, final(self)@, outcome),
    {
        let ghost before = self@;
        match self.by_rtag.remove(rtag) {
            None => {
                assert(self@.transfers =~= before.transfers);
                None
            },
            Some(mut receiver) => {
                assert(self@.transfers =~= before.transfers.remove(rtag@));
                assert(receiver@ == before.transfers[rtag@]);
                let outcome = receiver.poll_recovery(since_activity);
                let expired = match &outcome {
                    RecoveryOutcome::Expired => true,
                    _ => false,
                };
                if !expired {
                    let ghost now = receiver@;
                    self.keep(rtag, receiver);
                    assert(self@.transfers =~= before.transfers.insert(rtag@, now));
                }
                Some(outcome)
            },
        }
    }

    /// How many transfers are in progress.
    pub fn len(&self) -> (len: usize)
        requires
            self.wf(),
        ensures
            self@.transfers.dom().finite(),
            len == self@.transfers.dom().len(),
    {
        assert(self@.transfers.dom() =~= self.by_rtag@.dom());
        self.by_rtag.len()
    }

    /// Whether no transfer is in progress.
    pub fn is_empty(&self) -> (empty: bool)
        requires
            self.wf(),
        ensures
            empty == (self@.transfers.dom() =~= Set::<Seq<u8>>::empty()),
    {
        assert(self@.transfers.dom() =~= self.by_rtag@.dom());
        let len = self.by_rtag.len();
        proof {
            if len == 0 {
                self.by_rtag@.dom().lemma_len0_is_empty();
            }
        }
        len == 0
    }
}

} // verus!
