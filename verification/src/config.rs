//! Settings and errors of Q-Block transfers.
use crate::time::nanos;
use crate::time::new_span;
use coap_lite::error::InvalidBlockValue;
use coap_lite::error::MessageError;
use std::time::Duration;
use vstd::prelude::*;

verus! {

/// Timing and congestion constants of a transfer.
///
/// Only non-confirmable transfers are implemented: `probing_rate`, `nstart` and
/// `non_probing_wait` belong to confirmable ones and are carried unread. So is
/// `non_partial_timeout`: a partial body is held until the rounds of recovery are spent.
#[derive(Debug, Clone, Copy)]
pub struct QBlockConfig {
    /// Blocks sent per burst before the inter-burst delay (`MAX_PAYLOADS`).
    pub max_payloads: u32,
    /// Base inter-burst congestion delay (`NON_TIMEOUT`).
    pub non_timeout: Duration,
    /// How long a receiver waits before it first asks for missing blocks
    /// (`NON_RECEIVE_TIMEOUT`).
    pub non_receive_timeout: Duration,
    /// Most rounds of asking for missing blocks (`NON_MAX_RETRANSMIT`).
    pub non_max_retransmit: u32,
    /// How long to hold a partially received body (`NON_PARTIAL_TIMEOUT`).
    pub non_partial_timeout: Duration,
    /// Bytes per second while the peer is silent (`PROBING_RATE`).
    pub probing_rate: u32,
    /// Confirmable messages in flight (`NSTART`).
    pub nstart: u32,
    /// Longest wait while probing a silent peer (`NON_PROBING_WAIT`).
    pub non_probing_wait: Duration,
}

impl Default for QBlockConfig {
    fn default() -> (config: QBlockConfig)
        ensures
            config.max_payloads == 10,
            nanos(config.non_timeout) == 2_000_000_000,
            nanos(config.non_receive_timeout) == 4_000_000_000,
            config.non_max_retransmit == 4,
            nanos(config.non_partial_timeout) == 247_000_000_000,
            config.probing_rate == 1,
            config.nstart == 1,
            nanos(config.non_probing_wait) == 247_000_000_000,
    {
        QBlockConfig {
            max_payloads: 10,
            non_timeout: new_span(2, 0),
            non_receive_timeout: new_span(4, 0),
            non_max_retransmit: 4,
            non_partial_timeout: new_span(247, 0),
            probing_rate: 1,
            nstart: 1,
            non_probing_wait: new_span(247, 0),
        }
    }
}

/// How the blocks of a transfer are sent.
#[derive(Debug, Clone, Copy, PartialEq, Eq, Structural)]
pub enum TransferKind {
    /// Non-confirmable bursts (the default).
    Non,
    /// Confirmable, one acknowledgement per block. Not implemented.
    Con,
}

/// Which kind of I/O error a transfer error amounts to.
#[derive(Debug, Clone, Copy, PartialEq, Eq, Structural)]
pub enum QBlockErrorKind {
    InvalidInput,
    InvalidData,
}

/// Why a transfer cannot go on.
#[derive(Debug, PartialEq)]
pub enum QBlockError {
    /// A block option cannot name the block.
    Block(InvalidBlockValue),
    /// A message does not fit the wire format.
    Encode(MessageError),
    /// A block claims another block size than the blocks before it.
    SizeChanged,
    /// A block reaches past the longest body that is accepted.
    BodyTooLong,
}

impl QBlockError {
    /// A request to send what cannot be named is bad input; all else is bad data.
    pub open spec fn spec_kind(self) -> QBlockErrorKind {
        match self {
            QBlockError::Block(_) => QBlockErrorKind::InvalidInput,
            _ => QBlockErrorKind::InvalidData,
        }
    }

    /// The kind of I/O error this amounts to.
    pub fn kind(&self) -> (kind: QBlockErrorKind)
        ensures
            kind == self.spec_kind(),
    {
        match self {
            QBlockError::Block(_) => QBlockErrorKind::InvalidInput,
            _ => QBlockErrorKind::InvalidData,
        }
    }
}

} // verus!
