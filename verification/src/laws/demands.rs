//! Laws of what calls demand: a value that its constructor or another call left in order is all
//! that most of them need.
use crate::address::all_coap_group;
use crate::address::group_change;
use crate::address::Endpoint;
use crate::address::IpAddress;
use crate::address::MulticastGroups;
use crate::block_wise::can_handle_request;
use crate::block_wise::can_handle_response;
use crate::block_wise::expiry_fits;
use crate::block_wise::finish_response;
use crate::block_wise::head_len;
use crate::block_wise::request_step;
use crate::body::block_size;
use crate::body::count_blocks;
use crate::config::QBlockConfig;
use crate::config::QBlockError;
use crate::config::TransferKind;
use crate::drive::reassembled;
use crate::drive::receive_datagram;
use crate::drive::receive_message;
use crate::drive::receive_tick;
use crate::drive::resume_send;
use crate::drive::send_wait;
use crate::drive::SendEvent;
use crate::drive::SendWait;
use crate::missing_blocks::decode;
use crate::missing_blocks::encode;
use crate::packet::size_option;
use crate::packet::BlockValue;
use crate::qblock_server::linger_of;
use crate::qblock_server::QBlockServerState;
use crate::range_set::RangeSet;
use crate::receiver::QBlockReceiver;
use crate::receivers::QBlockReceivers;
use crate::reports::parse_missing_request;
use crate::reports::request_tag_of;
use crate::request::BlockFailure;
use crate::request::Request;
use crate::sender::QBlockSender;
use crate::server::classify;
use crate::server::classify_packet;
use crate::server::observed_fetch;
use crate::server::observer_verdict;
use crate::server::Inbound;
use crate::server::ServerCoapState;
use crate::table::bytes_equal;
use crate::table::copy_bytes;
use crate::table::Table;
use crate::time::nanos;
use crate::uint::encode_coap_uint;
use coap_lite::Packet;
use std::time::Duration;
use vstd::arithmetic::power2::pow2;
use vstd::prelude::*;

verus! {

/// A tracked set takes every block number but the very last, and everything else.
pub proof fn law_sets_take_every_block(set: &mut RangeSet, n: u32, more: bool, last: u32)
    requires
        old(set).wf(),
    ensures
        call_requires(RangeSet::new, ()),
        n < u32::MAX ==> call_requires(RangeSet::insert, (set, n, more)),
        call_requires(RangeSet::remove, (set, n)),
        call_requires(RangeSet::first, (&*old(set),)),
        call_requires(RangeSet::is_empty, (&*old(set),)),
        call_requires(RangeSet::is_complete, (&*old(set),)),
        call_requires(RangeSet::total_blocks, (&*old(set),)),
        call_requires(RangeSet::missing, (&*old(set), last)),
{
}

/// A receiver takes every message, every block whose size a block option can name, and every poll
/// whose deadline can be expressed.
pub proof fn law_receivers_take_every_message(
    receiver: &mut QBlockReceiver,
    option: u16,
    template: Packet,
    max_body_len: usize,
    config: QBlockConfig,
    pdu: &Packet,
    block: BlockValue,
    size: Option<u32>,
    payload: &[u8],
    since_activity: Duration,
    packet: Option<Packet>,
    bytes: &[u8],
)
    requires
        old(receiver).wf(),
    ensures
        call_requires(QBlockReceiver::new, (option, template, max_body_len, config)),
        call_requires(QBlockReceiver::accept, (receiver, pdu)),
        block.size_exponent < 8 ==> call_requires(
            QBlockReceiver::accept_block,
            (receiver, block, size, payload),
        ),
        call_requires(QBlockReceiver::build_recovery_request, (&*old(receiver),)),
        call_requires(QBlockReceiver::next_deadline, (&*old(receiver),)),
        call_requires(QBlockReceiver::rec_blocks, (&*old(receiver),)),
        call_requires(QBlockReceiver::is_complete, (&*old(receiver),)),
        call_requires(receive_message, (receiver, packet)),
        call_requires(receive_datagram, (receiver, bytes)),
        old(receiver)@.retry < 32 && nanos(old(receiver)@.config.non_receive_timeout) * pow2(
            old(receiver)@.retry as nat,
        ) <= u64::MAX * 1_000_000_000 + 999_999_999 ==> call_requires(
            QBlockReceiver::poll_recovery,
            (receiver, since_activity),
        ) && call_requires(receive_tick, (receiver, since_activity)),
{
}

/// A sender can be made for every body, and sends it if its blocks go out in non-confirmable
/// bursts; every report is taken.
pub proof fn law_senders_take_every_body(
    sender: &mut QBlockSender,
    template: Packet,
    option: u16,
    body: Vec<u8>,
    szx: u8,
    kind: TransferKind,
    config: QBlockConfig,
    seed: u64,
    sent: u32,
    sink: &mut Vec<Vec<u8>>,
    blocks: &[u32],
    n: u32,
    wait: SendWait,
    event: SendEvent,
)
    requires
        old(sender).wf(),
    ensures
        szx + 4 < usize::BITS ==> call_requires(
            QBlockSender::new,
            (template, option, body, szx, kind, config, seed),
        ),
        call_requires(QBlockSender::config, (&*old(sender),)),
        call_requires(QBlockSender::kind, (&*old(sender),)),
        call_requires(QBlockSender::total_blocks, (&*old(sender),)),
        call_requires(QBlockSender::is_done, (&*old(sender),)),
        call_requires(QBlockSender::next_rand, (sender,)),
        call_requires(QBlockSender::jitter, (sender,)),
        call_requires(QBlockSender::refill, (sender, blocks)),
        call_requires(QBlockSender::mark_sent, (sender, n)),
        call_requires(send_wait, (&*old(sender),)),
        call_requires(resume_send, (sender, wait, event)),
        old(sender)@.kind == TransferKind::Non ==> call_requires(
            QBlockSender::burst_limit,
            (&*old(sender),),
        ) && call_requires(QBlockSender::next_block, (sender, sent)) && call_requires(
            QBlockSender::drain_burst,
            (sender, sink),
        ),
{
}

/// A registry takes every message and every tag.
pub proof fn law_registries_take_every_message(
    registry: &mut QBlockReceivers,
    max_body_len: usize,
    config: QBlockConfig,
    pdu: &Packet,
    tag: &[u8],
    since_activity: Duration,
)
    requires
        old(registry).wf(),
    ensures
        call_requires(QBlockReceivers::new, (max_body_len, config)),
        call_requires(QBlockReceivers::accept, (registry, pdu)),
        call_requires(QBlockReceivers::len, (&*old(registry),)),
        call_requires(QBlockReceivers::is_empty, (&*old(registry),)),
        call_requires(QBlockReceivers::next_deadline, (&*old(registry), tag)),
        (old(registry)@.transfers.dom().contains(tag@) ==> old(registry)@.transfers[tag@].retry < 32
            && nanos(old(registry)@.transfers[tag@].config.non_receive_timeout) * pow2(
            old(registry)@.transfers[tag@].retry as nat,
        ) <= u64::MAX * 1_000_000_000 + 999_999_999) ==> call_requires(
            QBlockReceivers::poll_recovery,
            (registry, tag, since_activity),
        ),
{
}

/// A server takes every datagram, from every source, and every request.
pub proof fn law_servers_take_every_datagram<S, R>(
    server: &mut QBlockServerState<S, R>,
    config: QBlockConfig,
    max_body_len: usize,
    max_transfers: usize,
    bytes: &[u8],
    packet: Option<Packet>,
    pdu: &Packet,
    inbound: Inbound,
    source: Endpoint,
    tag: &[u8],
    request: &Request,
    send: S,
    settings: &QBlockConfig,
)
    requires
        old(server).wf(),
    ensures
        call_requires(QBlockServerState::<S, R>::new, (config,)),
        call_requires(
            QBlockServerState::<S, R>::new_with,
            (config, max_body_len, max_transfers),
        ),
        call_requires(QBlockServerState::<S, R>::config, (&*old(server),)),
        call_requires(QBlockServerState::<S, R>::set_qblock_config, (server, config)),
        call_requires(QBlockServerState::<S, R>::set_qblock_max_body_len, (server, max_body_len)),
        call_requires(QBlockServerState::<S, R>::set_qblock_max_transfers, (server, max_transfers)),
        call_requires(classify, (bytes,)),
        call_requires(classify_packet, (packet,)),
        call_requires(QBlockServerState::<S, R>::task, (&*old(server), inbound, source)),
        call_requires(QBlockServerState::<S, R>::route_missing, (&*old(server), pdu)),
        call_requires(QBlockServerState::<S, R>::route_block, (&*old(server), tag, source)),
        call_requires(QBlockServerState::<S, R>::receiver_for, (&*old(server), pdu)),
        call_requires(QBlockServerState::<S, R>::plan_send, (&*old(server), request)),
        call_requires(QBlockServerState::<S, R>::send_handle, (&*old(server), tag)),
        call_requires(QBlockServerState::<S, R>::recv_handle, (&*old(server), tag)),
        call_requires(QBlockServerState::<S, R>::open_send, (server, tag, send)),
        call_requires(QBlockServerState::<S, R>::close_send, (server, tag)),
        call_requires(QBlockServerState::<S, R>::close_recv, (server, tag)),
        call_requires(linger_of, (settings,)),
{
}

/// A state takes every request and every response, the `try_` forms without a condition.
pub proof fn law_states_take_every_request(
    state: &mut ServerCoapState,
    request: &mut Request,
    resource: Option<(Vec<u8>, Vec<u8>)>,
    value: bool,
    packet: Packet,
    source: Endpoint,
    failure: BlockFailure,
    payload: &[u8],
    etag: Vec<u8>,
    handled: Result<bool, BlockFailure>,
    verdict: &Result<bool, BlockFailure>,
    limit: usize,
    expiry: Duration,
)
    requires
        old(state).wf(),
    ensures
        call_requires(ServerCoapState::try_intercept_request, (state, request)),
        call_requires(ServerCoapState::try_intercept_response, (state, request, resource)),
        call_requires(ServerCoapState::disable_observe_handling, (state, value)),
        call_requires(Request::from_packet, (packet, source)),
        call_requires(Request::set_resource, (request, payload, etag)),
        call_requires(Request::apply_failure, (request, failure)),
        call_requires(Request::response_bytes, (&*old(request),)),
        call_requires(observed_fetch, (&*old(request),)),
        call_requires(observer_verdict, (value,)),
        call_requires(request_step, (verdict, value)),
        call_requires(finish_response, (request, handled)),
        call_requires(can_handle_request, (&*old(request), limit)),
        call_requires(can_handle_response, (&*old(request),)),
        call_requires(expiry_fits, (expiry,)),
        old(request)@.message.has(31) ==> call_requires(
            ServerCoapState::intercept_response,
            (state, request, None),
        ),
        old(request)@.response is None || head_len(old(request)@.response->0) is Some
            ==> call_requires(ServerCoapState::intercept_response, (state, request, None)),
{
}

/// The smaller calls take what they are given.
pub proof fn law_smaller_calls_take_everything<V>(
    packet: &Packet,
    option: u16,
    blocks: &[u32],
    bytes: &[u8],
    value: usize,
    table: &mut Table<V>,
    key: Vec<u8>,
    entry: V,
    groups: &mut MulticastGroups,
    address: IpAddress,
    error: &QBlockError,
    carrier: Packet,
    body: Vec<u8>,
    local: Endpoint,
    multicast: bool,
    szx: u8,
    size: usize,
)
    requires
        old(table).wf(),
        call_ensures(IpAddress::is_multicast, (&address,), multicast),
    ensures
        call_requires(parse_missing_request, (packet, option)),
        call_requires(request_tag_of, (packet,)),
        call_requires(size_option, (option,)),
        call_requires(encode, (blocks,)),
        call_requires(decode, (bytes,)),
        call_requires(encode_coap_uint, (value,)),
        call_requires(bytes_equal, (bytes, bytes)),
        call_requires(copy_bytes, (bytes,)),
        call_requires(Table::<V>::get, (&*old(table), bytes)),
        call_requires(Table::<V>::len, (&*old(table),)),
        call_requires(Table::<V>::insert, (table, key, entry)),
        call_requires(Table::<V>::remove, (table, bytes)),
        call_requires(MulticastGroups::joined, (groups, address)),
        call_requires(MulticastGroups::left, (groups, address)),
        call_requires(QBlockError::kind, (error,)),
        call_requires(reassembled, (carrier, body)),
        call_requires(IpAddress::is_multicast, (&address,)),
        call_requires(Endpoint::key, (&local,)),
        multicast ==> call_requires(group_change, (local, address)),
        szx <= 15 ==> call_requires(all_coap_group, (local, szx)),
        szx + 4 < usize::BITS ==> call_requires(block_size, (szx,)),
        size > 0 ==> call_requires(count_blocks, (value, size)),
{
}

} // verus!
