//! Laws of the calls by which a server decides what to do: with a datagram, with a block of a
//! request body, and with a response that is too large for one block.
use crate::address::Endpoint;
use crate::body::block_len;
use crate::config::QBlockConfig;
use crate::config::TransferKind;
use crate::laws::server::law_report_names_its_request;
use crate::laws::server::served;
use crate::laws::server::Served;
use crate::laws::tags::alike_but;
use crate::laws::tags::answers;
use crate::laws::tags::lemma_tagged;
use crate::laws::tags::tagged;
use crate::packet::has_short_fields;
use crate::packet::packet_contents;
use crate::packet::wire_decoding;
use crate::packet::ByteOrder;
use crate::packet::Message;
use crate::qblock_server::linger_of;
use crate::qblock_server::token_seed;
use crate::qblock_server::BlockRoute;
use crate::qblock_server::QBlockServerState;
use crate::qblock_server::SendPlan;
use crate::qblock_server::ServerTask;
use crate::qblock_server::ServerTransfers;
use crate::receiver::QBlockReceiver;
use crate::reports::parse_missing_request;
use crate::request::Request;
use crate::request::RequestState;
use crate::server::classify;
use crate::server::classify_packet;
use crate::server::Inbound;
use crate::time::nanos;
use crate::uint::decode_uint;
use crate::uint::law_uint_round_trip;
use crate::uint::lemma_uint_width;
use crate::uint::uint_bytes;
use coap_lite::Packet;
use std::time::Duration;
use vstd::prelude::*;

verus! {

/// What a datagram is to a server depends on nothing but whether it is a message and whether that
/// has a Q-Block1 option. The message is handed on as it is.
pub proof fn law_datagrams_are_told_apart(packet: Option<Packet>, inbound: Inbound)
    requires
        call_ensures(classify_packet, (packet,), inbound),
    ensures
        inbound is Malformed <==> packet is None,
        inbound is RequestBlock <==> packet is Some && packet_contents(packet->0).has(19),
        inbound is Message <==> packet is Some && !packet_contents(packet->0).has(19),
        inbound matches Inbound::RequestBlock(same) ==> packet_contents(same) == packet_contents(
            packet->0,
        ),
        inbound matches Inbound::Message(same) ==> packet_contents(same) == packet_contents(
            packet->0,
        ),
{
}

/// Bytes are told apart by what they read as: on a machine of one byte order or the other, and on
/// every machine alike if they have no two-byte fields.
pub proof fn law_bytes_are_told_apart(bytes: &[u8], inbound: Inbound)
    requires
        call_ensures(classify, (bytes,), inbound),
    ensures
        ({
            let little = wire_decoding(bytes@, ByteOrder::Little);
            let big = wire_decoding(bytes@, ByteOrder::Big);
            &&& inbound is Malformed ==> little is None || big is None
            &&& inbound is Malformed && has_short_fields(bytes@) ==> little is None && big is None
            &&& inbound matches Inbound::RequestBlock(packet) ==> packet_contents(packet).has(19)
                && (little == Some(packet_contents(packet)) || big == Some(
                packet_contents(packet),
            ))
            &&& inbound matches Inbound::Message(packet) ==> !packet_contents(packet).has(19) && (
            little == Some(packet_contents(packet)) || big == Some(packet_contents(packet)))
        }),
{
}

/// A block of a request body that is being received goes to its transfer if it comes from the
/// source that opened it, and is dropped otherwise. A block of any other body opens a transfer,
/// wherever it comes from, if there are fewer transfers than there may be, and is dropped
/// otherwise.
pub proof fn law_blocks_are_routed_by_tag_and_source<S, R>(
    server: &QBlockServerState<S, R>,
    tag: &[u8],
    source: Endpoint,
    route: BlockRoute,
)
    requires
        server.wf(),
        call_ensures(QBlockServerState::<S, R>::route_block, (server, tag, source), route),
    ensures
        ({
            let recvs = server@.recvs;
            let known = recvs.dom().contains(tag@);
            let room = recvs.dom().len() < server@.max_transfers;
            &&& known && recvs[tag@].0 == source ==> route == BlockRoute::Forward
            &&& known && recvs[tag@].0 != source ==> route == BlockRoute::Drop
            &&& !known && room ==> route == BlockRoute::Open
            &&& !known && !room ==> route == BlockRoute::Drop
        }),
{
}

/// A transfer can be opened for every block that has room for one. It is then bound to its source
/// and reached by its tag; nothing else changes.
pub proof fn law_opened_transfer_is_reached_by_its_tag<S, R>(
    server: &mut QBlockServerState<S, R>,
    tag: &[u8],
    source: Endpoint,
    recv: R,
    handle: Option<&R>,
)
    requires
        old(server).wf(),
        !old(server)@.recvs.dom().contains(tag@),
        old(server)@.recvs.dom().len() < old(server)@.max_transfers,
        call_ensures(QBlockServerState::<S, R>::open_recv, (server, tag, source, recv), ()),
        call_ensures(QBlockServerState::<S, R>::recv_handle, (&*final(server), tag), handle),
    ensures
        call_requires(QBlockServerState::<S, R>::open_recv, (server, tag, source, recv)),
        handle is Some,
        *handle->0 == recv,
        final(server)@.recvs.dom().contains(tag@),
        final(server)@.recvs[tag@] == (source, recv),
        alike_but(old(server)@.recvs, final(server)@.recvs, tag@),
        final(server)@ == (ServerTransfers { recvs: final(server)@.recvs, ..old(server)@ }),
{
}

/// A transfer that is closed is gone, and its place is free; nothing else changes.
pub proof fn law_closed_transfer_is_gone<S, R>(
    server: &mut QBlockServerState<S, R>,
    tag: &[u8],
    handle: Option<&R>,
)
    requires
        old(server).wf(),
        call_ensures(QBlockServerState::<S, R>::close_recv, (server, tag), ()),
        call_ensures(QBlockServerState::<S, R>::recv_handle, (&*final(server), tag), handle),
    ensures
        handle is None,
        !final(server)@.recvs.dom().contains(tag@),
        old(server)@.recvs.dom().contains(tag@) ==> final(server)@.recvs.dom().len() + 1
            == old(server)@.recvs.dom().len(),
        alike_but(old(server)@.recvs, final(server)@.recvs, tag@),
        final(server)@ == (ServerTransfers { recvs: final(server)@.recvs, ..old(server)@ }),
{
    old(server).lemma_inv();
    assert(final(server)@.recvs.dom() =~= old(server)@.recvs.dom().remove(tag@));
}

/// A response body that is being sent is reached by its token until it is noted as sent; nothing
/// else changes.
pub proof fn law_sent_response_is_reached_by_its_token<S, R>(
    server: &mut QBlockServerState<S, R>,
    token: &[u8],
    send: S,
    handle: Option<&S>,
)
    requires
        old(server).wf(),
        call_ensures(QBlockServerState::<S, R>::open_send, (server, token, send), ()),
        call_ensures(QBlockServerState::<S, R>::send_handle, (&*final(server), token), handle),
    ensures
        handle is Some,
        *handle->0 == send,
        final(server)@.sends.dom().contains(token@),
        final(server)@.sends[token@] == send,
        alike_but(old(server)@.sends, final(server)@.sends, token@),
        final(server)@ == (ServerTransfers { sends: final(server)@.sends, ..old(server)@ }),
{
}

/// A response body that is noted as sent is reached no more; nothing else changes.
pub proof fn law_finished_response_is_gone<S, R>(
    server: &mut QBlockServerState<S, R>,
    token: &[u8],
    handle: Option<&S>,
)
    requires
        old(server).wf(),
        call_ensures(QBlockServerState::<S, R>::close_send, (server, token), ()),
        call_ensures(QBlockServerState::<S, R>::send_handle, (&*final(server), token), handle),
    ensures
        handle is None,
        !final(server)@.sends.dom().contains(token@),
        alike_but(old(server)@.sends, final(server)@.sends, token@),
        final(server)@ == (ServerTransfers { sends: final(server)@.sends, ..old(server)@ }),
{
}

/// A message reports missing blocks if and only if it has a Q-Block2 option and a response body is
/// being sent for its token. The report goes to that body, with the blocks that the message asks
/// for.
pub proof fn law_reports_go_to_the_body_of_their_token<S, R>(
    server: &QBlockServerState<S, R>,
    packet: &Packet,
    report: Option<(&S, Vec<u32>)>,
    asked: Vec<u32>,
)
    requires
        server.wf(),
        call_ensures(QBlockServerState::<S, R>::route_missing, (server, packet), report),
        call_ensures(parse_missing_request, (packet, 31), asked),
    ensures
        report is Some <==> packet_contents(*packet).has(31) && server@.sends.dom().contains(
            packet_contents(*packet).token,
        ),
        report matches Some((send, blocks)) ==> *send == server@.sends[packet_contents(
            *packet,
        ).token] && blocks@ == asked@,
{
}

/// Whether a message reports missing blocks of a response body that is being sent.
pub open spec fn is_report<S, R>(server: ServerTransfers<S, R>, message: Message) -> bool {
    message.has(31) && server.sends.dom().contains(message.token)
}

/// Only what is no message is ignored. A block of a request body is routed by its tag and its
/// source. Any other message is a report of missing blocks, or else a request: that very message,
/// from that source, with the response that answers it, goes on to be handled.
pub proof fn law_every_message_is_attended_to<S, R>(
    server: &QBlockServerState<S, R>,
    packet: Option<Packet>,
    inbound: Inbound,
    source: Endpoint,
    task: ServerTask,
)
    requires
        server.wf(),
        call_ensures(classify_packet, (packet,), inbound),
        call_ensures(QBlockServerState::<S, R>::task, (server, inbound, source), task),
    ensures
        task is Ignore <==> packet is None,
        packet matches Some(packet) ==> {
            let message = packet_contents(packet);
            &&& task is Block <==> message.has(19)
            &&& task is Report <==> !message.has(19) && is_report(server@, message)
            &&& task is Handle <==> !message.has(19) && !is_report(server@, message)
            &&& task matches ServerTask::Handle(request) ==> request@.message == message
                && request@.source == Some(source) && request@.response == message.answer()
            &&& task matches ServerTask::Report { token, blocks } ==> token@ == message.token
            &&& task matches ServerTask::Block { packet: same, tag, route } ==> packet_contents(
                same,
            ) == message && tagged(message, tag@)
        },
{
    if let Some(packet) = packet {
        let message = packet_contents(packet);
        if let ServerTask::Block { packet: same, tag, route } = task {
            lemma_tagged(message, tag@);
        }
    }
}

/// The task for a block says where it goes, and the task for a report which blocks it asks for.
pub proof fn law_tasks_say_what_is_asked<S, R>(
    server: &QBlockServerState<S, R>,
    packet: Packet,
    source: Endpoint,
    task: ServerTask,
    asked: Vec<u32>,
    tag: &[u8],
    route: BlockRoute,
)
    requires
        server.wf(),
        call_ensures(parse_missing_request, (&packet, 31), asked),
        tagged(packet_contents(packet), tag@),
        call_ensures(QBlockServerState::<S, R>::route_block, (server, tag, source), route),
        call_ensures(
            QBlockServerState::<S, R>::task,
            (
                server,
                if packet_contents(packet).has(19) {
                    Inbound::RequestBlock(packet)
                } else {
                    Inbound::Message(packet)
                },
                source,
            ),
            task,
        ),
    ensures
        task matches ServerTask::Report { token, blocks } ==> blocks@ == asked@,
        task matches ServerTask::Block { packet: same, tag: named, route: stated } ==> named@
            == tag@ && stated == route,
{
    lemma_tagged(packet_contents(packet), tag@);
}

/// A response is sent in blocks if and only if the request has a Q-Block2 option that names a block
/// size and the payload of the response is longer than one such block. The body that is sent is
/// that payload, in blocks of that size, with the settings of the server; reports on it come with
/// the token of the request.
pub proof fn law_large_responses_are_sent_in_blocks<S, R>(
    server: &QBlockServerState<S, R>,
    request: &Request,
    plan: Option<SendPlan>,
)
    requires
        server.wf(),
        call_ensures(QBlockServerState::<S, R>::plan_send, (server, request), plan),
    ensures
        ({
            let asked = request@.message.first_block(31);
            let response = request@.response;
            &&& plan is Some <==> asked is Some && response is Some && response->0.payload.len()
                > block_len(asked->0.size_exponent)
            &&& plan matches Some(plan) ==> {
                &&& plan.token@ == request@.message.token
                &&& plan.sender.wf()
                &&& plan.sender@.body == response->0.payload
                &&& plan.sender@.szx == asked->0.size_exponent
                &&& plan.sender@.option == 31
                &&& plan.sender@.kind == TransferKind::Non
                &&& plan.sender@.config == server@.config
                &&& !plan.sender@.started
                &&& plan.sender@.rng == token_seed(request@.message.token)
            }
        }),
{
}

/// What the block messages of a response start from is the response of the handler: with its code,
/// its message ID and all its options but the Q-Block2, Block2 and Size2 ones. They are
/// non-confirmable, have the token of the request, and tell the length of the payload.
pub proof fn law_blocks_of_a_response_are_like_the_response<S, R>(
    server: &QBlockServerState<S, R>,
    request: &Request,
    plan: SendPlan,
)
    requires
        server.wf(),
        call_ensures(QBlockServerState::<S, R>::plan_send, (server, request), Some(plan)),
    ensures
        ({
            let response = request@.response->0;
            let template = plan.sender@.template;
            &&& template.code == response.code
            &&& template.role == response.role
            &&& template.id == response.id
            &&& template.token == request@.message.token
            &&& request@.message.token.len() < 16 ==> {
                &&& template.first / 64 == response.first / 64
                &&& (template.first / 16) % 4 == 1
                &&& template.first % 16 == request@.message.token.len()
            }
            &&& template.values(31).len() == 0
            &&& template.values(23).len() == 0
            &&& template.values(28).len() == 1
            &&& response.payload.len() <= u32::MAX ==> decode_uint(template.values(28)[0], 4)
                == Some(response.payload.len())
            &&& forall|number: u16|
                number != 31 && number != 23 && number != 28 ==> #[trigger] template.values(number)
                    == response.values(number)
        }),
{
    let response = request@.response->0;
    let template = plan.sender@.template;
    let len = response.payload.len() % 0x1_0000_0000;
    law_uint_round_trip(len);
    lemma_uint_width(len);
    assert(template.values(28) =~= seq![uint_bytes(len)]);
}

/// The sender of a response waits for reports as long as the rounds of a receiver take at the base
/// timeout, and two more such spans: one round more is one span more, and no round is two spans.
pub proof fn law_linger_covers_the_rounds(
    config: &QBlockConfig,
    linger: Option<Duration>,
    more: &QBlockConfig,
    longer: Option<Duration>,
)
    requires
        call_ensures(linger_of, (config,), linger),
        call_ensures(linger_of, (more,), longer),
        more.non_receive_timeout == config.non_receive_timeout,
        more.non_max_retransmit == config.non_max_retransmit + 1,
    ensures
        linger is Some && longer is Some ==> nanos(longer->0) == nanos(linger->0) + nanos(
            config.non_receive_timeout,
        ),
        linger is Some && config.non_max_retransmit == 0 ==> nanos(linger->0) == 2 * nanos(
            config.non_receive_timeout,
        ),
        linger is Some <==> config.non_max_retransmit + 2 <= u32::MAX && nanos(
            config.non_receive_timeout,
        ) * (config.non_max_retransmit + 2) <= u64::MAX * 1_000_000_000 + 999_999_999,
{
    let base = nanos(config.non_receive_timeout) as int;
    let rounds = config.non_max_retransmit as int + 2;
    assert(base * (rounds + 1) == base * rounds + base) by (nonlinear_arith);
    if rounds == 2 {
        assert(base * rounds == 2 * base) by (nonlinear_arith)
            requires
                rounds == 2,
        ;
    }
}

/// A plan to send a response says how long to wait for reports.
pub proof fn law_plan_says_how_long_to_linger<S, R>(
    server: &QBlockServerState<S, R>,
    request: &Request,
    plan: SendPlan,
    linger: Option<Duration>,
)
    requires
        server.wf(),
        call_ensures(QBlockServerState::<S, R>::plan_send, (server, request), Some(plan)),
        call_ensures(linger_of, (&server@.config,), linger),
    ensures
        plan.linger is Some == linger is Some,
        linger is Some ==> nanos(plan.linger->0) == nanos(linger->0),
{
}

/// Transfers of responses to different last bytes of a token draw different delays, and the seed
/// goes on from that of the front of the token.
pub proof fn law_seed_takes_in_every_byte(token: Seq<u8>, byte: u8, other: u8)
    ensures
        token_seed(token.push(byte)) == token_seed(token.push(other)) <==> byte == other,
        token_seed(token.push(byte)).wrapping_sub(byte as u64) == token_seed(token).wrapping_mul(
            31,
        ),
        token_seed(Seq::empty()) == 0,
{
    assert(token.push(byte).drop_last() =~= token);
    assert(token.push(other).drop_last() =~= token);
}

/// The receiver for a request body that a block opens is new, takes Q-Block1 blocks, and has the
/// limits and the settings of the server. Its reports answer the message.
pub proof fn law_receiver_for_a_body_answers_its_request<S, R>(
    server: &QBlockServerState<S, R>,
    opening: &Packet,
    receiver: QBlockReceiver,
    tag: Seq<u8>,
)
    requires
        server.wf(),
        call_ensures(QBlockServerState::<S, R>::receiver_for, (server, opening), receiver),
        tagged(packet_contents(*opening), tag),
    ensures
        receiver.wf(),
        answers(receiver@, packet_contents(*opening).token, tag),
        forall|n: u32| !receiver@.received.blocks.contains(n),
        receiver@.received.total is None,
        receiver@.body.len() == 0,
        receiver@.szx is None,
        receiver@.total_len is None,
        receiver@.final_len is None,
        receiver@.retry == 0,
        receiver@.max_body_len == server@.max_body_len,
        receiver@.config == server@.config,
        packet_contents(*opening).token.len() < 16 ==> (receiver@.template.first / 16) % 4 == 1,
{
    lemma_tagged(packet_contents(*opening), tag);
    lemma_tagged(receiver@.template, tag);
    law_report_names_its_request(packet_contents(*opening).token, tag);
}

/// A new server has no transfers. By default it takes request bodies of up to 16 MiB, and 64 of
/// them at a time.
pub proof fn law_new_server_has_no_transfers<S, R>(
    config: QBlockConfig,
    server: QBlockServerState<S, R>,
    max_body_len: usize,
    max_transfers: usize,
    limited: QBlockServerState<S, R>,
)
    requires
        call_ensures(QBlockServerState::<S, R>::new, (config,), server),
        call_ensures(
            QBlockServerState::<S, R>::new_with,
            (config, max_body_len, max_transfers),
            limited,
        ),
    ensures
        server.wf(),
        server@.config == config,
        server@.max_body_len == 0x100_0000,
        server@.max_transfers == 64,
        limited.wf(),
        limited@.config == config,
        limited@.max_body_len == max_body_len,
        limited@.max_transfers == max_transfers,
        forall|key: Seq<u8>|
            !(#[trigger] server@.recvs.dom().contains(key)) && !server@.sends.dom().contains(key)
                && !limited@.recvs.dom().contains(key) && !limited@.sends.dom().contains(key),
{
}

/// Each setting replaces just what it is named for.
pub proof fn law_settings_replace_one_thing<S, R>(
    a: &mut QBlockServerState<S, R>,
    b: &mut QBlockServerState<S, R>,
    c: &mut QBlockServerState<S, R>,
    config: QBlockConfig,
    max_body_len: usize,
    max_transfers: usize,
    told: QBlockConfig,
)
    requires
        call_ensures(QBlockServerState::<S, R>::set_qblock_config, (a, config), ()),
        call_ensures(QBlockServerState::<S, R>::set_qblock_max_body_len, (b, max_body_len), ()),
        call_ensures(QBlockServerState::<S, R>::set_qblock_max_transfers, (c, max_transfers), ()),
        call_ensures(QBlockServerState::<S, R>::config, (&*final(a),), told),
    ensures
        final(a).wf() && final(b).wf() && final(c).wf(),
        final(a)@.config == config,
        told == config,
        final(a)@.max_body_len == old(a)@.max_body_len,
        final(a)@.max_transfers == old(a)@.max_transfers,
        final(b)@.config == old(b)@.config,
        final(b)@.max_body_len == max_body_len,
        final(b)@.max_transfers == old(b)@.max_transfers,
        final(c)@.config == old(c)@.config,
        final(c)@.max_body_len == old(c)@.max_body_len,
        final(c)@.max_transfers == max_transfers,
        forall|key: Seq<u8>|
            !(#[trigger] final(a)@.recvs.dom().contains(key))
                && !final(b)@.recvs.dom().contains(key) && !final(c)@.recvs.dom().contains(key),
{
}

/// Every message that is neither a block of a request body nor a report is handled next: the
/// handler gets that message with its source, and the server is otherwise as it was.
pub proof fn law_requests_reach_the_handler(
    server: Served,
    datagrams: Seq<(Seq<u8>, Endpoint)>,
    bytes: Seq<u8>,
    source: Endpoint,
    message: Message,
    reading: spec_fn(Seq<u8>) -> Option<Message>,
    handler: spec_fn(Served, RequestState) -> Served,
)
    requires
        reading(bytes) == Some(message),
        !message.has(19),
        !is_report(served(server, datagrams, reading, handler).transfers, message),
    ensures
        ({
            let before = served(server, datagrams, reading, handler);
            let request = RequestState {
                message,
                response: message.answer(),
                source: Some(source),
            };
            served(server, datagrams.push((bytes, source)), reading, handler) == handler(
                Served { handled: before.handled.push(request), ..before },
                request,
            )
        }),
{
    let all = datagrams.push((bytes, source));
    assert(all.drop_last() =~= datagrams);
    assert(all.last() == (bytes, source));
}

} // verus!
