//! Laws of the transfers of a server.
use crate::address::Endpoint;
use crate::body::block_len;
use crate::body::lemma_block_bounds;
use crate::body::lemma_block_count;
use crate::body::lemma_small_sizes;
use crate::config::QBlockError;
use crate::laws::receiving::blocks_of;
use crate::laws::receiving::counting;
use crate::laws::receiving::fits;
use crate::laws::receiving::law_buffer_stays_within_the_limit;
use crate::laws::transfer::fed;
use crate::laws::transfer::is_template;
use crate::laws::transfer::law_lossless_transfer;
use crate::laws::transfer::made_from;
use crate::laws::transfer::nameable;
use crate::laws::transfer::read;
use crate::laws::transfer::sent_as;
use crate::packet::lemma_decoded_block;
use crate::packet::role_of;
use crate::packet::spec_size_option;
use crate::packet::ByteOrder;
use crate::packet::Message;
use crate::packet::Q_BLOCK2;
use crate::qblock_server::BlockRoute;
use crate::qblock_server::ServerTransfers;
use crate::qblock_server::Task;
use crate::range_set::BlockSet;
use crate::receiver::Outcome;
use crate::receiver::ReceiverState;
use crate::reports::spec_report_template;
use crate::reports::spec_request_tag;
use crate::request::RequestState;
use crate::sender::SenderState;
use vstd::prelude::*;

verus! {

/// The transfers after one was opened.
pub open spec fn with_recv<S, R>(
    server: ServerTransfers<S, R>,
    tag: Seq<u8>,
    source: Endpoint,
    recv: R,
) -> ServerTransfers<S, R> {
    ServerTransfers { recvs: server.recvs.insert(tag, (source, recv)), ..server }
}

/// A transfer takes blocks from the source that opened it and from no other, be the limit on
/// transfers reached or not.
pub proof fn law_transfer_is_bound_to_its_source<S, R>(
    server: ServerTransfers<S, R>,
    tag: Seq<u8>,
    source: Endpoint,
    recv: R,
    other: Endpoint,
)
    requires
        server.route(tag, source) == BlockRoute::Open,
    ensures
        with_recv(server, tag, source, recv).route(tag, other) == (if other == source {
            BlockRoute::Forward
        } else {
            BlockRoute::Drop
        }),
{
}

/// There are never more transfers than the limit: at the limit a block of an unknown transfer is
/// dropped, whatever its source, and below it opening a transfer keeps within the limit.
pub proof fn law_transfers_stay_within_the_limit<S, R>(
    server: ServerTransfers<S, R>,
    tag: Seq<u8>,
    source: Endpoint,
    recv: R,
)
    requires
        server.inv(),
        !server.recvs.dom().contains(tag),
    ensures
        server.recvs.dom().len() == server.max_transfers ==> server.route(tag, source)
            == BlockRoute::Drop,
        server.route(tag, source) == BlockRoute::Open ==> with_recv(
            server,
            tag,
            source,
            recv,
        ).inv(),
{
    let opened = with_recv(server, tag, source, recv);
    assert(opened.recvs.dom() =~= server.recvs.dom().insert(tag));
}

/// Opening a transfer changes nothing for blocks of the transfers that are in progress.
pub proof fn law_opening_disturbs_no_transfer<S, R>(
    server: ServerTransfers<S, R>,
    tag: Seq<u8>,
    source: Endpoint,
    recv: R,
    other_tag: Seq<u8>,
    other_source: Endpoint,
)
    requires
        server.route(tag, source) == BlockRoute::Open,
        server.recvs.dom().contains(other_tag),
    ensures
        with_recv(server, tag, source, recv).route(other_tag, other_source) == server.route(
            other_tag,
            other_source,
        ),
        with_recv(server, tag, source, recv).recvs[other_tag] == server.recvs[other_tag],
{
}

/// A report on a request body carries the token of the request and its tag, so that the peer can
/// tell which body it is about.
pub proof fn law_report_names_its_request(token: Seq<u8>, tag: Seq<u8>)
    ensures
        spec_report_template(token, tag).token == token,
        spec_request_tag(spec_report_template(token, tag)) == tag,
{
    let report = spec_report_template(token, tag);
    if tag.len() == 0 {
        assert(tag =~= Seq::<u8>::empty());
    }
}

proof fn lemma_serving_template<S, R>(
    machine: ByteOrder,
    server: ServerTransfers<S, R>,
    request: RequestState,
    szx: u8,
)
    requires
        request.serving() == Some(szx),
        request.message.token.len() <= 8,
        request.response->0.code != 0,
        request.response->0.role == role_of(request.response->0.code),
        machine is Little || request.serving_template().with_option(
            spec_size_option(Q_BLOCK2),
            Seq::empty(),
        ).short_fields(),
    ensures
        szx < 8,
        16 <= block_len(szx) <= 2048,
        made_from(server.sender_for(request, szx), request.serving_template()),
        is_template(request.serving_template(), Q_BLOCK2, machine),
{
    let sender = server.sender_for(request, szx);
    let template = request.serving_template();
    lemma_decoded_block(request.message.first_value(Q_BLOCK2)->0);
    lemma_small_sizes(szx);
    assert(template.values(Q_BLOCK2).len() == 0);
    assert(made_from(sender, template));
}

/// A response that is sent in blocks arrives whole: a receiver at the peer that reads the
/// messages for all its blocks in order has the payload of the response at the last one.
pub proof fn law_served_response_arrives<S, R>(
    machine: ByteOrder,
    server: ServerTransfers<S, R>,
    request: RequestState,
    szx: u8,
    receiver: ReceiverState,
    pdus: Seq<Seq<u8>>,
)
    requires
        request.serving() == Some(szx),
        request.message.token.len() <= 8,
        request.response->0.code != 0,
        request.response->0.role == role_of(request.response->0.code),
        machine is Little || request.serving_template().with_option(
            spec_size_option(Q_BLOCK2),
            Seq::empty(),
        ).short_fields(),
        nameable(server.sender_for(request, szx)),
        receiver.option == Q_BLOCK2,
        fits(receiver, request.response->0.payload, szx),
        receiver.received == BlockSet::empty(),
        receiver.body.len() == 0,
        receiver.szx is None,
        receiver.final_len is None,
        sent_as(
            server.sender_for(request, szx),
            counting(blocks_of(request.response->0.payload, szx)),
            pdus,
        ),
    ensures
        made_from(server.sender_for(request, szx), request.serving_template()),
        is_template(request.serving_template(), Q_BLOCK2, machine),
        pdus.len() > 1,
        read(machine, fed(machine, receiver, pdus.drop_last()), pdus.last()).1 == Ok::<
            Outcome,
            QBlockError,
        >(Outcome::Complete(request.response->0.payload)),
{
    let sender = server.sender_for(request, szx);
    let template = request.serving_template();
    let body = request.response->0.payload;
    lemma_serving_template(machine, server, request, szx);
    law_lossless_transfer(machine, sender, template, receiver, pdus);
    lemma_block_count(body.len(), block_len(szx));
    let last = pdus.len() - 1;
    assert(pdus.take(last) =~= pdus.drop_last());
    assert(read(machine, fed(machine, receiver, pdus.take(last)), pdus[last]).1 == Ok::<
        Outcome,
        QBlockError,
    >(Outcome::Complete(body)));
    if pdus.len() == 1 {
        lemma_block_bounds(body.len(), block_len(szx), 0);
    }
}

/// A server with the state of its transfers, the requests that were handled, and the responses
/// that were sent.
#[verifier::ext_equal]
pub struct Served {
    pub transfers: ServerTransfers<SenderState, ReceiverState>,
    pub handled: Seq<RequestState>,
    pub responses: Seq<Seq<u8>>,
}

/// A server that has handled a request; `handler` says what comes of it.
pub open spec fn after_handling(
    server: Served,
    request: RequestState,
    handler: spec_fn(Served, RequestState) -> Served,
) -> Served {
    handler(Served { handled: server.handled.push(request), ..server }, request)
}

/// A server after a block of a request body: the block is fed to the receiver of its transfer; a
/// transfer that is complete or has failed is gone, and the request that a body makes is handled.
pub open spec fn after_block(
    server: Served,
    message: Message,
    tag: Seq<u8>,
    route: BlockRoute,
    source: Endpoint,
    handler: spec_fn(Served, RequestState) -> Served,
) -> Served {
    let receiver = if route == BlockRoute::Forward {
        server.transfers.recvs[tag].1
    } else {
        server.transfers.receiver_for(message)
    };
    let (next, outcome) = receiver.receive(message);
    let closed = Served {
        transfers: ServerTransfers {
            recvs: server.transfers.recvs.remove(tag),
            ..server.transfers
        },
        ..server
    };
    if route == BlockRoute::Drop {
        server
    } else {
        match outcome {
            Ok(Outcome::Complete(body)) => after_handling(
                closed,
                RequestState::arrived(message.with_payload(body), source),
                handler,
            ),
            Ok(_) => Served {
                transfers: with_recv(server.transfers, tag, source, next),
                ..server
            },
            Err(_) => closed,
        }
    }
}

/// A server after what it had to do for a datagram.
pub open spec fn after_task(
    server: Served,
    task: Task,
    source: Endpoint,
    handler: spec_fn(Served, RequestState) -> Served,
) -> Served {
    match task {
        Task::Ignore => server,
        Task::Block { message, tag, route } => after_block(
            server,
            message,
            tag,
            route,
            source,
            handler,
        ),
        Task::Report { token, blocks } => Served {
            transfers: ServerTransfers {
                sends: server.transfers.sends.insert(
                    token,
                    server.transfers.sends[token].refilled(blocks),
                ),
                ..server.transfers
            },
            ..server
        },
        Task::Handle(request) => after_handling(server, request, handler),
    }
}

/// A server after one datagram after the other. `reading` is what datagrams read as.
pub open spec fn served(
    server: Served,
    datagrams: Seq<(Seq<u8>, Endpoint)>,
    reading: spec_fn(Seq<u8>) -> Option<Message>,
    handler: spec_fn(Served, RequestState) -> Served,
) -> Served
    decreases datagrams.len(),
{
    if datagrams.len() == 0 {
        server
    } else {
        let before = served(server, datagrams.drop_last(), reading, handler);
        let (bytes, source) = datagrams.last();
        after_task(before, before.transfers.task(reading(bytes), source), source, handler)
    }
}

/// The datagrams that are messages.
pub open spec fn readable_datagrams(
    datagrams: Seq<(Seq<u8>, Endpoint)>,
    reading: spec_fn(Seq<u8>) -> Option<Message>,
) -> Seq<(Seq<u8>, Endpoint)>
    decreases datagrams.len(),
{
    if datagrams.len() == 0 {
        Seq::empty()
    } else {
        let before = readable_datagrams(datagrams.drop_last(), reading);
        if reading(datagrams.last().0) is Some {
            before.push(datagrams.last())
        } else {
            before
        }
    }
}

proof fn lemma_served_readable(
    server: Served,
    datagrams: Seq<(Seq<u8>, Endpoint)>,
    reading: spec_fn(Seq<u8>) -> Option<Message>,
    handler: spec_fn(Served, RequestState) -> Served,
)
    ensures
        served(server, datagrams, reading, handler) == served(
            server,
            readable_datagrams(datagrams, reading),
            reading,
            handler,
        ),
    decreases datagrams.len(),
{
    if datagrams.len() > 0 {
        let front = datagrams.drop_last();
        let kept = readable_datagrams(front, reading);
        lemma_served_readable(server, front, reading, handler);
        if reading(datagrams.last().0) is Some {
            let all = kept.push(datagrams.last());
            assert(all.drop_last() =~= kept);
            assert(all.last() == datagrams.last());
        }
    }
}

/// Whether the request bodies of a server keep within their limits: there are no more than the
/// most, and none is received with a longer limit than the server's, nor has grown beyond it.
pub open spec fn bounded<S>(transfers: ServerTransfers<S, ReceiverState>) -> bool {
    &&& transfers.inv()
    &&& forall|tag: Seq<u8>| #[trigger]
        transfers.recvs.dom().contains(tag) ==> transfers.recvs[tag].1.inv()
            && transfers.recvs[tag].1.max_body_len <= transfers.max_body_len
}

/// How many bytes the request bodies with these tags take up together.
pub open spec fn buffered(
    recvs: Map<Seq<u8>, (Endpoint, ReceiverState)>,
    tags: Set<Seq<u8>>,
) -> nat
    decreases tags.len(),
    when tags.finite()
{
    if tags.len() == 0 {
        0
    } else {
        let tag = tags.choose();
        recvs[tag].1.body.len() + buffered(recvs, tags.remove(tag))
    }
}

proof fn lemma_buffered(
    recvs: Map<Seq<u8>, (Endpoint, ReceiverState)>,
    tags: Set<Seq<u8>>,
    most: nat,
)
    requires
        tags.finite(),
        forall|tag: Seq<u8>| #[trigger] tags.contains(tag) ==> recvs[tag].1.body.len() <= most,
    ensures
        buffered(recvs, tags) <= tags.len() * most,
    decreases tags.len(),
{
    if tags.len() > 0 {
        let tag = tags.choose();
        let rest = tags.remove(tag);
        lemma_buffered(recvs, rest, most);
        assert(tags.contains(tag));
        assert(tags.len() * most == rest.len() * most + most) by (nonlinear_arith)
            requires
                tags.len() == rest.len() + 1,
        ;
    }
}

/// The memory for request bodies is bounded: however many datagrams come in, and whatever they are,
/// the bodies that are being received take up no more than the longest body times the most
/// transfers, as long as handling requests opens no transfers beyond those limits.
pub proof fn law_request_bodies_are_bounded(
    server: Served,
    datagrams: Seq<(Seq<u8>, Endpoint)>,
    reading: spec_fn(Seq<u8>) -> Option<Message>,
    handler: spec_fn(Served, RequestState) -> Served,
)
    requires
        bounded(server.transfers),
        forall|before: Served, request: RequestState|
            bounded(before.transfers) ==> bounded(
                (#[trigger] handler(before, request)).transfers,
            ),
    ensures
        ({
            let transfers = served(server, datagrams, reading, handler).transfers;
            &&& bounded(transfers)
            &&& buffered(transfers.recvs, transfers.recvs.dom()) <= transfers.max_transfers
                * transfers.max_body_len
        }),
    decreases datagrams.len(),
{
    let after = served(server, datagrams, reading, handler).transfers;
    if datagrams.len() > 0 {
        law_request_bodies_are_bounded(server, datagrams.drop_last(), reading, handler);
        let before = served(server, datagrams.drop_last(), reading, handler);
        let (bytes, source) = datagrams.last();
        match before.transfers.task(reading(bytes), source) {
            Task::Block { message, tag, route } => {
                lemma_bounded_after_block(before, message, tag, route, source, handler);
            },
            _ => {},
        }
    }
    lemma_buffered(after.recvs, after.recvs.dom(), after.max_body_len as nat);
    let n = after.recvs.dom().len();
    assert(n * after.max_body_len <= after.max_transfers * after.max_body_len) by (nonlinear_arith)
        requires
            n <= after.max_transfers,
    ;
}

proof fn lemma_bounded_after_block(
    server: Served,
    message: Message,
    tag: Seq<u8>,
    route: BlockRoute,
    source: Endpoint,
    handler: spec_fn(Served, RequestState) -> Served,
)
    requires
        bounded(server.transfers),
        route == server.transfers.route(tag, source),
        forall|before: Served, request: RequestState|
            bounded(before.transfers) ==> bounded(
                (#[trigger] handler(before, request)).transfers,
            ),
    ensures
        bounded(after_block(server, message, tag, route, source, handler).transfers),
{
    let transfers = server.transfers;
    let receiver = if route == BlockRoute::Forward {
        transfers.recvs[tag].1
    } else {
        transfers.receiver_for(message)
    };
    if route != BlockRoute::Drop {
        match message.first_block(receiver.option) {
            Some(block) => {
                lemma_decoded_block(message.first_value(receiver.option)->0);
                law_buffer_stays_within_the_limit(
                    receiver,
                    block,
                    message.first_u32(spec_size_option(receiver.option)),
                    message.payload,
                );
            },
            None => {},
        }
        let next = receiver.receive(message).0;
        let opened = with_recv(transfers, tag, source, next);
        let closed = ServerTransfers { recvs: transfers.recvs.remove(tag), ..transfers };
        assert(opened.recvs.dom() =~= transfers.recvs.dom().insert(tag));
        assert(closed.recvs.dom() =~= transfers.recvs.dom().remove(tag));
        assert(bounded(opened));
        assert(bounded(closed));
    }
}

/// Datagrams that are no messages leave no trace: two runs of a server whose datagrams differ in
/// such ones only handle the same requests from the same sources, send the same responses, and end
/// with the same transfers, whatever datagrams read as and whatever the handler does.
pub proof fn law_unreadable_datagrams_leave_no_trace(
    server: Served,
    one: Seq<(Seq<u8>, Endpoint)>,
    other: Seq<(Seq<u8>, Endpoint)>,
    reading: spec_fn(Seq<u8>) -> Option<Message>,
    handler: spec_fn(Served, RequestState) -> Served,
)
    requires
        readable_datagrams(one, reading) == readable_datagrams(other, reading),
    ensures
        served(server, one, reading, handler) == served(server, other, reading, handler),
{
    lemma_served_readable(server, one, reading, handler);
    lemma_served_readable(server, other, reading, handler);
}

} // verus!
