//! What a server does with requests, responses and transfers.
use coap::address::all_coap_group;
use coap::address::group_change;
use coap::address::Endpoint;
use coap::address::GroupChange;
use coap::address::IpAddress;
use coap::address::MulticastGroups;
use coap::block_wise::can_handle_request;
use coap::block_wise::can_handle_response;
use coap::block_wise::expiry_fits;
use coap::block_wise::finish_response;
use coap::block_wise::request_step;
use coap::block_wise::RequestStep;
use coap::config::QBlockConfig;
use coap::config::QBlockError;
use coap::drive::reassembled;
use coap::drive::receive_datagram;
use coap::drive::receive_tick;
use coap::drive::ReceiveEvent;
use coap::drive::ReceiveTick;
use coap::packet::Q_BLOCK1;
use coap::packet::Q_BLOCK2;
use coap::qblock_server::linger_of;
use coap::qblock_server::BlockRoute;
use coap::qblock_server::QBlockServerState;
use coap::qblock_server::ServerTask;
use coap::receiver::QBlockReceiver;
use coap::request::BlockFailure;
use coap::request::Request;
use coap::reports::request_tag_of;
use coap::server::classify;
use coap::server::classify_packet;
use coap::server::observed_fetch;
use coap::server::observer_verdict;
use coap::server::Inbound;
use coap::server::ServerCoapState;
use coap::server::ShouldForwardToHandler;
use coap_lite::block_handler::BlockValue;
use coap_lite::CoapOption;
use coap_lite::MessageClass;
use coap_lite::MessageType;
use coap_lite::Packet;
use coap_lite::RequestType;
use coap_lite::ResponseType;
use std::time::Duration;

const PEER_A: Endpoint = Endpoint::V4 {
    ip: 0x7F00_0001,
    port: 40001,
};
const PEER_B: Endpoint = Endpoint::V4 {
    ip: 0x7F00_0001,
    port: 40002,
};

/// One serialized Q-Block1 request block PDU (16 B blocks, szx=0).
fn q1_block(rtag: &[u8], token: &[u8], num: u16, more: bool, payload: Vec<u8>) -> Vec<u8> {
    let mut p = Packet::new();
    p.header.set_type(MessageType::NonConfirmable);
    p.header.code = MessageClass::Request(RequestType::Put);
    p.set_token(token.to_vec());
    p.add_option(CoapOption::Unknown(292), rtag.to_vec());
    p.add_option(CoapOption::UriPath, b"r".to_vec());
    p.add_option_as::<BlockValue>(
        CoapOption::from(Q_BLOCK1),
        BlockValue::new(num as usize, more, 16).unwrap(),
    );
    p.payload = payload;
    p.to_bytes().unwrap()
}

/// A server that records every request body it is dispatched. Receivers stand where the tasks of
/// transfers would.
struct RecordingServer {
    state: QBlockServerState<(), usize>,
    receivers: Vec<Option<QBlockReceiver>>,
    bodies: Vec<Vec<u8>>,
}

impl RecordingServer {
    fn new(configure: impl FnOnce(&mut QBlockServerState<(), usize>)) -> RecordingServer {
        let mut state = QBlockServerState::new(QBlockConfig::default());
        configure(&mut state);
        RecordingServer {
            state,
            receivers: Vec::new(),
            bodies: Vec::new(),
        }
    }

    fn datagram(&mut self, bytes: &[u8], source: Endpoint) {
        let (packet, tag, route) = match self.state.task(classify(bytes), source) {
            ServerTask::Ignore => return,
            ServerTask::Block { packet, tag, route } => (packet, tag, route),
            other => panic!("not a request block: {other:?}"),
        };
        assert_eq!(route, self.state.route_block(&tag, source));
        let task = match route {
            BlockRoute::Drop => return,
            BlockRoute::Forward => *self.state.recv_handle(&tag).unwrap(),
            BlockRoute::Open => {
                let task = self.receivers.len();
                self.receivers.push(Some(self.state.receiver_for(&packet)));
                self.state.open_recv(&tag, source, task);
                task
            }
        };
        let receiver = self.receivers[task].as_mut().unwrap();
        match receive_datagram(receiver, bytes) {
            Ok(ReceiveEvent::Complete(body, carrier)) => {
                let request = reassembled(carrier, body);
                self.bodies.push(request.payload);
                self.state.close_recv(&tag);
            }
            Ok(_) => {}
            Err(_) => {
                self.receivers[task] = None;
                self.state.close_recv(&tag);
            }
        }
    }
}

#[test]
fn block_from_a_different_source_is_dropped() {
    let cfg = QBlockConfig {
        non_receive_timeout: Duration::from_millis(40),
        ..Default::default()
    };
    let mut server = RecordingServer::new(move |s| s.set_qblock_config(cfg));
    let good: Vec<u8> = (0..32u8).collect();

    // A opens transfer "T" with block 0 → binds it to A's source.
    server.datagram(&q1_block(b"T", b"\x01", 0, true, good[0..16].to_vec()), PEER_A);
    // B (different source) forges the final block for the same tag.
    server.datagram(&q1_block(b"T", b"\x01", 1, false, vec![0xFFu8; 16]), PEER_B);
    assert!(server.bodies.is_empty());
    // A completes the transfer correctly.
    server.datagram(&q1_block(b"T", b"\x01", 1, false, good[16..32].to_vec()), PEER_A);

    assert_eq!(
        server.bodies.first().map(|b| b.as_slice()),
        Some(good.as_slice()),
        "a Q-Block1 block from a different source must not corrupt the transfer"
    );
}

#[test]
fn concurrent_transfer_cap_drops_excess() {
    let mut server = RecordingServer::new(|s| s.set_qblock_max_transfers(1));
    let body: Vec<u8> = (0..32u8).collect();
    // Transfer A occupies the one slot with an incomplete (more=true) block.
    server.datagram(&q1_block(b"A", b"\x01", 0, true, body[0..16].to_vec()), PEER_A);
    // Transfer B is a complete single block; at the cap its opening block is dropped.
    server.datagram(&q1_block(b"B", b"\x02", 0, false, body[16..32].to_vec()), PEER_B);
    assert!(
        server.bodies.is_empty(),
        "a transfer opened past the concurrency cap must not be dispatched"
    );
    // Once A is complete, B can be opened.
    server.datagram(&q1_block(b"A", b"\x01", 1, false, body[16..32].to_vec()), PEER_A);
    server.datagram(&q1_block(b"B", b"\x02", 0, false, body[16..32].to_vec()), PEER_B);
    assert_eq!(server.bodies, vec![body.clone(), body[16..32].to_vec()]);
}

#[test]
fn oversized_body_is_rejected_by_max_body_len() {
    let mut server = RecordingServer::new(|s| s.set_qblock_max_body_len(16));
    let body: Vec<u8> = (0..32u8).collect();
    server.datagram(&q1_block(b"X", b"\x01", 0, true, body[0..16].to_vec()), PEER_A);
    // Block 1 starts at offset 16, end 32 > the 16-byte cap → rejected.
    server.datagram(&q1_block(b"X", b"\x01", 1, false, body[16..32].to_vec()), PEER_A);
    assert!(
        server.bodies.is_empty(),
        "a Q-Block1 body exceeding max_body_len must not be dispatched"
    );
}

#[test]
fn limits_survive_each_other() {
    let body: Vec<u8> = (0..32u8).collect();
    let mut server = RecordingServer::new(|s| {
        s.set_qblock_max_transfers(1);
        s.set_qblock_max_body_len(16);
        s.set_qblock_config(QBlockConfig {
            non_max_retransmit: 1,
            ..Default::default()
        });
    });
    assert_eq!(server.state.config().non_max_retransmit, 1);
    server.datagram(&q1_block(b"A", b"\x01", 0, true, body[0..16].to_vec()), PEER_A);
    server.datagram(&q1_block(b"B", b"\x02", 0, false, body[0..16].to_vec()), PEER_B);
    assert!(server.bodies.is_empty());
    server.datagram(&q1_block(b"A", b"\x01", 1, false, body[16..32].to_vec()), PEER_A);
    assert!(server.bodies.is_empty());
}

#[test]
fn reports_on_a_request_body_echo_token_and_tag() {
    let state: QBlockServerState<(), ()> = QBlockServerState::new(QBlockConfig::default());
    let opening = Packet::from_bytes(&q1_block(b"T", b"\x07", 1, false, vec![1; 16])).unwrap();
    let mut receiver = state.receiver_for(&opening);
    receiver.accept(&opening).unwrap();
    let ReceiveTick::Send(bytes) = receive_tick(&mut receiver, Duration::from_secs(4)).unwrap()
    else {
        panic!("expected a report");
    };
    let report = Packet::from_bytes(&bytes).unwrap();
    assert_eq!(report.get_token(), b"\x07");
    assert_eq!(request_tag_of(&report), b"T".to_vec());
    assert_eq!(report.header.get_type(), MessageType::NonConfirmable);
    assert_eq!(report.payload, vec![0]);

    // A request without a tag is reported on without one.
    let mut untagged = opening.clone();
    untagged.clear_option(CoapOption::Unknown(292));
    let mut receiver = state.receiver_for(&untagged);
    receiver.accept(&untagged).unwrap();
    let ReceiveTick::Send(bytes) = receive_tick(&mut receiver, Duration::from_secs(4)).unwrap()
    else {
        panic!("expected a report");
    };
    let report = Packet::from_bytes(&bytes).unwrap();
    assert!(report.get_option(CoapOption::Unknown(292)).is_none());
}

#[test]
fn multicast_join_leave() {
    let local = Endpoint::V4 { ip: 0, port: 5683 };
    let first = IpAddress::V4(u32::from_be_bytes([224, 0, 1, 1]));
    let second = IpAddress::V4(u32::from_be_bytes([224, 1, 1, 1]));
    let mut groups = MulticastGroups::new();
    for group in [first, second] {
        assert!(group.is_multicast());
        let IpAddress::V4(ip) = group else {
            panic!("an IPv4 group");
        };
        assert_eq!(
            group_change(local, group),
            Some(GroupChange::V4 {
                group: ip,
                interface: 0
            })
        );
        groups.joined(group);
    }
    assert!(groups.left(first));
    assert!(groups.left(second));
    assert!(!groups.left(first));
}

#[test]
fn groups_of_the_other_family_are_left_alone() {
    let v4 = Endpoint::V4 {
        ip: 0x0A00_0001,
        port: 5683,
    };
    let v6 = Endpoint::V6 {
        ip: 1,
        port: 5683,
        flowinfo: 0,
        scope_id: 0,
    };
    assert_eq!(
        all_coap_group(v4, 3),
        IpAddress::V4(u32::from_be_bytes([224, 0, 1, 187]))
    );
    let group = all_coap_group(v6, 4);
    let mut bytes = [0u8; 16];
    bytes[0] = 0xff;
    bytes[1] = 0x04;
    bytes[15] = 0xfd;
    assert_eq!(group, IpAddress::V6(u128::from_be_bytes(bytes)));
    assert_eq!(group_change(v4, group), None);
    assert_eq!(
        group_change(v6, group),
        Some(GroupChange::V6 {
            group: u128::from_be_bytes(bytes)
        })
    );
    assert_eq!(group_change(v6, all_coap_group(v4, 0)), None);
    assert!(!IpAddress::V4(u32::from_be_bytes([192, 168, 0, 1])).is_multicast());
    assert!(!IpAddress::V6(1).is_multicast());
    assert!(IpAddress::V4(u32::from_be_bytes([239, 255, 255, 255])).is_multicast());
    assert!(!IpAddress::V4(u32::from_be_bytes([240, 0, 0, 0])).is_multicast());
}

#[test]
fn a_group_joined_twice_is_left_once() {
    let group = IpAddress::V4(u32::from_be_bytes([224, 0, 1, 1]));
    let mut groups = MulticastGroups::new();
    groups.joined(group);
    groups.joined(group);
    assert!(groups.left(group));
    assert!(groups.left(group));
    assert!(!groups.left(group));
}

fn get_request(token: &[u8]) -> Packet {
    let mut p = Packet::new();
    p.header.set_type(MessageType::Confirmable);
    p.header.code = MessageClass::Request(RequestType::Get);
    p.header.message_id = 77;
    p.set_token(token.to_vec());
    p.add_option(CoapOption::UriPath, b"big".to_vec());
    p.add_option(CoapOption::UriPath, b"file".to_vec());
    p
}

fn coap_state() -> ServerCoapState {
    ServerCoapState::new(1152, Duration::from_secs(120))
}

#[test]
fn requests_are_answered_by_their_kind() {
    let mut packet = get_request(&[9]);
    let request = Request::from_packet(packet.clone(), PEER_A);
    let response = request.response.as_ref().unwrap();
    assert_eq!(response.header.get_type(), MessageType::Acknowledgement);
    assert_eq!(response.header.message_id, 77);
    assert_eq!(response.get_token(), &[9]);
    assert_eq!(
        response.header.code,
        MessageClass::Response(ResponseType::Content)
    );
    let bytes = request.response_bytes().unwrap();
    assert_eq!(bytes, vec![0x61, 0x45, 0, 77, 9]);

    packet.header.set_type(MessageType::NonConfirmable);
    let request = Request::from_packet(packet.clone(), PEER_A);
    assert_eq!(request.response_bytes().unwrap(), vec![0x51, 0x45, 0, 77, 9]);

    packet.header.set_type(MessageType::Reset);
    let request = Request::from_packet(packet, PEER_A);
    assert!(request.response.is_none());
    assert_eq!(request.response_bytes(), None);
}

#[test]
fn datagrams_are_told_apart() {
    assert!(matches!(classify(&[1, 2]), Inbound::Malformed));
    assert!(matches!(classify_packet(None), Inbound::Malformed));
    let plain = get_request(&[9]).to_bytes().unwrap();
    assert!(matches!(classify(&plain), Inbound::Message(p) if p.header.message_id == 77));
    let block = q1_block(b"T", b"\x01", 0, true, vec![0; 16]);
    assert!(matches!(classify(&block), Inbound::RequestBlock(_)));
}

#[test]
fn small_requests_pass_block_wise_handling() {
    let mut state = coap_state();
    let mut request = Request::from_packet(get_request(&[9]), PEER_A);
    assert!(can_handle_request(&request, 1152));
    assert_eq!(
        state.intercept_request(&mut request),
        RequestStep::AskObserver
    );
    state.disable_observe_handling(true);
    assert_eq!(
        state.try_intercept_request(&mut request),
        Some(RequestStep::Forward)
    );
    assert_eq!(request.message, get_request(&[9]));
    state.disable_observe_handling(false);
    assert_eq!(
        state.intercept_request(&mut request),
        RequestStep::AskObserver
    );
    assert_eq!(observer_verdict(true), ShouldForwardToHandler::True);
    assert_eq!(observer_verdict(false), ShouldForwardToHandler::False);
}

#[test]
fn block_wise_requests_are_put_together() {
    let mut state = coap_state();
    let body: Vec<u8> = (0..24u8).collect();
    let mut first = get_request(&[9]);
    first.header.code = MessageClass::Request(RequestType::Put);
    let mut second = first.clone();
    first.add_option_as::<BlockValue>(CoapOption::Block1, BlockValue::new(0, true, 16).unwrap());
    first.payload = body[0..16].to_vec();
    second.add_option_as::<BlockValue>(CoapOption::Block1, BlockValue::new(1, false, 16).unwrap());
    second.payload = body[16..24].to_vec();

    let mut request = Request::from_packet(first, PEER_A);
    assert_eq!(state.intercept_request(&mut request), RequestStep::Respond);
    assert_eq!(
        request.response.as_ref().unwrap().header.code,
        MessageClass::Response(ResponseType::Continue)
    );

    let mut request = Request::from_packet(second, PEER_A);
    assert_eq!(
        state.intercept_request(&mut request),
        RequestStep::AskObserver
    );
    assert_eq!(request.message.payload, body);
}

#[test]
fn oversized_requests_are_turned_down() {
    let mut state = coap_state();
    let mut packet = get_request(&[9]);
    packet.payload = vec![7; 2000];
    let mut request = Request::from_packet(packet, PEER_A);
    assert_eq!(state.intercept_request(&mut request), RequestStep::Respond);
    assert_eq!(
        request.response.as_ref().unwrap().header.code,
        MessageClass::Response(ResponseType::RequestEntityTooLarge)
    );

    // One whose options alone are too large cannot be sized up.
    let mut packet = get_request(&[9]);
    packet.add_option(CoapOption::UriQuery, vec![b'q'; 1300]);
    let mut request = Request::from_packet(packet.clone(), PEER_A);
    assert!(!can_handle_request(&request, 1152));
    assert_eq!(state.try_intercept_request(&mut request), None);
    assert_eq!(request.message, packet);
}

#[test]
fn block_wise_handling_fails_without_a_response() {
    // A failure of block-wise handling ends the request as well.
    let mut state = coap_state();
    let mut packet = get_request(&[9]);
    packet.header.set_type(MessageType::Reset);
    packet.payload = vec![7; 2000];
    let mut request = Request::from_packet(packet, PEER_A);
    assert_eq!(state.intercept_request(&mut request), RequestStep::Respond);
    assert!(request.response.is_none());
}

#[test]
fn steps_follow_the_verdict() {
    assert_eq!(request_step(&Ok(true), false), RequestStep::Respond);
    assert_eq!(request_step(&Ok(true), true), RequestStep::Respond);
    assert_eq!(request_step(&Ok(false), false), RequestStep::AskObserver);
    assert_eq!(request_step(&Ok(false), true), RequestStep::Forward);
    let failure = BlockFailure {
        code: None,
        text: Vec::new(),
    };
    assert_eq!(request_step(&Err(failure), true), RequestStep::Respond);
}

#[test]
fn large_responses_are_cut_into_blocks() {
    let mut state = coap_state();
    let mut request = Request::from_packet(get_request(&[9]), PEER_A);
    state.intercept_request(&mut request);
    request.response.as_mut().unwrap().payload = vec![b'a'; 3000];
    assert!(can_handle_response(&request));
    state.intercept_response(&mut request, None);
    let response = request.response.as_ref().unwrap();
    assert_eq!(response.payload, vec![b'a'; 1024]);
    let block = response
        .get_first_option_as::<BlockValue>(CoapOption::Block2)
        .unwrap()
        .unwrap();
    assert_eq!((block.num, block.more, block.size()), (0, true, 1024));

    // The next block comes from what was kept, without the handler.
    let mut next = get_request(&[9]);
    next.add_option_as::<BlockValue>(CoapOption::Block2, BlockValue::new(1, false, 1024).unwrap());
    let mut request = Request::from_packet(next, PEER_A);
    assert_eq!(state.intercept_request(&mut request), RequestStep::Respond);
    assert_eq!(request.response.as_ref().unwrap().payload, vec![b'a'; 1024]);
}

#[test]
fn responses_to_qblock2_requests_stay_whole() {
    let mut state = coap_state();
    let mut packet = get_request(&[9]);
    packet.add_option_as::<BlockValue>(
        CoapOption::from(Q_BLOCK2),
        BlockValue::new(0, false, 16).unwrap(),
    );
    let mut request = Request::from_packet(packet, PEER_A);
    request.response.as_mut().unwrap().payload = vec![b'a'; 3000];
    assert!(state.try_intercept_response(&mut request, Some((vec![1], vec![2]))));
    assert_eq!(request.response.as_ref().unwrap().payload, vec![b'a'; 3000]);
}

#[test]
fn observed_fetches_show_the_resource() {
    let mut packet = get_request(&[9]);
    assert_eq!(
        observed_fetch(&Request::from_packet(packet.clone(), PEER_A)),
        None
    );
    packet.add_option_as::<BlockValue>(CoapOption::Block2, BlockValue::new(1, false, 16).unwrap());
    let mut request = Request::from_packet(packet.clone(), PEER_A);
    assert_eq!(
        observed_fetch(&request),
        Some((PEER_A, "big/file".to_string()))
    );

    let mut state = coap_state();
    let response = request.response.as_mut().unwrap();
    response.add_option(CoapOption::ETag, vec![1, 1]);
    response.add_option(CoapOption::Size2, vec![5]);
    // A response that names its block is not cut up again.
    response.add_option(CoapOption::Block2, vec![0x10]);
    state.intercept_response(&mut request, Some((vec![6; 300], vec![2, 2])));
    let response = request.response.as_ref().unwrap();
    assert_eq!(response.payload, vec![6; 300]);
    let etags: Vec<Vec<u8>> = response
        .get_option(CoapOption::ETag)
        .unwrap()
        .iter()
        .cloned()
        .collect();
    assert_eq!(etags, vec![vec![2, 2]]);
    let sizes: Vec<Vec<u8>> = response
        .get_option(CoapOption::Size2)
        .unwrap()
        .iter()
        .cloned()
        .collect();
    assert_eq!(sizes, vec![vec![1, 44]]);

    packet.add_option(CoapOption::Observe, Vec::new());
    assert_eq!(observed_fetch(&Request::from_packet(packet, PEER_A)), None);
    let mut unknown = Request::from_packet(get_request(&[9]), PEER_A);
    unknown.source = None;
    assert_eq!(observed_fetch(&unknown), None);
}

#[test]
fn failures_are_reported_to_the_peer() {
    let mut request = Request::from_packet(get_request(&[9]), PEER_A);
    finish_response(
        &mut request,
        Err(BlockFailure {
            code: Some(0x80),
            text: b"no".to_vec(),
        }),
    );
    let response = request.response.as_ref().unwrap();
    assert_eq!(
        response.header.code,
        MessageClass::Response(ResponseType::BadRequest)
    );
    assert_eq!(response.payload, b"no".to_vec());
    assert_eq!(
        response.get_first_option(CoapOption::ContentFormat),
        Some(&Vec::new())
    );

    let mut request = Request::from_packet(get_request(&[9]), PEER_A);
    assert!(!request.apply_failure(BlockFailure {
        code: None,
        text: b"no".to_vec()
    }));
    assert!(request.response.as_ref().unwrap().payload.is_empty());
    finish_response(&mut request, Ok(true));
    assert!(request.response.as_ref().unwrap().payload.is_empty());
}

#[test]
fn responses_that_cannot_be_sized_up_are_left() {
    let mut state = coap_state();
    let mut request = Request::from_packet(get_request(&[9]), PEER_A);
    let response = request.response.as_mut().unwrap();
    response.add_option(CoapOption::ETag, vec![b'e'; 1300]);
    assert!(!can_handle_response(&request));
    assert!(!state.try_intercept_response(&mut request, None));
    assert_eq!(request.response_bytes(), None);
    assert!(expiry_fits(Duration::from_secs(120)));
    assert!(!expiry_fits(Duration::MAX));
}

/// A request for a response in Q-Block2 blocks of 16 bytes.
fn qblock2_request(token: &[u8]) -> Packet {
    let mut req = Packet::new();
    req.header.set_type(MessageType::NonConfirmable);
    req.header.code = MessageClass::Request(RequestType::Get);
    req.set_token(token.to_vec());
    req.add_option(CoapOption::UriPath, b"big".to_vec());
    req.add_option_as::<BlockValue>(
        CoapOption::from(Q_BLOCK2),
        BlockValue::new(0, false, 16).unwrap(),
    );
    req
}

#[test]
fn large_response_is_streamed_and_recovered() {
    let body: Vec<u8> = (0..25u16).flat_map(|i| [i as u8; 16]).collect();
    let mut server: QBlockServerState<u8, ()> = QBlockServerState::new(QBlockConfig::default());
    let packet = qblock2_request(&[0x42]);
    assert!(server.route_missing(&packet).is_none());

    let mut request = Request::from_packet(packet, PEER_A);
    request.response.as_mut().unwrap().payload = body.clone();
    // What the handler set of these is replaced.
    request
        .response
        .as_mut()
        .unwrap()
        .add_option(CoapOption::Block2, vec![0x18]);
    request
        .response
        .as_mut()
        .unwrap()
        .add_option(CoapOption::Size2, vec![1]);
    let plan = server.plan_send(&request).unwrap();
    assert_eq!(plan.token, vec![0x42]);
    assert_eq!(plan.linger, Some(Duration::from_secs(24)));
    server.open_send(&plan.token, 7);

    let mut recovery_template = Packet::new();
    recovery_template
        .header
        .set_type(MessageType::NonConfirmable);
    recovery_template.header.code = MessageClass::Request(RequestType::Get);
    recovery_template.set_token(vec![0x42]);
    let mut rx = QBlockReceiver::new(Q_BLOCK2, recovery_template, 1 << 20, server.config());

    let mut tx = plan.sender;
    let mut pdus: Vec<Vec<u8>> = Vec::new();
    while !tx.is_done() {
        tx.drain_burst(&mut pdus).unwrap();
    }
    assert_eq!(pdus.len(), 25);
    for (i, pdu) in pdus.iter().enumerate() {
        let block = Packet::from_bytes(pdu).unwrap();
        assert_eq!(block.get_token(), &[0x42]);
        assert!(block.get_option(CoapOption::Block2).is_none());
        assert_eq!(
            block.get_option(CoapOption::Size2).unwrap().iter().next(),
            Some(&vec![1, 144])
        );
        if i != 3 && i != 17 {
            assert_eq!(
                receive_datagram(&mut rx, pdu).unwrap(),
                ReceiveEvent::Activity
            );
        }
    }

    // The missing-block request reaches the transfer by its token.
    let ReceiveTick::Send(bytes) = receive_tick(&mut rx, Duration::from_secs(4)).unwrap() else {
        panic!("expected a request");
    };
    let Inbound::Message(report) = classify(&bytes) else {
        panic!("expected a message");
    };
    let (send, blocks) = server.route_missing(&report).unwrap();
    assert_eq!(*send, 7);
    assert_eq!(blocks, vec![3, 17]);
    let ServerTask::Report { token, blocks } = server.task(classify(&bytes), PEER_A) else {
        panic!("expected a report");
    };
    assert_eq!(server.send_handle(&token), Some(&7));
    assert_eq!(blocks, vec![3, 17]);
    tx.refill(&blocks);
    let mut resent: Vec<Vec<u8>> = Vec::new();
    assert_eq!(tx.drain_burst(&mut resent), Ok(2));
    receive_datagram(&mut rx, &resent[0]).unwrap();
    let ReceiveEvent::Complete(got, _) = receive_datagram(&mut rx, &resent[1]).unwrap() else {
        panic!("expected the body");
    };
    assert_eq!(got, body);

    server.close_send(&[0x42]);
    assert!(server.send_handle(&[0x42]).is_none());
    assert!(server.route_missing(&report).is_none());
    // Without the transfer the report is a request like any other.
    assert!(matches!(
        server.task(classify(&bytes), PEER_A),
        ServerTask::Handle(request) if request.source == Some(PEER_A)
    ));
}

#[test]
fn small_responses_are_sent_in_one_piece() {
    let server: QBlockServerState<(), ()> = QBlockServerState::new(QBlockConfig::default());
    let mut request = Request::from_packet(qblock2_request(&[1]), PEER_A);
    request.response.as_mut().unwrap().payload = vec![1; 16];
    assert!(server.plan_send(&request).is_none());
    request.response.as_mut().unwrap().payload = vec![1; 17];
    assert!(server.plan_send(&request).is_some());
    request.response = None;
    assert!(server.plan_send(&request).is_none());
    let mut plain = Request::from_packet(get_request(&[1]), PEER_A);
    plain.response.as_mut().unwrap().payload = vec![1; 17];
    assert!(server.plan_send(&plain).is_none());
}

#[test]
fn transfers_are_seeded_by_their_token() {
    let server: QBlockServerState<(), ()> = QBlockServerState::new(QBlockConfig::default());
    let first_jitter = |token: &[u8]| {
        let mut request = Request::from_packet(qblock2_request(token), PEER_A);
        request.response.as_mut().unwrap().payload = vec![1; 17];
        server.plan_send(&request).unwrap().sender.next_rand()
    };
    // An empty token seeds with zero.
    assert_eq!(first_jitter(&[]), 0xE220_A839_7B1D_CDAF);
    // 1 * 31 + 2 = 33
    assert_eq!(first_jitter(&[1, 2]), first_jitter(&[33]));
    assert_ne!(first_jitter(&[1]), first_jitter(&[2]));
}

#[test]
fn lingering_that_cannot_be_expressed_is_noticed() {
    let mut config = QBlockConfig::default();
    assert_eq!(linger_of(&config), Some(Duration::from_secs(24)));
    config.non_receive_timeout = Duration::MAX;
    assert_eq!(linger_of(&config), None);
    config.non_receive_timeout = Duration::from_secs(4);
    config.non_max_retransmit = u32::MAX;
    assert_eq!(linger_of(&config), None);
}

#[test]
fn a_request_that_cannot_be_encoded_ends_the_receive() {
    let mut template = Packet::new();
    template.add_option(CoapOption::UriQuery, vec![b'q'; 1300]);
    let mut rx = QBlockReceiver::new(Q_BLOCK2, template, 1 << 20, QBlockConfig::default());
    let mut block = Packet::new();
    block.add_option_as::<BlockValue>(
        CoapOption::from(Q_BLOCK2),
        BlockValue::new(1, false, 16).unwrap(),
    );
    block.payload = vec![1; 16];
    rx.accept(&block).unwrap();
    assert!(matches!(
        receive_tick(&mut rx, Duration::from_secs(4)),
        Err(QBlockError::Encode(_))
    ));
}

#[test]
fn path_segments_that_are_no_text_are_left_out() {
    let mut packet = Packet::new();
    packet.add_option(CoapOption::UriPath, b"a".to_vec());
    packet.add_option(CoapOption::UriPath, vec![0xff, 0xfe]);
    packet.add_option(CoapOption::UriPath, Vec::new());
    packet.add_option(CoapOption::UriPath, "\u{e9}".as_bytes().to_vec());
    packet.add_option(CoapOption::Block2, vec![0]);
    let request = Request::from_packet(packet, PEER_A);
    assert_eq!(
        observed_fetch(&request),
        Some((PEER_A, "a//\u{e9}".to_string()))
    );
}

#[test]
fn transfers_run_side_by_side() {
    let body: Vec<u8> = (0..32u8).collect();
    let mut server = RecordingServer::new(|_| {});
    server.datagram(&q1_block(b"A", b"\x01", 0, true, body[0..16].to_vec()), PEER_A);
    server.datagram(&q1_block(b"B", b"\x01", 0, true, body[16..32].to_vec()), PEER_B);
    assert_eq!(server.state.route_block(b"A", PEER_A), BlockRoute::Forward);
    assert_eq!(server.state.route_block(b"A", PEER_B), BlockRoute::Drop);
    assert_eq!(server.state.route_block(b"B", PEER_B), BlockRoute::Forward);
    assert_eq!(server.state.route_block(b"C", PEER_B), BlockRoute::Open);
    server.datagram(&q1_block(b"B", b"\x01", 1, false, body[0..16].to_vec()), PEER_B);
    server.datagram(&q1_block(b"A", b"\x01", 1, false, body[16..32].to_vec()), PEER_A);
    let mut swapped = body[16..32].to_vec();
    swapped.extend(&body[0..16]);
    assert_eq!(server.bodies, vec![swapped, body]);
    assert!(server.state.recv_handle(b"A").is_none());
}

#[test]
fn unreadable_datagrams_leave_no_trace() {
    let body: Vec<u8> = (0..32u8).collect();
    let first = q1_block(b"A", b"\x01", 0, true, body[0..16].to_vec());
    let last = q1_block(b"A", b"\x01", 1, false, body[16..32].to_vec());
    let noise: [&[u8]; 3] = [&[], &[0xff; 9], &[0x49, 0x01, 0, 0]];
    let mut server = RecordingServer::new(|_| {});
    for datagram in [noise[0], &first, noise[1], noise[2], &last, noise[0]] {
        server.datagram(datagram, PEER_A);
    }
    assert_eq!(server.bodies, vec![body]);
}

#[test]
fn oversized_requests_learn_the_block_size() {
    let mut state = coap_state();
    let mut packet = get_request(&[9]);
    let head = packet.to_bytes().unwrap().len();
    // The smallest payload that is too large.
    packet.payload = vec![7; 1152 - 12 - head];
    let mut request = Request::from_packet(packet.clone(), PEER_A);
    assert_eq!(state.intercept_request(&mut request), RequestStep::Respond);
    let block = request
        .response
        .as_ref()
        .unwrap()
        .get_first_option_as::<BlockValue>(CoapOption::Block1)
        .unwrap()
        .unwrap();
    assert_eq!((block.num, block.more, block.size()), (0, true, 1024));

    packet.payload.pop();
    let mut request = Request::from_packet(packet.clone(), PEER_A);
    assert_eq!(
        state.intercept_request(&mut request),
        RequestStep::AskObserver
    );
    assert_eq!(request.message, packet);
}

#[test]
fn echoed_responses_go_out_as_they_are() {
    let mut packet = Packet::new();
    packet.header.set_version(1);
    packet.header.set_type(MessageType::Confirmable);
    packet.header.set_code("0.01");
    packet.header.message_id = 1;
    packet.set_token(vec![0x51, 0x55, 0x77, 0xE8]);
    packet.add_option(CoapOption::UriPath, b"test-echo".to_vec());
    let mut state = coap_state();
    let mut request = Request::from_packet(packet, PEER_A);
    assert_eq!(
        state.intercept_request(&mut request),
        RequestStep::AskObserver
    );
    request.response.as_mut().unwrap().payload = b"test-echo".to_vec();
    state.intercept_response(&mut request, None);
    let sent = Packet::from_bytes(&request.response_bytes().unwrap()).unwrap();
    assert_eq!(sent.payload, b"test-echo".to_vec());
}

#[test]
fn observed_resources_are_shown_before_cutting() {
    let mut state = coap_state();
    let mut packet = get_request(&[9]);
    packet.add_option_as::<BlockValue>(CoapOption::Block2, BlockValue::new(1, false, 16).unwrap());
    let mut request = Request::from_packet(packet, PEER_A);
    state.intercept_request(&mut request);
    request.response.as_mut().unwrap().payload = b"stale".to_vec();
    let resource: Vec<u8> = (0..40u8).collect();
    assert!(state.try_intercept_response(&mut request, Some((resource.clone(), vec![2, 2]))));
    let response = request.response.as_ref().unwrap();
    assert_eq!(response.payload, resource[16..32].to_vec());
    assert_eq!(response.get_first_option(CoapOption::Size2), Some(&vec![40]));
    assert_eq!(response.get_first_option(CoapOption::ETag), Some(&vec![2, 2]));
    let block = response
        .get_first_option_as::<BlockValue>(CoapOption::Block2)
        .unwrap()
        .unwrap();
    assert_eq!((block.num, block.more, block.size()), (1, true, 16));

    // A request that fetches no block of an observed resource is not shown one.
    let mut request = Request::from_packet(get_request(&[9]), PEER_B);
    state.intercept_request(&mut request);
    request.response.as_mut().unwrap().payload = b"fresh".to_vec();
    assert!(state.try_intercept_response(&mut request, Some((resource, vec![2, 2]))));
    assert_eq!(request.response.as_ref().unwrap().payload, b"fresh".to_vec());
    assert!(request
        .response
        .as_ref()
        .unwrap()
        .get_option(CoapOption::ETag)
        .is_none());
}

#[test]
fn blocks_that_are_not_there_are_a_bad_request() {
    let mut state = coap_state();
    let mut packet = get_request(&[9]);
    packet.add_option_as::<BlockValue>(CoapOption::Block2, BlockValue::new(5, false, 16).unwrap());
    let mut request = Request::from_packet(packet, PEER_A);
    state.intercept_request(&mut request);
    request.response.as_mut().unwrap().payload = b"short".to_vec();
    state.intercept_response(&mut request, None);
    assert_eq!(
        request.response.as_ref().unwrap().header.code,
        MessageClass::Response(ResponseType::BadRequest)
    );
}

/// A request that names a block.
fn naming(option: CoapOption, num: usize, more: bool, size: usize) -> Packet {
    let mut packet = get_request(&[9]);
    packet.add_option_as::<BlockValue>(option, BlockValue::new(num, more, size).unwrap());
    packet
}

fn block_named(packet: &Packet, option: CoapOption) -> (u16, bool, usize) {
    let block = packet
        .get_first_option_as::<BlockValue>(option)
        .unwrap()
        .unwrap();
    (block.num, block.more, block.size())
}

#[test]
fn uploaded_bodies_reach_the_handler_whole() {
    let mut state = coap_state();
    let body: Vec<u8> = (0..100u8).collect();
    for n in 0..7usize {
        let mut packet = naming(CoapOption::Block1, n, n < 6, 16);
        packet.payload = body[16 * n..(16 * n + 16).min(100)].to_vec();
        let mut request = Request::from_packet(packet, PEER_A);
        let step = state.intercept_request(&mut request);
        let response = request.response.as_ref().unwrap();
        assert_eq!(
            block_named(response, CoapOption::Block1),
            (n as u16, false, 16)
        );
        if n < 6 {
            assert_eq!(step, RequestStep::Respond);
            assert_eq!(
                response.header.code,
                MessageClass::Response(ResponseType::Continue)
            );
        } else {
            assert_eq!(step, RequestStep::AskObserver);
            assert_eq!(request.message.payload, body);
        }
    }
    // Nothing is left of the body: a last block on its own is filled up with zeros.
    let mut packet = naming(CoapOption::Block1, 1, false, 16);
    packet.payload = vec![7; 4];
    let mut request = Request::from_packet(packet, PEER_A);
    assert_eq!(
        state.intercept_request(&mut request),
        RequestStep::AskObserver
    );
    let mut padded = vec![0; 16];
    padded.extend([7; 4]);
    assert_eq!(request.message.payload, padded);
}

#[test]
fn blocks_far_behind_the_body_fail() {
    let mut state = coap_state();
    // Block 15 of 1024 bytes ends where the gap may end, and block 16 behind it.
    let mut packet = naming(CoapOption::Block1, 15, true, 1024);
    packet.payload = vec![1; 1024];
    let mut request = Request::from_packet(packet, PEER_A);
    assert_eq!(state.intercept_request(&mut request), RequestStep::Respond);
    assert_eq!(
        request.response.as_ref().unwrap().header.code,
        MessageClass::Response(ResponseType::Continue)
    );
    let mut packet = naming(CoapOption::Block1, 16, true, 1024);
    packet.payload = vec![1; 1024];
    let mut request = Request::from_packet(packet, PEER_B);
    let before = request.response.clone();
    assert_eq!(state.intercept_request(&mut request), RequestStep::Respond);
    assert_eq!(request.response, before);
}

#[test]
fn large_responses_are_fetched_whole() {
    let mut state = coap_state();
    let body: Vec<u8> = (0..3000u32).map(|i| (i % 251) as u8).collect();
    let mut request = Request::from_packet(get_request(&[9]), PEER_A);
    state.intercept_request(&mut request);
    let response = request.response.as_mut().unwrap();
    response.payload = body.clone();
    response.add_option(CoapOption::ETag, vec![3]);
    state.intercept_response(&mut request, None);
    let mut got = request.response.as_ref().unwrap().payload.clone();

    // Another peer, another path and another method have their own memory.
    let mut stranger =
        Request::from_packet(naming(CoapOption::Block2, 1, false, 1024), PEER_B);
    assert_eq!(
        state.intercept_request(&mut stranger),
        RequestStep::AskObserver
    );
    let mut elsewhere = naming(CoapOption::Block2, 1, false, 1024);
    elsewhere.add_option(CoapOption::UriPath, b"more".to_vec());
    let mut elsewhere = Request::from_packet(elsewhere, PEER_A);
    assert_eq!(
        state.intercept_request(&mut elsewhere),
        RequestStep::AskObserver
    );
    let mut posted = naming(CoapOption::Block2, 1, false, 1024);
    posted.header.code = MessageClass::Request(RequestType::Post);
    let mut posted = Request::from_packet(posted, PEER_A);
    assert_eq!(
        state.intercept_request(&mut posted),
        RequestStep::AskObserver
    );

    // So has a code that is held as a bare number.
    let mut bare = naming(CoapOption::Block2, 1, false, 1024);
    bare.header.code = MessageClass::Reserved(1);
    let mut bare = Request::from_packet(bare, PEER_A);
    assert_eq!(
        state.intercept_request(&mut bare),
        RequestStep::AskObserver
    );

    // One that names a block behind the end fails, and leaves the response kept.
    let mut behind = Request::from_packet(naming(CoapOption::Block2, 3, false, 1024), PEER_A);
    assert_eq!(state.intercept_request(&mut behind), RequestStep::Respond);
    assert!(behind.response.as_ref().unwrap().payload.is_empty());

    for n in 1..3usize {
        let mut packet = naming(CoapOption::Block2, n, false, 1024);
        packet.header.message_id = 500 + n as u16;
        let mut request = Request::from_packet(packet, PEER_A);
        assert_eq!(state.intercept_request(&mut request), RequestStep::Respond);
        let response = request.response.as_ref().unwrap();
        assert_eq!(response.header.message_id, 500 + n as u16);
        assert_eq!(
            response.get_first_option(CoapOption::ETag),
            Some(&vec![3])
        );
        assert_eq!(
            block_named(response, CoapOption::Block2),
            (n as u16, n == 1, 1024)
        );
        got.extend(&response.payload);
    }
    assert_eq!(got, body);

    // With its last block the response is forgotten.
    let mut again = Request::from_packet(naming(CoapOption::Block2, 1, false, 1024), PEER_A);
    assert_eq!(
        state.intercept_request(&mut again),
        RequestStep::AskObserver
    );
}

#[test]
fn named_blocks_are_shown_in_blocks_that_fit() {
    let mut state = ServerCoapState::new(100, Duration::from_secs(120));
    let body: Vec<u8> = (0..200u8).collect();
    let mut request = Request::from_packet(naming(CoapOption::Block2, 1, false, 128), PEER_A);
    assert_eq!(
        state.intercept_request(&mut request),
        RequestStep::AskObserver
    );
    let response = request.response.as_mut().unwrap();
    response.payload = body.clone();
    let head = {
        let mut head = response.clone();
        head.payload.clear();
        head.to_bytes().unwrap().len()
    };
    let room = 100 - 12 - head;
    assert!((64..128).contains(&room));
    state.intercept_response(&mut request, None);
    let response = request.response.as_ref().unwrap();
    // Byte 128 in blocks as large as the room, of which 64 bytes can be named.
    let num = 128 / room;
    assert_eq!(
        block_named(response, CoapOption::Block2),
        (num as u16, true, 64)
    );
    assert_eq!(response.payload, body[64 * num..64 * num + 64].to_vec());
}

#[test]
fn responses_without_room_are_failures() {
    let mut request = Request::from_packet(get_request(&[9]), PEER_A);
    let head = request.response.as_ref().unwrap().to_bytes().unwrap().len();
    request.response.as_mut().unwrap().payload = b"data".to_vec();
    let asked = naming(CoapOption::Block2, 0, false, 16);
    let mut state = ServerCoapState::new(head + 12, Duration::from_secs(120));
    assert!(state.try_intercept_response(&mut request, None));
    let mut named = Request::from_packet(asked, PEER_A);
    named.response.as_mut().unwrap().payload = b"data".to_vec();
    assert!(state.try_intercept_response(&mut named, None));
    for response in [request.response.as_ref(), named.response.as_ref()] {
        let response = response.unwrap();
        assert_eq!(
            response.header.code,
            MessageClass::Response(ResponseType::InternalServerError)
        );
        assert_eq!(response.payload, b"size cannot be encoded 0".to_vec());
    }

    // One byte less, and not even the head fits.
    let mut state = ServerCoapState::new(head + 11, Duration::from_secs(120));
    let mut request = Request::from_packet(get_request(&[9]), PEER_A);
    request.response.as_mut().unwrap().payload = b"data".to_vec();
    state.intercept_response(&mut request, None);
    let text = format!(
        "Message too large to encode at any block size: {} exceeds {}",
        head + 11,
        head + 12
    );
    assert_eq!(
        request.response.as_ref().unwrap().payload,
        text.into_bytes()
    );
}

#[test]
fn endpoints_are_told_apart_by_their_numbers() {
    assert_eq!(PEER_A.key(), (4, 0x7F00_0001, 40001, 0, 0));
    let mapped = Endpoint::V6 {
        ip: 0x7F00_0001,
        port: 40001,
        flowinfo: 2,
        scope_id: 3,
    };
    assert_eq!(mapped.key(), (6, 0x7F00_0001, 40001, 2, 3));

    // A body of one is not mixed with that of the other.
    let mut state = coap_state();
    let mut first = naming(CoapOption::Block1, 0, true, 16);
    first.payload = vec![1; 16];
    state.intercept_request(&mut Request::from_packet(first, PEER_A));
    let mut last = naming(CoapOption::Block1, 1, false, 16);
    last.payload = vec![2; 16];
    let mut request = Request::from_packet(last, mapped);
    state.intercept_request(&mut request);
    assert_eq!(request.message.payload, [vec![0; 16], vec![2; 16]].concat());
    assert_eq!(request.source, Some(mapped));
}

#[test]
fn exchanges_are_remembered_until_they_expire() {
    let upload = |expiry: Duration| {
        let mut state = ServerCoapState::new(1152, expiry);
        let mut first = naming(CoapOption::Block1, 0, true, 16);
        first.payload = vec![1; 16];
        state.intercept_request(&mut Request::from_packet(first, PEER_A));
        let mut last = naming(CoapOption::Block1, 1, false, 16);
        last.payload = vec![2; 16];
        let mut request = Request::from_packet(last, PEER_A);
        state.intercept_request(&mut request);
        request.message.payload
    };
    assert_eq!(
        upload(Duration::from_secs(120)),
        [vec![1; 16], vec![2; 16]].concat()
    );
    assert_eq!(
        upload(Duration::ZERO),
        [vec![0; 16], vec![2; 16]].concat()
    );
}
