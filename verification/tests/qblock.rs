//! Transfers: bursts, reassembly, recovery and the registry of request bodies.
use coap::config::QBlockConfig;
use coap::config::QBlockErrorKind;
use coap::config::TransferKind;
use coap::drive::receive_datagram;
use coap::drive::receive_tick;
use coap::drive::resume_send;
use coap::drive::send_wait;
use coap::drive::ReceiveEvent;
use coap::drive::ReceiveTick;
use coap::drive::SendEvent;
use coap::drive::SendNext;
use coap::drive::SendWait;
use coap::missing_blocks;
use coap::packet::Q_BLOCK1;
use coap::packet::Q_BLOCK2;
use coap::receiver::BlockOutcome;
use coap::receiver::QBlockReceiver;
use coap::receiver::RecoveryOutcome;
use coap::receivers::QBlockReceivers;
use coap::reports::parse_missing_request;
use coap::sender::QBlockSender;
use coap_lite::block_handler::BlockValue;
use coap_lite::option_value::OptionValueU16;
use coap_lite::CoapOption;
use coap_lite::ContentFormat;
use coap_lite::MessageClass;
use coap_lite::MessageType;
use coap_lite::Packet;
use coap_lite::RequestType;
use coap_lite::ResponseType;
use std::collections::HashMap;
use std::collections::HashSet;
use std::time::Duration;

/// (block_num, more, payload) decoded from a Q-Block2 PDU.
fn decode(pdu: &[u8]) -> (u16, bool, Vec<u8>) {
    let pkt = Packet::from_bytes(pdu).unwrap();
    let bv = pkt
        .get_first_option_as::<BlockValue>(CoapOption::from(Q_BLOCK2))
        .unwrap()
        .unwrap();
    (bv.num, bv.more, pkt.payload)
}

fn response_template() -> Packet {
    let mut p = Packet::new();
    p.header.set_type(MessageType::NonConfirmable);
    p.header.code = MessageClass::Response(ResponseType::Content);
    p.set_token(vec![0xAB, 0xCD]);
    p
}

fn sender(body: Vec<u8>, szx: u8, config: QBlockConfig) -> QBlockSender {
    QBlockSender::new(
        response_template(),
        Q_BLOCK2,
        body,
        szx,
        TransferKind::Non,
        config,
        /* seed */ 0,
    )
}

fn request_template() -> Packet {
    let mut p = Packet::new();
    p.header.set_type(MessageType::NonConfirmable);
    p.header.code = MessageClass::Request(RequestType::Get);
    p.set_token(vec![0xAB, 0xCD]);
    p
}

fn receiver() -> QBlockReceiver {
    QBlockReceiver::new(
        Q_BLOCK2,
        request_template(),
        1 << 20,
        QBlockConfig::default(),
    )
}

fn block_pkt(num: u16, more: bool, szx: u8, payload: Vec<u8>) -> Packet {
    let mut p = response_template();
    let bv = BlockValue::new(num as usize, more, 1 << (szx + 4)).unwrap();
    p.add_option_as::<BlockValue>(CoapOption::from(Q_BLOCK2), bv);
    p.payload = payload;
    p
}

fn qblock2_nums(pkt: &Packet) -> Vec<u32> {
    pkt.get_options_as::<BlockValue>(CoapOption::from(Q_BLOCK2))
        .map(|l| {
            l.into_iter()
                .filter_map(|r| r.ok())
                .map(|b| u32::from(b.num))
                .collect()
        })
        .unwrap_or_default()
}

/// Drains the sender fully (no pacing), returning the PDUs in send order.
fn drain_all(tx: &mut QBlockSender) -> Vec<Vec<u8>> {
    let mut sent: Vec<Vec<u8>> = Vec::new();
    while !tx.is_done() {
        tx.drain_burst(&mut sent).unwrap();
    }
    sent
}

fn feed_except(rx: &mut QBlockReceiver, pdus: &[Vec<u8>], drop: &[usize]) -> BlockOutcome {
    let mut last = BlockOutcome::NotQBlock;
    for (i, pdu) in pdus.iter().enumerate() {
        if drop.contains(&i) {
            continue;
        }
        let pkt = Packet::from_bytes(pdu).unwrap();
        last = rx.accept(&pkt).unwrap();
    }
    last
}

fn numbered_blocks(count: u16) -> Vec<u8> {
    (0..count).flat_map(|i| [i as u8; 16]).collect()
}

/// The delay between bursts, as the random part of it says.
fn inter_burst_delay(tx: &mut QBlockSender) -> Duration {
    let fraction = tx.jitter() as f64 / (1u64 << 53) as f64;
    tx.config().non_timeout.mul_f64(1.0 + 0.5 * fraction)
}

#[test]
fn sends_every_block_in_order_with_correct_more_bit() {
    let body = numbered_blocks(25);
    let mut tx = sender(body.clone(), 0, QBlockConfig::default());
    let sent = drain_all(&mut tx);

    assert_eq!(tx.total_blocks(), 25);
    assert_eq!(sent.len(), 25);
    for (n, pdu) in sent.iter().enumerate() {
        let (num, more, payload) = decode(pdu);
        assert_eq!(num as usize, n);
        assert_eq!(more, n < 24, "more bit wrong at block {n}");
        assert_eq!(payload, vec![n as u8; 16]);
    }
}

#[test]
fn bursts_are_max_payloads_sized_and_spaced_by_non_timeout() {
    let body = numbered_blocks(25);
    let config = QBlockConfig {
        max_payloads: 10,
        non_timeout: Duration::from_secs(2),
        ..Default::default()
    };
    let mut tx = sender(body, 0, config);

    // What a clock would show at each send.
    let mut times: Vec<Duration> = Vec::new();
    let mut now = Duration::ZERO;
    loop {
        let mut burst: Vec<Vec<u8>> = Vec::new();
        let sent = tx.drain_burst(&mut burst).unwrap();
        assert_eq!(sent as usize, burst.len());
        for _ in &burst {
            times.push(now);
        }
        if tx.is_done() {
            break;
        }
        now += inter_burst_delay(&mut tx);
    }

    assert_eq!(times.len(), 25);
    for t in &times[0..10] {
        assert_eq!(*t, Duration::ZERO);
    }
    let lo = config.non_timeout;
    let hi = config.non_timeout.mul_f64(1.5);
    let gap1 = times[10] - times[9];
    let gap2 = times[20] - times[19];
    assert!(gap1 >= lo && gap1 < hi, "gap1 {gap1:?} out of range");
    assert!(gap2 >= lo && gap2 < hi, "gap2 {gap2:?} out of range");
    assert_eq!(times[10], times[19]);
    assert_eq!(times[20], times[24]);
}

#[test]
fn single_burst_has_no_inter_burst_delay() {
    // 5 blocks < MAX_PAYLOADS -> one burst, and nothing to wait for after it.
    let mut tx = sender(numbered_blocks(5), 0, QBlockConfig::default());
    let mut sent: Vec<Vec<u8>> = Vec::new();
    assert_eq!(tx.drain_burst(&mut sent), Ok(5));
    assert_eq!(sent.len(), 5);
    assert!(tx.is_done());
    assert_eq!(send_wait(&tx), SendWait::Linger);
}

#[test]
fn loopback_sender_to_receiver_reassembles_body() {
    let body = numbered_blocks(25);
    let mut rx = receiver();
    let mut completed = None;
    for pdu in drain_all(&mut sender(body.clone(), 0, QBlockConfig::default())) {
        let pkt = Packet::from_bytes(&pdu).unwrap();
        if let BlockOutcome::Complete(whole) = rx.accept(&pkt).unwrap() {
            completed = Some(whole);
        }
    }
    assert_eq!(completed.as_ref(), Some(&body));
}

#[test]
fn receiver_reassembles_out_of_order_blocks() {
    let body: Vec<u8> = (0..5u8).flat_map(|i| [i; 16]).collect();
    let mut rx = receiver();

    let order = [4u16, 2, 0, 3, 1];
    for (i, &num) in order.iter().enumerate() {
        let more = num != 4; // block 4 is the last
        let chunk = body[num as usize * 16..num as usize * 16 + 16].to_vec();
        let outcome = rx.accept(&block_pkt(num, more, 0, chunk)).unwrap();
        if i + 1 == order.len() {
            assert_eq!(outcome, BlockOutcome::Complete(body.clone()));
        } else {
            assert_eq!(outcome, BlockOutcome::Accepted);
            assert!(!rx.is_complete());
        }
    }
}

#[test]
fn receiver_handles_partial_final_block() {
    // 40 bytes at szx=0 -> blocks [0..16],[16..32],[32..40] (last is 8 bytes).
    let body: Vec<u8> = (0..40u8).collect();
    let mut rx = receiver();

    assert_eq!(
        rx.accept(&block_pkt(0, true, 0, body[0..16].to_vec()))
            .unwrap(),
        BlockOutcome::Accepted
    );
    assert_eq!(
        rx.accept(&block_pkt(1, true, 0, body[16..32].to_vec()))
            .unwrap(),
        BlockOutcome::Accepted
    );
    assert_eq!(
        rx.accept(&block_pkt(2, false, 0, body[32..40].to_vec()))
            .unwrap(),
        BlockOutcome::Complete(body)
    );
}

#[test]
fn receiver_returns_not_qblock_for_plain_pdu() {
    let mut rx = receiver();
    let mut p = response_template();
    p.payload = b"hello".to_vec();
    assert_eq!(rx.accept(&p).unwrap(), BlockOutcome::NotQBlock);
}

#[test]
fn receiver_rejects_body_exceeding_max() {
    let mut rx = QBlockReceiver::new(
        Q_BLOCK2,
        request_template(),
        32,
        QBlockConfig::default(),
    );
    // Block 10 at szx=0 starts at offset 160, well past the 32-byte cap.
    let err = rx
        .accept(&block_pkt(10, false, 0, vec![0u8; 16]))
        .unwrap_err();
    assert_eq!(err.kind(), QBlockErrorKind::InvalidData);
}

#[test]
fn receiver_rejects_changed_block_size() {
    let mut rx = receiver();
    rx.accept(&block_pkt(0, true, 0, vec![0u8; 16])).unwrap();
    // Second block claims a different szx.
    let err = rx
        .accept(&block_pkt(1, false, 2, vec![0u8; 64]))
        .unwrap_err();
    assert_eq!(err.kind(), QBlockErrorKind::InvalidData);
}

#[test]
fn interior_loss_is_requested_and_recovered() {
    // 25 blocks; lose blocks 3 and 17 on the first pass.
    let body = numbered_blocks(25);
    let mut tx = sender(body.clone(), 0, QBlockConfig::default());
    let first_pass = drain_all(&mut tx);

    let mut rx = receiver();
    assert_eq!(
        feed_except(&mut rx, &first_pass, &[3, 17]),
        BlockOutcome::Accepted
    );
    assert!(!rx.is_complete());

    // Recovery: a missing-block request naming exactly the lost blocks.
    let RecoveryOutcome::Resend(req) = rx.poll_recovery(Duration::from_secs(10)) else {
        panic!("expected a resend request");
    };
    assert_eq!(qblock2_nums(&req), vec![3, 17]);

    // The sender re-queues and resends them; the body then completes.
    tx.refill(&qblock2_nums(&req));
    let resent = drain_all(&mut tx);
    assert_eq!(resent.len(), 2);
    let outcome = feed_except(&mut rx, &resent, &[]);
    assert_eq!(outcome, BlockOutcome::Complete(body));
}

#[test]
fn lost_final_block_is_recovered_via_size_option() {
    let body = numbered_blocks(12);
    let mut tx = sender(body.clone(), 0, QBlockConfig::default());
    let first_pass = drain_all(&mut tx); // 12 blocks (0..=11)

    let mut rx = receiver();
    feed_except(&mut rx, &first_pass, &[11]);
    assert!(!rx.is_complete());
    // The last block was not seen, but Size2 tells which it is.
    assert_eq!(rx.rec_blocks().total_blocks(), None);

    let RecoveryOutcome::Resend(req) = rx.poll_recovery(Duration::from_secs(10)) else {
        panic!("expected a resend request");
    };
    assert_eq!(qblock2_nums(&req), vec![11]);

    tx.refill(&qblock2_nums(&req));
    let resent = drain_all(&mut tx);
    assert_eq!(
        feed_except(&mut rx, &resent, &[]),
        BlockOutcome::Complete(body)
    );
}

#[test]
fn recovery_backoff_doubles_and_caps_at_non_max_retransmit() {
    // 5 blocks, lose block 2; block 4 (More unset) fixes the total.
    let body: Vec<u8> = (0..5u8).flat_map(|i| [i; 16]).collect();
    let mut rx = receiver();
    for n in [0u16, 1, 3, 4] {
        let more = n != 4;
        let chunk = body[n as usize * 16..n as usize * 16 + 16].to_vec();
        rx.accept(&block_pkt(n, more, 0, chunk)).unwrap();
    }

    let base = Duration::from_secs(4); // NON_RECEIVE_TIMEOUT
    // Too early on the first round.
    assert_eq!(
        rx.poll_recovery(Duration::from_secs(3)),
        RecoveryOutcome::Wait(Duration::from_secs(1))
    );

    // Four resends with exponential deadlines 4,8,16,32 s, each naming [2].
    for retry in 0..4u32 {
        let deadline = base * (1 << retry);
        assert_eq!(rx.next_deadline(), Some(deadline));
        let RecoveryOutcome::Resend(req) = rx.poll_recovery(deadline) else {
            panic!("expected resend at retry {retry}");
        };
        assert_eq!(qblock2_nums(&req), vec![2]);
    }
    // Fifth round (deadline 64 s) is past the cap.
    assert_eq!(
        rx.poll_recovery(Duration::from_secs(64)),
        RecoveryOutcome::Expired
    );
}

#[test]
fn accept_resets_recovery_backoff() {
    let body: Vec<u8> = (0..5u8).flat_map(|i| [i; 16]).collect();
    let mut rx = receiver();
    for n in [0u16, 3, 4] {
        let more = n != 4;
        let chunk = body[n as usize * 16..n as usize * 16 + 16].to_vec();
        rx.accept(&block_pkt(n, more, 0, chunk)).unwrap();
    }
    // Spend a retry (deadline 4 s -> retry becomes 1).
    assert!(matches!(
        rx.poll_recovery(Duration::from_secs(4)),
        RecoveryOutcome::Resend(_)
    ));
    // A freshly accepted block resets the backoff: deadline back to 4 s.
    rx.accept(&block_pkt(1, true, 0, body[16..32].to_vec()))
        .unwrap();
    assert_eq!(
        rx.poll_recovery(Duration::from_secs(3)),
        RecoveryOutcome::Wait(Duration::from_secs(1))
    );
}

#[test]
fn qblock1_recovery_builds_408_missing_blocks_cbor_seq() {
    let mut rx = QBlockReceiver::new(
        Q_BLOCK1,
        request_template(),
        1 << 20,
        QBlockConfig::default(),
    );
    // Receive blocks 0 and 2 (More unset) of a 3-block request; lose 1.
    for (num, more) in [(0u16, true), (2, false)] {
        let mut p = Packet::new();
        p.header.set_type(MessageType::NonConfirmable);
        p.header.code = MessageClass::Request(RequestType::Put);
        let bv = BlockValue::new(num as usize, more, 16).unwrap();
        p.add_option_as::<BlockValue>(CoapOption::from(Q_BLOCK1), bv);
        p.payload = vec![num as u8; 16];
        rx.accept(&p).unwrap();
    }

    let RecoveryOutcome::Resend(pdu) = rx.poll_recovery(Duration::from_secs(10)) else {
        panic!("expected a 4.08 resend");
    };
    assert_eq!(
        pdu.header.code,
        MessageClass::Response(ResponseType::RequestEntityIncomplete)
    );
    let cf = pdu
        .get_first_option_as::<OptionValueU16>(CoapOption::ContentFormat)
        .unwrap()
        .unwrap();
    assert_eq!(
        usize::from(cf.0),
        usize::from(ContentFormat::ApplicationMissingBlocksCborSeq)
    );
    assert_eq!(missing_blocks::decode(&pdu.payload).unwrap(), vec![1]);
}

/// A Q-Block1 (large request) sender tagged with `rtag`.
fn q1_sender(body: Vec<u8>, rtag: &[u8]) -> QBlockSender {
    let mut t = Packet::new();
    t.header.set_type(MessageType::NonConfirmable);
    t.header.code = MessageClass::Request(RequestType::Put);
    t.set_token(vec![0x11, 0x22]);
    t.add_option(CoapOption::Unknown(292), rtag.to_vec());
    QBlockSender::new(
        t,
        Q_BLOCK1,
        body,
        0,
        TransferKind::Non,
        QBlockConfig::default(),
        0,
    )
}

#[test]
fn registry_demuxes_concurrent_qblock1_transfers_by_rtag() {
    let body_a: Vec<u8> = (0..12u16).flat_map(|i| [0xA0 | i as u8; 16]).collect();
    let body_b: Vec<u8> = (0..7u16).flat_map(|i| [0xB0 | i as u8; 16]).collect();
    let a = drain_all(&mut q1_sender(body_a.clone(), b"A"));
    let b = drain_all(&mut q1_sender(body_b.clone(), b"B"));

    let mut reg = QBlockReceivers::new(1 << 20, QBlockConfig::default());
    let mut done: HashMap<Vec<u8>, Vec<u8>> = HashMap::new();

    // Interleave the two transfers' blocks.
    for i in 0..a.len().max(b.len()) {
        for pass in [a.get(i), b.get(i)].into_iter().flatten() {
            let pkt = Packet::from_bytes(pass).unwrap();
            if let Some((rtag, BlockOutcome::Complete(body))) = reg.accept(&pkt).unwrap() {
                done.insert(rtag, body);
            }
        }
    }

    assert_eq!(done.get(b"A".as_slice()), Some(&body_a));
    assert_eq!(done.get(b"B".as_slice()), Some(&body_b));
    assert!(reg.is_empty(), "completed transfers should be reaped");
}

#[test]
fn registry_recovers_missing_qblock1_block() {
    let body = numbered_blocks(5);
    let mut tx = q1_sender(body.clone(), b"X");
    let pass1 = drain_all(&mut tx);

    let mut reg = QBlockReceivers::new(1 << 20, QBlockConfig::default());
    for (i, pdu) in pass1.iter().enumerate() {
        if i == 2 {
            continue; // lose block 2
        }
        reg.accept(&Packet::from_bytes(pdu).unwrap()).unwrap();
    }
    assert_eq!(reg.len(), 1);

    // The registry issues a 4.08 naming the missing block.
    let Some(RecoveryOutcome::Resend(req)) = reg.poll_recovery(b"X", Duration::from_secs(10))
    else {
        panic!("expected a 4.08 resend request");
    };
    assert_eq!(missing_blocks::decode(&req.payload).unwrap(), vec![2]);

    // Sender resends; the body completes and the transfer is reaped.
    tx.refill(&[2]);
    let resent = drain_all(&mut tx);
    let mut last = None;
    for pdu in &resent {
        last = reg.accept(&Packet::from_bytes(pdu).unwrap()).unwrap();
    }
    assert!(matches!(last, Some((_, BlockOutcome::Complete(ref b))) if *b == body));
    assert!(reg.is_empty());
}

#[test]
fn registry_ignores_non_qblock1_pdu() {
    let mut reg = QBlockReceivers::new(1 << 20, QBlockConfig::default());
    let mut p = response_template();
    p.payload = b"plain".to_vec();
    assert_eq!(reg.accept(&p).unwrap(), None);
}

/// Sends until the transfer is over, with a channel for reports that is closed from the start.
/// Returns what a clock would show at each send.
fn drive_send_without_reports(tx: &mut QBlockSender) -> Vec<Duration> {
    let mut times: Vec<Duration> = Vec::new();
    let mut now = Duration::ZERO;
    loop {
        let mut burst: Vec<Vec<u8>> = Vec::new();
        tx.drain_burst(&mut burst).unwrap();
        times.extend(burst.iter().map(|_| now));
        let wait = send_wait(tx);
        let mut next = resume_send(tx, wait, SendEvent::Closed);
        if next == SendNext::KeepPausing {
            now += inter_burst_delay(tx);
            next = resume_send(tx, wait, SendEvent::Elapsed);
        }
        match next {
            SendNext::Finish => return times,
            other => assert_eq!(other, SendNext::Burst),
        }
    }
}

#[test]
fn drive_send_sends_whole_body_then_lingers_out() {
    let body = numbered_blocks(25);
    let mut tx = sender(body, 0, QBlockConfig::default());
    let times = drive_send_without_reports(&mut tx);
    assert_eq!(times.len(), 25);
    // Bursts stay paced though no reports can come.
    assert!(times[10] - times[9] >= Duration::from_secs(2));
    assert!(times[20] - times[19] >= Duration::from_secs(2));
}

#[test]
fn drive_receive_assembles_body_without_recovery() {
    let body = numbered_blocks(25);
    let pdus = drain_all(&mut sender(body.clone(), 0, QBlockConfig::default()));
    let mut rx = receiver();
    let mut got = None;
    for pdu in pdus {
        // No recovery request is due on a lossless transfer.
        assert_eq!(
            receive_tick(&mut rx, Duration::ZERO).unwrap(),
            ReceiveTick::Wait(Duration::from_secs(4))
        );
        match receive_datagram(&mut rx, &pdu).unwrap() {
            ReceiveEvent::Complete(whole, _) => {
                got = Some(whole);
                break;
            }
            event => assert_eq!(event, ReceiveEvent::Activity),
        }
    }
    assert_eq!(got, Some(body));
}

#[test]
fn drivers_complete_a_lossy_transfer_end_to_end() {
    let body = numbered_blocks(25);
    let mut tx = sender(body.clone(), 0, QBlockConfig::default());
    let mut rx = receiver();
    // Blocks 3 and 17 are lost once.
    let mut drop_once: HashSet<u16> = [3u16, 17].into_iter().collect();
    let mut got = None;
    let mut waits: u32 = 0;
    'transfer: loop {
        let mut burst: Vec<Vec<u8>> = Vec::new();
        tx.drain_burst(&mut burst).unwrap();
        for pdu in burst {
            if drop_once.remove(&decode(&pdu).0) {
                continue;
            }
            if let ReceiveEvent::Complete(whole, _) = receive_datagram(&mut rx, &pdu).unwrap() {
                got = Some(whole);
                break 'transfer;
            }
        }
        let wait = send_wait(&tx);
        let event = if wait == SendWait::Linger {
            // The receiver's timer is next.
            match receive_tick(&mut rx, Duration::from_secs(4)).unwrap() {
                ReceiveTick::Send(bytes) => {
                    let request = Packet::from_bytes(&bytes).unwrap();
                    SendEvent::Missing(parse_missing_request(&request, Q_BLOCK2))
                }
                other => panic!("expected a request, got {other:?}"),
            }
        } else {
            SendEvent::Elapsed
        };
        waits += 1;
        assert_eq!(resume_send(&mut tx, wait, event), SendNext::Burst);
    }
    assert_eq!(got, Some(body));
    assert_eq!(waits, 3);
}

#[test]
fn many_losses_take_several_rounds() {
    // 40 blocks, of which fifteen are lost.
    let body = numbered_blocks(40);
    let mut tx = sender(body.clone(), 0, QBlockConfig::default());
    let mut rx = receiver();
    let lost: Vec<usize> = (5..20).collect();
    feed_except(&mut rx, &drain_all(&mut tx), &lost);

    let mut rounds: Vec<Vec<u32>> = Vec::new();
    let mut last = BlockOutcome::Accepted;
    while last == BlockOutcome::Accepted {
        let RecoveryOutcome::Resend(req) = rx.poll_recovery(Duration::from_secs(4)) else {
            panic!("expected a resend request");
        };
        let wanted = parse_missing_request(&req, Q_BLOCK2);
        tx.refill(&wanted);
        last = feed_except(&mut rx, &drain_all(&mut tx), &[]);
        rounds.push(wanted);
    }
    assert_eq!(last, BlockOutcome::Complete(body));
    assert_eq!(rounds, vec![(5..15).collect::<Vec<u32>>(), (15..20).collect()]);
}
