//! The parts that transfers are made of.
use coap::body::block_size;
use coap::body::count_blocks;
use coap::config::QBlockConfig;
use coap::config::QBlockError;
use coap::config::QBlockErrorKind;
use coap::config::TransferKind;
use coap::drive::receive_datagram;
use coap::drive::receive_message;
use coap::drive::receive_tick;
use coap::drive::resume_send;
use coap::drive::send_wait;
use coap::drive::ReceiveEvent;
use coap::drive::ReceiveTick;
use coap::drive::SendEvent;
use coap::drive::SendNext;
use coap::drive::SendWait;
use coap::missing_blocks::decode;
use coap::missing_blocks::encode;
use coap::missing_blocks::InvalidMissingBlocks;
use coap::packet::size_option;
use coap::packet::BlockValue;
use coap::packet::Q_BLOCK1;
use coap::packet::Q_BLOCK2;
use coap::packet::SIZE1;
use coap::packet::SIZE2;
use coap::range_set::RangeSet;
use coap::range_set::RBLOCK_CNT;
use coap::receiver::BlockOutcome;
use coap::receiver::QBlockReceiver;
use coap::receiver::RecoveryOutcome;
use coap::receivers::QBlockReceivers;
use coap::reports::parse_missing_request;
use coap::reports::report_template;
use coap::reports::request_tag_of;
use coap::sender::QBlockSender;
use coap::table::bytes_equal;
use coap::table::Table;
use coap::time::from_nanos;
use coap::uint::encode_coap_uint;
use coap_lite::CoapOption;
use coap_lite::MessageClass;
use coap_lite::MessageType;
use coap_lite::Packet;
use coap_lite::RequestType;
use std::time::Duration;

fn template(token: &[u8]) -> Packet {
    let mut p = Packet::new();
    p.header.set_type(MessageType::NonConfirmable);
    p.header.code = MessageClass::Request(RequestType::Put);
    p.set_token(token.to_vec());
    p
}

fn sender_of(body: Vec<u8>, szx: u8, max_payloads: u32) -> QBlockSender {
    let config = QBlockConfig {
        max_payloads,
        ..Default::default()
    };
    QBlockSender::new(
        template(&[1]),
        Q_BLOCK2,
        body,
        szx,
        TransferKind::Non,
        config,
        0,
    )
}

fn block(num: u16, more: bool) -> BlockValue {
    BlockValue {
        num,
        more,
        size_exponent: 0,
    }
}

fn receiver_of(max_body_len: usize) -> QBlockReceiver {
    QBlockReceiver::new(
        Q_BLOCK2,
        template(&[1]),
        max_body_len,
        QBlockConfig::default(),
    )
}

#[test]
fn defaults_are_as_documented() {
    let config = QBlockConfig::default();
    assert_eq!(config.max_payloads, 10);
    assert_eq!(config.non_timeout, Duration::from_secs(2));
    assert_eq!(config.non_receive_timeout, Duration::from_secs(4));
    assert_eq!(config.non_max_retransmit, 4);
    assert_eq!(config.non_partial_timeout, Duration::from_secs(247));
    assert_eq!(config.probing_rate, 1);
    assert_eq!(config.nstart, 1);
    assert_eq!(config.non_probing_wait, Duration::from_secs(247));
}

#[test]
fn option_numbers_are_shortest_big_endian() {
    assert_eq!(encode_coap_uint(0), Vec::<u8>::new());
    assert_eq!(encode_coap_uint(255), vec![255]);
    assert_eq!(encode_coap_uint(256), vec![1, 0]);
    assert_eq!(encode_coap_uint(65_536), vec![1, 0, 0]);
    assert_eq!(encode_coap_uint(70_000), vec![1, 0x11, 0x70]);
}

#[test]
fn missing_blocks_are_a_cbor_sequence() {
    let blocks = [0, 23, 24, 255, 256, 65_535, 65_536, u32::MAX];
    let bytes = encode(&blocks);
    assert_eq!(
        bytes,
        vec![
            0x00, 0x17, 0x18, 0x18, 0x18, 0xff, 0x19, 0x01, 0x00, 0x19, 0xff, 0xff, 0x1a, 0x00,
            0x01, 0x00, 0x00, 0x1a, 0xff, 0xff, 0xff, 0xff,
        ]
    );
    assert_eq!(decode(&bytes).unwrap(), blocks.to_vec());
    assert_eq!(decode(&[]).unwrap(), Vec::<u32>::new());
    // Longer spellings are read as well.
    assert_eq!(decode(&[0x1b, 0, 0, 0, 0, 0, 0, 0, 5]).unwrap(), vec![5]);
}

#[test]
fn other_cbor_items_are_refused() {
    assert_eq!(decode(&[0x20]), Err(InvalidMissingBlocks));
    assert_eq!(decode(&[0x19, 0x01]), Err(InvalidMissingBlocks));
    assert_eq!(decode(&[0x01, 0x18]), Err(InvalidMissingBlocks));
    assert_eq!(
        decode(&[0x1b, 0, 0, 0, 1, 0, 0, 0, 0]),
        Err(InvalidMissingBlocks)
    );
}

#[test]
fn bodies_span_whole_blocks() {
    assert_eq!(block_size(0), 16);
    assert_eq!(block_size(6), 1024);
    assert_eq!(count_blocks(0, 16), 1);
    assert_eq!(count_blocks(16, 16), 1);
    assert_eq!(count_blocks(17, 16), 2);
    assert_eq!(sender_of(Vec::new(), 0, 10).total_blocks(), 1);
    assert_eq!(sender_of(vec![0; 33], 0, 10).total_blocks(), 3);
}

#[test]
fn lengths_go_with_their_block_option() {
    assert_eq!(size_option(Q_BLOCK1), SIZE1);
    assert_eq!(size_option(Q_BLOCK2), SIZE2);
    let tx = QBlockSender::new(
        template(&[1]),
        Q_BLOCK1,
        vec![0; 300],
        0,
        TransferKind::Non,
        QBlockConfig::default(),
        0,
    );
    let pdu = Packet::from_bytes(&tx.build_block(0, tx.total_blocks()).unwrap()).unwrap();
    assert_eq!(
        pdu.get_first_option(CoapOption::Size1),
        Some(&vec![1, 44])
    );
    assert_eq!(pdu.get_option(CoapOption::Size2), None);
}

#[test]
fn range_set_counts_gaps() {
    let mut set = RangeSet::new();
    assert!(set.is_empty());
    assert_eq!(set.first(), None);
    // As many runs as there is room for.
    for i in 0..RBLOCK_CNT as u32 {
        assert!(set.insert(2 * i + 1, true));
    }
    // No room for one more run, but runs can grow and join.
    assert!(!set.insert(40, true));
    assert_eq!(set.missing(4), vec![0, 2, 4]);
    assert!(set.insert(2, true));
    assert!(set.insert(40, true));
    assert!(!set.insert(60, true));
    assert_eq!(set.first(), Some(1));
    assert!(set.insert(0, true));
    set.remove(2);
    assert_eq!(set.missing(4), vec![2, 4]);
}

#[test]
fn range_set_learns_the_end() {
    let mut set = RangeSet::new();
    assert!(set.insert(2, false));
    assert_eq!(set.total_blocks(), Some(3));
    assert!(!set.insert(3, true));
    assert!(!set.is_complete());
    assert!(set.insert(0, true));
    assert!(set.insert(1, true));
    assert!(set.is_complete());
    assert_eq!(set.missing(2), Vec::<u32>::new());
    // Duplicates are welcome.
    assert!(set.insert(1, true));
}

#[test]
fn random_numbers_follow_the_seed() {
    // The splitmix64 sequence for seed 0.
    let mut tx = sender_of(vec![0; 16], 0, 10);
    assert_eq!(tx.next_rand(), 0xE220_A839_7B1D_CDAF);
    assert_eq!(tx.next_rand(), 0x6E78_9E6A_A1B9_65F4);
    assert_eq!(tx.jitter(), 0x06C4_5D18_8009_454F >> 11);
}

#[test]
fn bursts_resume_where_they_stopped() {
    let mut tx = sender_of(vec![0; 7 * 16], 0, 3);
    let mut sent: Vec<Vec<u8>> = Vec::new();
    assert_eq!(tx.drain_burst(&mut sent), Ok(3));
    assert!(!tx.is_done());
    assert_eq!(send_wait(&tx), SendWait::Pace);
    assert_eq!(tx.drain_burst(&mut sent), Ok(3));
    assert_eq!(tx.drain_burst(&mut sent), Ok(1));
    assert!(tx.is_done());
    assert_eq!(tx.drain_burst(&mut sent), Ok(0));
    assert_eq!(sent.len(), 7);
    let nums: Vec<Vec<u32>> = sent
        .iter()
        .map(|pdu| parse_missing_request(&Packet::from_bytes(pdu).unwrap(), Q_BLOCK2))
        .collect();
    assert_eq!(nums, (0..7).map(|n| vec![n]).collect::<Vec<Vec<u32>>>());
}

#[test]
fn blocks_are_sent_one_by_one() {
    let mut tx = sender_of(vec![0; 3 * 16], 0, 2);
    assert_eq!(tx.kind(), TransferKind::Non);
    assert_eq!(tx.burst_limit(), 2);
    let (n, first) = tx.next_block(0).unwrap().unwrap();
    assert_eq!(n, 0);
    // Not reported as sent, it comes again.
    assert_eq!(tx.next_block(0).unwrap(), Some((0, first)));
    tx.mark_sent(0);
    assert_eq!(tx.next_block(1).unwrap().unwrap().0, 1);
    tx.mark_sent(1);
    // The burst is full.
    assert_eq!(tx.next_block(2), Ok(None));
    assert_eq!(tx.next_block(0).unwrap().unwrap().0, 2);
    tx.mark_sent(2);
    assert_eq!(tx.next_block(0), Ok(None));
    assert!(tx.is_done());
}

#[test]
fn refill_queues_blocks_of_the_body() {
    let mut tx = sender_of(vec![0; 5 * 16], 0, 10);
    let mut sent: Vec<Vec<u8>> = Vec::new();
    tx.drain_burst(&mut sent).unwrap();
    tx.refill(&[4, 1, 5, 99, 1]);
    sent.clear();
    assert_eq!(tx.drain_burst(&mut sent), Ok(2));
    let nums: Vec<u32> = sent
        .iter()
        .flat_map(|pdu| parse_missing_request(&Packet::from_bytes(pdu).unwrap(), Q_BLOCK2))
        .collect();
    assert_eq!(nums, vec![1, 4]);
}

#[test]
fn a_refill_before_the_first_burst_starts_the_body() {
    let mut tx = sender_of(vec![0; 2 * 16], 0, 10);
    assert!(!tx.is_done());
    tx.refill(&[1]);
    let mut sent: Vec<Vec<u8>> = Vec::new();
    assert_eq!(tx.drain_burst(&mut sent), Ok(2));
}

#[test]
fn blocks_that_cannot_be_named_are_bad_input() {
    // Block 65536 does not fit a block option.
    let tx = sender_of(vec![0; 65_537 * 16], 0, 10);
    let total = tx.total_blocks();
    assert_eq!(total, 65_537);
    let err = tx.build_block(65_536, total).unwrap_err();
    assert!(matches!(err, QBlockError::Block(_)));
    assert_eq!(err.kind(), QBlockErrorKind::InvalidInput);
}

#[test]
fn blocks_that_cannot_be_encoded_are_bad_data() {
    // A block of 2048 bytes is over the size limit of a message.
    let mut tx = sender_of(vec![0; 4096], 7, 10);
    let mut sent: Vec<Vec<u8>> = Vec::new();
    let err = tx.drain_burst(&mut sent).unwrap_err();
    assert!(matches!(err, QBlockError::Encode(_)));
    assert_eq!(err.kind(), QBlockErrorKind::InvalidData);
    assert!(sent.is_empty());
    assert!(!tx.is_done());
}

#[test]
fn an_empty_body_is_one_empty_block() {
    let mut tx = sender_of(Vec::new(), 0, 10);
    let mut sent: Vec<Vec<u8>> = Vec::new();
    assert_eq!(tx.drain_burst(&mut sent), Ok(1));
    let mut rx = receiver_of(0);
    assert_eq!(
        rx.accept(&Packet::from_bytes(&sent[0]).unwrap()).unwrap(),
        BlockOutcome::Complete(Vec::new())
    );
}

#[test]
fn refused_blocks_leave_no_trace() {
    let mut rx = receiver_of(64);
    assert_eq!(
        rx.accept_block(block(3, false), None, &[3; 8]),
        Ok(BlockOutcome::Accepted)
    );
    // Beyond the end.
    assert_eq!(
        rx.accept_block(block(4, true), None, &[]),
        Ok(BlockOutcome::Dropped)
    );
    // Another block size.
    let other = BlockValue {
        num: 0,
        more: true,
        size_exponent: 1,
    };
    assert_eq!(
        rx.accept_block(other, None, &[9; 16]),
        Err(QBlockError::SizeChanged)
    );
    // Too long.
    assert_eq!(
        rx.accept_block(block(3, true), None, &[9; 17]),
        Err(QBlockError::BodyTooLong)
    );
    for n in 0..3u16 {
        let outcome = rx.accept_block(block(n, true), None, &[n as u8; 16]).unwrap();
        if n < 2 {
            assert_eq!(outcome, BlockOutcome::Accepted);
        } else {
            let mut body: Vec<u8> = (0..3u8).flat_map(|i| [i; 16]).collect();
            body.extend([3; 8]);
            assert_eq!(outcome, BlockOutcome::Complete(body));
        }
    }
}

#[test]
fn too_many_gaps_drop_blocks() {
    let mut rx = receiver_of(1 << 16);
    for i in 0..10u16 {
        assert_eq!(
            rx.accept_block(block(2 * i, true), None, &[1; 16]),
            Ok(BlockOutcome::Accepted)
        );
    }
    assert_eq!(
        rx.accept_block(block(40, true), None, &[1; 16]),
        Ok(BlockOutcome::Dropped)
    );
    assert_eq!(
        rx.accept_block(block(1, true), None, &[1; 16]),
        Ok(BlockOutcome::Accepted)
    );
    assert_eq!(
        rx.accept_block(block(40, true), None, &[1; 16]),
        Ok(BlockOutcome::Accepted)
    );
}

#[test]
fn small_bodies_arrive_in_any_order() {
    // Twenty blocks, odd ones first from the end.
    let body: Vec<u8> = (0..20u8).flat_map(|i| [i; 16]).collect();
    let mut order: Vec<u16> = (0..20).rev().filter(|n| n % 2 == 1).collect();
    order.extend((0..20).filter(|n| n % 2 == 0));
    let mut rx = receiver_of(1 << 16);
    for (i, &n) in order.iter().enumerate() {
        let chunk = &body[n as usize * 16..n as usize * 16 + 16];
        let outcome = rx.accept_block(block(n, n != 19), None, chunk).unwrap();
        if i + 1 < order.len() {
            assert_eq!(outcome, BlockOutcome::Accepted);
        } else {
            assert_eq!(outcome, BlockOutcome::Complete(body.clone()));
        }
    }
}

#[test]
fn nothing_is_asked_for_while_the_end_is_unknown() {
    let mut rx = receiver_of(1 << 16);
    assert!(rx.build_recovery_request().is_none());
    rx.accept_block(block(1, true), None, &[1; 16]).unwrap();
    assert_eq!(
        rx.poll_recovery(Duration::from_secs(5)),
        RecoveryOutcome::Wait(Duration::from_secs(4))
    );
    // The announced length tells the end: 40 bytes are three blocks.
    rx.accept_block(block(1, true), Some(40), &[1; 16]).unwrap();
    let request = rx.build_recovery_request().unwrap();
    assert_eq!(parse_missing_request(&request, Q_BLOCK2), vec![0, 2]);
    assert_eq!(request.get_token(), &[1]);
}

#[test]
fn requests_name_the_lowest_gaps() {
    let config = QBlockConfig {
        max_payloads: 3,
        ..Default::default()
    };
    let mut rx = QBlockReceiver::new(Q_BLOCK2, template(&[1]), 1 << 16, config);
    rx.accept_block(block(9, false), None, &[1; 16]).unwrap();
    rx.accept_block(block(1, true), None, &[1; 16]).unwrap();
    let request = rx.build_recovery_request().unwrap();
    assert_eq!(parse_missing_request(&request, Q_BLOCK2), vec![0, 2, 3]);
}

#[test]
fn requests_of_other_options_are_not_made() {
    let mut rx = QBlockReceiver::new(23, template(&[1]), 1 << 16, QBlockConfig::default());
    rx.accept_block(block(1, false), None, &[1; 16]).unwrap();
    assert!(rx.build_recovery_request().is_none());
    assert_eq!(
        parse_missing_request(&template(&[1]), 23),
        Vec::<u32>::new()
    );
}

#[test]
fn waits_that_cannot_be_expressed_are_noticed() {
    let config = QBlockConfig {
        non_receive_timeout: Duration::MAX,
        ..Default::default()
    };
    let mut rx = QBlockReceiver::new(Q_BLOCK2, template(&[1]), 1 << 16, config);
    assert_eq!(rx.next_deadline(), Some(Duration::MAX));
    rx.accept_block(block(1, false), None, &[1; 16]).unwrap();
    assert!(matches!(
        rx.poll_recovery(Duration::MAX),
        RecoveryOutcome::Resend(_)
    ));
    assert_eq!(rx.next_deadline(), None);
}

#[test]
fn reports_that_list_nothing_readable_ask_for_nothing() {
    let mut report = template(&[1]);
    report.payload = vec![0x20];
    assert_eq!(parse_missing_request(&report, Q_BLOCK1), Vec::<u32>::new());
    report.payload = vec![1, 2];
    assert_eq!(parse_missing_request(&report, Q_BLOCK1), vec![1, 2]);
    assert_eq!(parse_missing_request(&report, Q_BLOCK2), Vec::<u32>::new());
    // A value of three bytes is no block.
    report.add_option(CoapOption::from(Q_BLOCK2), vec![1, 2, 3]);
    report.add_option(CoapOption::from(Q_BLOCK2), vec![0x50]);
    assert_eq!(parse_missing_request(&report, Q_BLOCK2), vec![5]);
}

#[test]
fn tags_may_be_missing_or_empty() {
    let mut packet = template(&[1]);
    assert_eq!(request_tag_of(&packet), Vec::<u8>::new());
    packet.add_option(CoapOption::Unknown(292), Vec::new());
    assert_eq!(request_tag_of(&packet), Vec::<u8>::new());
    let tagged = report_template(vec![7], b"tag");
    assert_eq!(request_tag_of(&tagged), b"tag".to_vec());
    assert_eq!(tagged.get_token(), &[7]);
    assert_eq!(tagged.header.get_type(), MessageType::NonConfirmable);
    let untagged = report_template(vec![7], b"");
    assert!(untagged.get_option(CoapOption::Unknown(292)).is_none());
}

#[test]
fn failed_blocks_leave_their_transfer_open() {
    let mut reg = QBlockReceivers::new(16, QBlockConfig::default());
    let mut packet = template(&[1]);
    packet.add_option(CoapOption::from(Q_BLOCK1), vec![0x10]);
    packet.payload = vec![1; 16];
    assert_eq!(reg.accept(&packet), Err(QBlockError::BodyTooLong));
    assert_eq!(reg.len(), 1);
    // A Q-Block1 option that does not decode is no block, but opens a transfer.
    let mut broken = template(&[1]);
    broken.add_option(CoapOption::Unknown(292), b"B".to_vec());
    broken.add_option(CoapOption::from(Q_BLOCK1), vec![1, 2, 3]);
    assert_eq!(
        reg.accept(&broken),
        Ok(Some((b"B".to_vec(), BlockOutcome::NotQBlock)))
    );
    assert_eq!(reg.len(), 2);
}

#[test]
fn expired_transfers_are_removed() {
    let config = QBlockConfig {
        non_max_retransmit: 0,
        ..Default::default()
    };
    let mut reg = QBlockReceivers::new(1 << 16, config);
    assert_eq!(reg.poll_recovery(b"", Duration::from_secs(9)), None);
    let mut packet = template(&[1]);
    packet.add_option(CoapOption::from(Q_BLOCK1), vec![0x18]);
    packet.payload = vec![1; 16];
    assert_eq!(reg.next_deadline(b""), None);
    reg.accept(&packet).unwrap();
    assert_eq!(reg.next_deadline(b""), Some(Duration::from_secs(4)));
    assert_eq!(
        reg.poll_recovery(b"", Duration::from_secs(3)),
        Some(RecoveryOutcome::Wait(Duration::from_secs(1)))
    );
    assert!(!reg.is_empty());
    let mut tagged = packet.clone();
    tagged.add_option(CoapOption::Unknown(292), b"B".to_vec());
    reg.accept(&tagged).unwrap();
    assert_eq!(reg.len(), 2);
    assert_eq!(
        reg.poll_recovery(b"", Duration::from_secs(4)),
        Some(RecoveryOutcome::Expired)
    );
    assert_eq!(reg.len(), 1);
    assert_eq!(reg.poll_recovery(b"", Duration::from_secs(4)), None);
    assert_eq!(reg.len(), 1);
    assert_eq!(
        reg.poll_recovery(b"B", Duration::from_secs(4)),
        Some(RecoveryOutcome::Expired)
    );
    assert!(reg.is_empty());
}

#[test]
fn datagrams_that_are_no_message_are_ignored() {
    let mut rx = receiver_of(1 << 16);
    assert_eq!(
        receive_datagram(&mut rx, &[0xff]).unwrap(),
        ReceiveEvent::Ignored
    );
    // A message without a block counts for nothing either.
    let plain = template(&[1]).to_bytes().unwrap();
    assert_eq!(
        receive_datagram(&mut rx, &plain).unwrap(),
        ReceiveEvent::Ignored
    );
    assert_eq!(receive_message(&mut rx, None).unwrap(), ReceiveEvent::Ignored);
    assert_eq!(
        receive_tick(&mut rx, Duration::ZERO).unwrap(),
        ReceiveTick::Wait(Duration::from_secs(4))
    );
}

#[test]
fn only_recorded_blocks_restart_the_recovery_time() {
    let mut rx = receiver_of(1 << 16);
    let pdu = |num: u16, more: bool| {
        let mut p = template(&[1]);
        p.add_option(
            CoapOption::from(Q_BLOCK2),
            encode_coap_uint(num as usize * 16 + if more { 8 } else { 0 }),
        );
        p.payload = vec![num as u8; 16];
        p.to_bytes().unwrap()
    };
    for (num, more) in [(0, true), (2, false)] {
        assert_eq!(
            receive_datagram(&mut rx, &pdu(num, more)).unwrap(),
            ReceiveEvent::Activity
        );
    }
    // Three seconds later a message without a block comes in, and one beyond the end.
    let plain = template(&[1]).to_bytes().unwrap();
    assert_eq!(
        receive_datagram(&mut rx, &plain).unwrap(),
        ReceiveEvent::Ignored
    );
    assert_eq!(
        receive_datagram(&mut rx, &pdu(9, true)).unwrap(),
        ReceiveEvent::Ignored
    );
    // The request is still due four seconds after the last recorded block.
    assert_eq!(
        receive_tick(&mut rx, Duration::from_secs(3)).unwrap(),
        ReceiveTick::Wait(Duration::from_secs(1))
    );
    let ReceiveTick::Send(bytes) = receive_tick(&mut rx, Duration::from_secs(4)).unwrap() else {
        panic!("expected a request");
    };
    let request = Packet::from_bytes(&bytes).unwrap();
    assert_eq!(parse_missing_request(&request, Q_BLOCK2), vec![1]);
}

#[test]
fn a_stalled_receive_is_given_up() {
    let mut rx = receiver_of(1 << 16);
    rx.accept_block(block(1, false), None, &[1; 16]).unwrap();
    for round in 0..4u32 {
        let due = Duration::from_secs(4 << round);
        assert!(matches!(
            receive_tick(&mut rx, due).unwrap(),
            ReceiveTick::Send(_)
        ));
    }
    assert_eq!(
        receive_tick(&mut rx, Duration::from_secs(64)).unwrap(),
        ReceiveTick::GiveUp
    );
}

#[test]
fn a_sender_goes_on_until_nothing_is_reported() {
    let mut tx = sender_of(vec![0; 16], 0, 10);
    let mut sent: Vec<Vec<u8>> = Vec::new();
    tx.drain_burst(&mut sent).unwrap();
    assert_eq!(
        resume_send(&mut tx, SendWait::Linger, SendEvent::Missing(vec![0])),
        SendNext::Burst
    );
    assert!(!tx.is_done());
    assert_eq!(
        resume_send(&mut tx, SendWait::Pace, SendEvent::Elapsed),
        SendNext::Burst
    );
    // That no more reports can come does not end the pause.
    assert_eq!(
        resume_send(&mut tx, SendWait::Pace, SendEvent::Closed),
        SendNext::KeepPausing
    );
    assert_eq!(
        resume_send(&mut tx, SendWait::Pace, SendEvent::Missing(vec![0])),
        SendNext::Burst
    );
    tx.drain_burst(&mut sent).unwrap();
    assert_eq!(sent.len(), 2);
    assert_eq!(
        resume_send(&mut tx, SendWait::Linger, SendEvent::Elapsed),
        SendNext::Finish
    );
    assert_eq!(
        resume_send(&mut tx, SendWait::Linger, SendEvent::Closed),
        SendNext::Finish
    );
}

#[test]
fn tables_hold_one_value_per_key() {
    let mut table: Table<u8> = Table::new();
    table.insert(vec![1], 1);
    table.insert(vec![], 2);
    table.insert(vec![1], 3);
    assert_eq!(table.len(), 2);
    assert_eq!(table.get(&[1]), Some(&3));
    assert_eq!(table.remove(&[]), Some(2));
    assert_eq!(table.remove(&[]), None);
    assert_eq!(table.get(&[2]), None);
    assert!(bytes_equal(&[1, 2], &[1, 2]));
    assert!(!bytes_equal(&[1, 2], &[1]));
    assert!(!bytes_equal(&[1, 2], &[1, 3]));
}

#[test]
fn spans_are_counted_in_nanoseconds() {
    assert_eq!(from_nanos(0), Duration::ZERO);
    assert_eq!(from_nanos(1_500_000_000), Duration::from_millis(1500));
    assert_eq!(from_nanos(Duration::MAX.as_nanos()), Duration::MAX);
}

#[test]
fn outcomes_can_be_copied() {
    let resend = RecoveryOutcome::Resend(template(&[1]));
    assert_eq!(resend.clone(), resend);
    let wait = RecoveryOutcome::Wait(Duration::from_secs(1));
    assert_eq!(wait.clone(), wait);
    assert_eq!(RecoveryOutcome::Expired.clone(), RecoveryOutcome::Expired);
}
