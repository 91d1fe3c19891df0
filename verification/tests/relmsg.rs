use std::collections::BTreeMap;

use catten_services::relmsg::{
    decode_request, fragment_message, same_mac, try_assemble, Diagnostics, Frame, FrameHeader,
    FrameOutcome, Limits, MessageHeader, Opcodes, Reassembly, ReceivedMessage, Request, SendError,
    Tick, Transport,
};

const HERE: [u8; 6] = [2, 0, 0, 0, 0, 1];
const THERE: [u8; 6] = [2, 0, 0, 0, 0, 2];
const ELSEWHERE: [u8; 6] = [2, 0, 0, 0, 0, 3];

const LIMITS: Limits = Limits {
    max_msg: 100,
    max_payload: 40,
    max_peers: 2,
    max_retries: 2,
    max_retry_delay_ticks: 2,
};

fn message(len: usize) -> Vec<u8> {
    (0..len).map(|i| i as u8).collect()
}

fn two_nodes() -> (Transport, Transport) {
    (Transport::new(HERE, 10), Transport::new(THERE, 20))
}

fn receive(node: &mut Transport, frame: &Frame) -> Option<FrameHeader> {
    match node.process_frame(&frame.header, &frame.payload, true, &LIMITS) {
        FrameOutcome::Deliver { index, message } => {
            let queued = node.queue_received(
                ReceivedMessage { cap: 1, len: message.len() },
                &LIMITS,
            );
            node.delivered(index, &frame.header, queued, &LIMITS)
        }
        FrameOutcome::Acknowledge { header } => Some(header),
        FrameOutcome::Ignored => None,
        FrameOutcome::Completed { .. } => panic!("nothing was sent"),
    }
}

fn send(node: &mut Transport, destination: [u8; 6], payload: &[u8]) -> Vec<Frame> {
    let index = node.admit_send(destination, payload.len(), &LIMITS).unwrap();
    let frames = node.frames_to(index, payload, &LIMITS);
    let kept = node.frames_to(index, payload, &LIMITS);
    node.sent(index, 99, payload.len(), kept, &LIMITS);
    frames
}

#[test]
fn short_messages_are_one_frame() {
    let frames = fragment_message(THERE, HERE, 10, 5, &message(40), 40);
    assert_eq!(frames.len(), 1);
    assert_eq!(
        frames[0].header,
        FrameHeader {
            destination: THERE,
            source: HERE,
            message: MessageHeader {
                session: 10,
                sequence: 5,
                acknowledgment: 0,
                fragment_offset: 0,
                total_message_len: 40,
                payload_len: 40,
                syn: true,
                ack: false,
                frag: false,
                more: false,
            },
        }
    );
    assert_eq!(frames[0].payload, message(40));
}

#[test]
fn long_messages_are_cut_into_fragments() {
    let frames = fragment_message(THERE, HERE, 10, 5, &message(100), 40);
    let cuts: Vec<(u32, u16, bool, bool)> = frames
        .iter()
        .map(|frame| {
            let header = frame.header.message;
            (header.fragment_offset, header.payload_len, header.frag, header.more)
        })
        .collect();
    assert_eq!(cuts, vec![(0, 40, true, true), (40, 40, true, true), (80, 20, true, false)]);
    let mut whole = vec![];
    for frame in &frames {
        whole.extend_from_slice(&frame.payload);
    }
    assert_eq!(whole, message(100));
}

#[test]
fn assembly_needs_every_byte() {
    let mut fragments = BTreeMap::new();
    fragments.insert(0, vec![1, 2]);
    fragments.insert(3, vec![4]);
    let mut reassembly = Reassembly { seq: 1, fragments, buffered_bytes: 3, total: 4 };
    assert_eq!(try_assemble(&reassembly), None);
    reassembly.fragments.insert(2, vec![3]);
    assert_eq!(try_assemble(&reassembly), Some(vec![1, 2, 3, 4]));
    reassembly.fragments.insert(2, vec![3, 9, 9]);
    assert_eq!(try_assemble(&reassembly), None);
}

#[test]
fn fragments_may_arrive_in_any_order() {
    let orders = [[0, 1, 2], [0, 2, 1], [1, 0, 2], [1, 2, 0], [2, 0, 1], [2, 1, 0]];
    for order in orders {
        let (mut here, mut there) = two_nodes();
        let frames = send(&mut here, THERE, &message(100));
        for index in &order[..2] {
            assert_eq!(receive(&mut there, &frames[*index]), None);
        }
        let last = &frames[order[2]];
        match there.process_frame(&last.header, &last.payload, true, &LIMITS) {
            FrameOutcome::Deliver { message: whole, .. } => assert_eq!(whole, message(100)),
            _ => panic!("the message is not whole"),
        }
    }
}

#[test]
fn an_acknowledged_message_completes_its_sender() {
    let (mut here, mut there) = two_nodes();
    let frames = send(&mut here, THERE, &message(30));
    assert_eq!(here.in_flight(), 1);
    let acknowledgement = receive(&mut there, &frames[0]).unwrap();
    assert_eq!(acknowledgement.message.acknowledgment, 1);
    assert_eq!(acknowledgement.destination, HERE);
    match here.process_frame(&acknowledgement, &[], false, &LIMITS) {
        FrameOutcome::Completed { reply, len } => assert_eq!((reply, len), (99, 30)),
        _ => panic!("the sender was not completed"),
    }
    assert_eq!(here.in_flight(), 0);
}

#[test]
fn old_acknowledgements_complete_nothing() {
    let (mut here, mut there) = two_nodes();
    let frames = send(&mut here, THERE, &message(30));
    let acknowledgement = receive(&mut there, &frames[0]).unwrap();
    let mut old_sequence = acknowledgement;
    old_sequence.message.acknowledgment = 0;
    let mut old_session = acknowledgement;
    old_session.message.session = 9;
    for header in [old_sequence, old_session] {
        assert!(matches!(
            here.process_frame(&header, &[], false, &LIMITS),
            FrameOutcome::Ignored
        ));
    }
    assert_eq!(here.in_flight(), 1);
}

#[test]
fn a_repeated_message_is_acknowledged_again() {
    let (mut here, mut there) = two_nodes();
    let frames = send(&mut here, THERE, &message(30));
    let first = receive(&mut there, &frames[0]).unwrap();
    let second = receive(&mut there, &frames[0]).unwrap();
    assert_eq!(first, second);
    assert_eq!(there.received.len(), 1);
}

#[test]
fn old_sessions_are_refused() {
    let (mut here, mut there) = two_nodes();
    let frames = send(&mut here, THERE, &message(30));
    receive(&mut there, &frames[0]);
    assert_eq!(there.remote_session(&HERE), 10);
    assert_eq!(there.remote_session(&ELSEWHERE), 0);
    let old = fragment_message(THERE, HERE, 9, 1, &message(3), 40);
    assert!(matches!(
        there.process_frame(&old[0].header, &old[0].payload, false, &LIMITS),
        FrameOutcome::Ignored
    ));
    assert_eq!(there.remote_session(&HERE), 10);
    let new = fragment_message(THERE, HERE, 11, 1, &message(3), 40);
    assert!(receive(&mut there, &new[0]).is_some());
    assert_eq!(there.remote_session(&HERE), 11);
}

#[test]
fn frames_for_others_are_ignored() {
    let (_, mut there) = two_nodes();
    let astray = fragment_message(ELSEWHERE, HERE, 10, 1, &message(3), 40);
    let echo = fragment_message(THERE, THERE, 10, 1, &message(3), 40);
    for frames in [astray, echo] {
        assert!(matches!(
            there.process_frame(&frames[0].header, &frames[0].payload, true, &LIMITS),
            FrameOutcome::Ignored
        ));
    }
    assert!(there.peers.is_empty());
}

#[test]
fn a_full_peer_table_ignores_strangers() {
    let (mut here, _) = two_nodes();
    for last in 2..5u8 {
        let source = [2, 0, 0, 0, 0, last];
        let frames = fragment_message(HERE, source, 1, 1, &message(3), 40);
        here.process_frame(&frames[0].header, &frames[0].payload, true, &LIMITS);
    }
    assert_eq!(here.peers.len(), 2);
    assert_eq!(here.admit_send([2, 0, 0, 0, 0, 9], 3, &LIMITS), Err(SendError::Unreachable));
}

#[test]
fn sends_are_admitted_one_at_a_time() {
    let (mut here, _) = two_nodes();
    assert_eq!(here.admit_send(THERE, 0, &LIMITS), Err(SendError::Unknown));
    assert_eq!(here.admit_send(THERE, 101, &LIMITS), Err(SendError::Unknown));
    assert_eq!(here.admit_send(HERE, 3, &LIMITS), Err(SendError::Unknown));
    send(&mut here, THERE, &message(3));
    assert_eq!(here.admit_send(THERE, 3, &LIMITS), Err(SendError::Busy));
    assert_eq!(here.admit_send(ELSEWHERE, 3, &LIMITS), Ok(1));
}

#[test]
fn retries_are_bounded() {
    let (mut here, _) = two_nodes();
    send(&mut here, THERE, &message(100));
    let mut ticks = vec![];
    for _ in 0..7 {
        ticks.push(here.tick(0, &LIMITS));
    }
    assert_eq!(
        ticks,
        vec![
            Tick::Idle,
            Tick::Resend,
            Tick::Idle,
            Tick::Resend,
            Tick::Idle,
            Tick::GiveUp { reply: 99 },
            Tick::Idle,
        ]
    );
    here.abandon(0, Some(12), &LIMITS);
    assert_eq!(here.peers[0].tx_session, 12);
    assert_eq!(here.peers[0].next_tx_seq, 1);
    here.abandon(0, None, &LIMITS);
    assert_eq!(here.admit_send(THERE, 3, &LIMITS), Err(SendError::Unreachable));
}

#[test]
fn received_messages_wait_for_a_reader() {
    let (mut here, _) = two_nodes();
    assert_eq!(here.deliver_received(&LIMITS), None);
    let first = ReceivedMessage { cap: 5, len: 60 };
    let second = ReceivedMessage { cap: 6, len: 70 };
    assert!(here.queue_received(first, &LIMITS));
    assert!(here.queue_received(second, &LIMITS));
    assert!(here.request_receive(41, &LIMITS));
    assert!(!here.request_receive(42, &LIMITS));
    assert_eq!(here.deliver_received(&LIMITS), Some((41, first)));
    assert_eq!(here.deliver_received(&LIMITS), None);
    assert!(here.request_receive(42, &LIMITS));
    assert_eq!(here.deliver_received(&LIMITS), Some((42, second)));
}

#[test]
fn the_receive_queue_is_bounded() {
    let (mut here, _) = two_nodes();
    for _ in 0..4 {
        assert!(here.queue_received(ReceivedMessage { cap: 5, len: 100 }, &LIMITS));
    }
    assert!(!here.has_room(1, &LIMITS));
    assert!(!here.queue_received(ReceivedMessage { cap: 5, len: 1 }, &LIMITS));
    assert!(here.has_room(0, &LIMITS));
    let mut many = Transport::new(HERE, 10);
    for _ in 0..32 {
        assert!(many.queue_received(ReceivedMessage { cap: 5, len: 1 }, &LIMITS));
    }
    assert!(!many.has_room(0, &LIMITS));
}

#[test]
fn a_message_without_room_is_not_acknowledged() {
    let (mut here, mut there) = two_nodes();
    for _ in 0..4 {
        there.queue_received(ReceivedMessage { cap: 5, len: 100 }, &LIMITS);
    }
    let frames = send(&mut here, THERE, &message(30));
    assert_eq!(receive(&mut there, &frames[0]), None);
    there.request_receive(41, &LIMITS);
    there.deliver_received(&LIMITS);
    let acknowledgement = receive(&mut there, &frames[0]).unwrap();
    assert_eq!(acknowledgement.message.acknowledgment, 1);
}

#[test]
fn released_transports_forget_no_sender() {
    let (mut here, _) = two_nodes();
    send(&mut here, THERE, &message(3));
    here.request_receive(41, &LIMITS);
    here.queue_received(ReceivedMessage { cap: 5, len: 1 }, &LIMITS);
    let released = here.release();
    assert_eq!(released.reader, Some(41));
    assert_eq!(released.messages, vec![ReceivedMessage { cap: 5, len: 1 }]);
    assert_eq!(released.senders, vec![99]);
    let counters = Diagnostics { handled: 1, retransmits: 2, send_failures: 3, received: 4 };
    let words: Vec<u32> = here
        .diagnose(&counters, 0xfeed)
        .chunks(4)
        .map(|word| u32::from_le_bytes([word[0], word[1], word[2], word[3]]))
        .collect();
    assert_eq!(words, vec![0xfeed, 1, 1, 2, 3, 4, 1]);
}

#[test]
fn requests_are_told_apart() {
    let codes = Opcodes { send: 1, receive: 2, status: 3, diagnose: 4, frame: 5, shutdown: 6 };
    let decode = |opcode, arg, memory| decode_request(&codes, opcode, arg, memory, 16);
    assert_eq!(decode(1, 0, Some(16)), Request::Send);
    assert_eq!(decode(1, 1, Some(16)), Request::Malformed);
    assert_eq!(decode(1, 0, Some(15)), Request::Malformed);
    assert_eq!(decode(1, 0, None), Request::Malformed);
    assert_eq!(decode(2, 0, None), Request::Receive);
    assert_eq!(decode(3, 0, None), Request::Status);
    assert_eq!(decode(4, 0, None), Request::Diagnose);
    assert_eq!(decode(5, 4096, Some(4096)), Request::Frame { len: 4096 });
    assert_eq!(decode(5, 4097, Some(4096)), Request::Malformed);
    assert_eq!(decode(5, 64, None), Request::Malformed);
    assert_eq!(decode(6, 0, None), Request::Shutdown);
    assert_eq!(decode(7, 0, None), Request::Unknown);
    assert!(same_mac(&HERE, &HERE));
    assert!(!same_mac(&HERE, &THERE));
}
