use catten_services::probes::{
    build_payload, expected_members, fill_pattern, first_mismatch, forwards, http_succeeded,
    ingress_members, ip_from_mac, is_server, judge_accept, judge_put, judge_send, patience, peer_of,
    retry_step, test_range, virtual_address, FlowState, Flows, Patience, RetryStep, RouterLayout,
    Task, Tried, BLOCK_BYTES, BLOCK_FACTOR, BLOCK_MASK, HTTP_OK, MESSAGE_BYTES, OBJECT_BYTES,
    OBJECT_FACTOR, OBJECT_MASK, TEST_FRAME,
};

#[test]
fn patience_is_as_long_as_each_task_needs() {
    assert_eq!(patience(Task::Produce), Patience { attempts: 120, pause_ms: 500 });
    assert_eq!(patience(Task::StepInput), Patience { attempts: 120, pause_ms: 100 });
    assert_eq!(patience(Task::Put), Patience { attempts: 240, pause_ms: 500 });
    assert_eq!(patience(Task::Send), Patience { attempts: 300, pause_ms: 100 });
    assert_eq!(patience(Task::ProbeSend), Patience { attempts: 20, pause_ms: 100 });
    assert_eq!(patience(Task::ProbeReceive), Patience { attempts: 50, pause_ms: 100 });
    assert_eq!(patience(Task::Accept), Patience { attempts: 600, pause_ms: 100 });
    assert_eq!(patience(Task::Connect), Patience { attempts: 300, pause_ms: 100 });
    assert_eq!(patience(Task::Members), Patience { attempts: 1_200, pause_ms: 100 });
}

#[test]
fn a_try_is_repeated_until_patience_ends() {
    let short = Patience { attempts: 3, pause_ms: 20 };
    assert_eq!(retry_step(0, Tried::Succeeded, &short), RetryStep::Succeed);
    assert_eq!(retry_step(0, Tried::Failed, &short), RetryStep::Fail);
    assert_eq!(retry_step(0, Tried::NotYet, &short), RetryStep::Again { ms: 20 });
    assert_eq!(retry_step(1, Tried::NotYet, &short), RetryStep::Again { ms: 20 });
    assert_eq!(retry_step(2, Tried::NotYet, &short), RetryStep::GiveUp { ms: 20 });
    let none = Patience { attempts: 0, pause_ms: 20 };
    assert_eq!(retry_step(0, Tried::NotYet, &none), RetryStep::GiveUp { ms: 20 });
}

#[test]
fn answers_are_judged() {
    assert_eq!(judge_send(Some(28), 28, -11), Tried::Succeeded);
    assert_eq!(judge_send(Some(-11), 28, -11), Tried::NotYet);
    assert_eq!(judge_send(Some(5), 28, -11), Tried::Failed);
    assert_eq!(judge_send(None, 28, -11), Tried::Failed);
    assert_eq!(judge_accept(0, -11), Tried::Succeeded);
    assert_eq!(judge_accept(-11, -11), Tried::NotYet);
    assert_eq!(judge_accept(-1, -11), Tried::Failed);
    assert!(judge_put(200));
    assert!(judge_put(201));
    assert!(!judge_put(204));
}

#[test]
fn patterns_are_what_is_written_and_expected() {
    let block = fill_pattern(BLOCK_BYTES, BLOCK_FACTOR, BLOCK_MASK);
    assert_eq!(block.len(), 3 * 4096);
    for i in 0..block.len() {
        assert_eq!(block[i], (i as u8).wrapping_mul(37) ^ 0xa5);
    }
    assert_eq!(first_mismatch(&block, BLOCK_FACTOR, BLOCK_MASK), None);
    let mut torn = block.clone();
    torn[5000] ^= 1;
    torn[6000] ^= 1;
    assert_eq!(first_mismatch(&torn, BLOCK_FACTOR, BLOCK_MASK), Some(5000));
    assert_eq!(OBJECT_BYTES, 2 * 1024 * 1024 + 4096);
    let object = fill_pattern(1000, OBJECT_FACTOR, OBJECT_MASK);
    for i in 0..object.len() {
        assert_eq!(object[i], (i as u8).wrapping_mul(29) ^ 0x6d);
    }
}

#[test]
fn the_message_between_two_nodes_is_long() {
    let payload = build_payload();
    assert_eq!(payload.len(), MESSAGE_BYTES);
    assert_eq!(payload.len(), 70_000);
    for i in 0..payload.len() {
        assert_eq!(payload[i], (i as u8).wrapping_mul(31).wrapping_add(7));
    }
}

#[test]
fn two_nodes_know_each_other() {
    assert_eq!(peer_of([2, 0, 0, 0, 0, 1]), Some([2, 0, 0, 0, 0, 2]));
    assert_eq!(peer_of([2, 0, 0, 0, 0, 2]), Some([2, 0, 0, 0, 0, 1]));
    assert_eq!(peer_of([2, 0, 0, 0, 0, 3]), None);
}

#[test]
fn the_last_blocks_are_tested() {
    assert_eq!(test_range(512, 1000), Some((976, 24)));
    assert_eq!(test_range(4096, 1000), Some((997, 3)));
    assert_eq!(test_range(4096, 3), Some((0, 3)));
    assert_eq!(test_range(4096, 2), None);
    assert_eq!(test_range(256, 1000), None);
    assert_eq!(test_range(8192, 1000), None);
    assert_eq!(test_range(512, 0), None);
}

#[test]
fn peers_take_opposite_parts() {
    assert_eq!(ip_from_mac(&[0, 0, 0, 0, 0, 6]), (106, 107));
    assert_eq!(ip_from_mac(&[0, 0, 0, 0, 0, 255]), (155, 154));
    for last in 0..=255u8 {
        let (local, peer) = ip_from_mac(&[0, 0, 0, 0, 0, last]);
        assert_ne!(is_server(local), is_server(peer));
        assert_eq!(ip_from_mac(&[0, 0, 0, 0, 0, last ^ 1]), (peer, local));
    }
}

#[test]
fn frames_and_requests_are_checked() {
    assert!(forwards(true, true, 4096));
    assert!(!forwards(true, true, 4097));
    assert!(!forwards(false, true, 60));
    assert!(!forwards(true, false, 60));
    assert_eq!(&TEST_FRAME[..6], &[0xff; 6]);
    assert_eq!(&TEST_FRAME[12..14], &[0x08, 0x00]);
    assert_eq!(virtual_address(Some(&[10, 0, 0, 9]), Some(443)), Some(([10, 0, 0, 9], 443)));
    assert_eq!(virtual_address(Some(&[10, 0, 0]), Some(443)), None);
    assert_eq!(virtual_address(Some(&[10, 0, 0, 9]), Some(65_536)), None);
    assert_eq!(virtual_address(None, Some(443)), None);
    assert_eq!(virtual_address(Some(&[10, 0, 0, 9]), None), None);
    assert_eq!(expected_members(None), 1);
    assert_eq!(expected_members(Some(3)), 3);
    assert_eq!(expected_members(Some(1 << 40)), u32::MAX);
}

#[test]
fn members_are_counted() {
    let layout = RouterLayout { words: 3, backends: 1, advertiser: 2 };
    let mut status = vec![0u8; 12];
    status[4] = 2;
    assert_eq!(ingress_members(12, Some(&status), &layout, 3), None);
    assert_eq!(ingress_members(12, Some(&status), &layout, 2), Some(false));
    status[8] = 1;
    assert_eq!(ingress_members(12, Some(&status), &layout, 2), Some(true));
    assert_eq!(ingress_members(11, Some(&status), &layout, 2), None);
    assert_eq!(ingress_members(12, Some(&status[..8]), &layout, 2), None);
    assert_eq!(ingress_members(12, None, &layout, 2), None);
}

#[test]
fn a_good_reply_starts_well() {
    assert_eq!(&HTTP_OK, b"HTTP/1.1 200");
    let reply = b"HTTP/1.1 200 OK\r\n\r\n";
    assert!(http_succeeded(reply, reply.len() as i64));
    assert!(http_succeeded(reply, 1_000));
    assert!(!http_succeeded(reply, 11));
    assert!(!http_succeeded(reply, -1));
    assert!(!http_succeeded(b"HTTP/1.1 404 Not Found", 22));
}

#[test]
fn no_flow_is_lost() {
    let mut flows = Flows::new(vec![10, 11, 12, 13]);
    assert_eq!(flows.current(), Some(10));
    assert_eq!(flows.observed(FlowState::Connecting), None);
    assert_eq!(flows.current(), Some(11));
    assert_eq!(flows.observed(FlowState::Established), None);
    assert_eq!(flows.current(), Some(13));
    assert_eq!(flows.observed(FlowState::Other), Some(13));
    assert_eq!(flows.current(), Some(12));
    assert_eq!(flows.observed(FlowState::Established), None);
    assert_eq!(flows.current(), None);
    assert!(!flows.restart());
    assert_eq!(flows.connecting, vec![10]);
    assert_eq!(flows.established, vec![11, 12]);
    assert_eq!(flows.current(), Some(10));
    assert_eq!(flows.observed(FlowState::Established), None);
    assert!(flows.restart());
}
