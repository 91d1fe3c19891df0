use catten_services::netdev::{
    accept_features, cfg_vq, clear_slot, describe_frame, features_refused, make_available,
    notify_transmit, pack_network_status, page_number, ready, start, zero_vq, Action, Driver,
    LegacyLayout, Request,
};
use catten_services::virtio::Write;

const LAYOUT: LegacyLayout = LegacyLayout {
    device_status: 18,
    queue_select: 14,
    queue_size: 12,
    queue_address: 8,
    queue_notify: 16,
    status_acknowledge: 1,
    status_driver: 2,
    status_features_ok: 8,
    status_driver_ok: 4,
    transmit_queue: 1,
    desc_size: 16,
    desc_addr: 0,
    desc_length: 8,
    desc_flags: 12,
    flag_write: 2,
    avail_idx: 258,
    avail_ring: 260,
};

fn write(offset: usize, width: u8, value: u64) -> Write {
    Write { offset, width, value }
}

#[test]
fn the_device_is_brought_up() {
    assert_eq!(start(&LAYOUT), vec![write(18, 1, 0), write(18, 1, 1), write(18, 1, 3)]);
    assert_eq!(accept_features(&LAYOUT), write(18, 1, 11));
    assert_eq!(features_refused(&LAYOUT, 11), None);
    assert_eq!(features_refused(&LAYOUT, 3), Some(write(18, 1, 3)));
    assert_eq!(ready(&LAYOUT), write(18, 1, 15));
    assert_eq!(page_number(0x1234_5678), 0x12345);
    assert_eq!(page_number(0xffff_ffff_ffff_f000), 0xffff_ffff);
    assert_eq!(
        cfg_vq(&LAYOUT, 1, 16, 0x12345),
        vec![write(14, 2, 1), write(12, 2, 16), write(8, 4, 0x12345)]
    );
}

#[test]
fn receive_slots_are_described_and_made_available() {
    assert_eq!(
        zero_vq(&LAYOUT, 0x50_0000, 3),
        vec![write(48, 4, 0x50_2000), write(56, 4, 2048), write(60, 2, 2)]
    );
    assert_eq!(make_available(&LAYOUT, 3, 3), vec![write(266, 2, 3), write(258, 2, 4)]);
    assert_eq!(make_available(&LAYOUT, 3, 65535)[1], write(258, 2, 0));
    assert_eq!(clear_slot(&LAYOUT, 2), write(32, 4, 0));
}

#[test]
fn frames_take_the_slots_in_turn() {
    let mut driver = Driver::new();
    for slot in 0..3 {
        assert_eq!(
            driver.handle(Request::Send { frame: 0x9000 }, 5),
            Action::Transmit { slot, frame: 0x9000 }
        );
    }
    assert_eq!(driver.handle(Request::Send { frame: 0 }, 5), Action::Accept);
    assert_eq!(driver.next_slot, 3);
    assert_eq!(
        describe_frame(&LAYOUT, 2, 0x1_0000_9000),
        vec![write(32, 4, 0x9000), write(40, 4, 2048), write(44, 2, 0)]
    );
    assert_eq!(notify_transmit(&LAYOUT), write(16, 2, 1));
}

#[test]
fn one_receiver_waits_for_a_frame() {
    let mut driver = Driver::new();
    assert_eq!(driver.interrupted(1), None);
    assert_eq!(driver.handle(Request::Receive, 0), Action::Ignore);
    assert_eq!(driver.handle(Request::Receive, 5), Action::Wait);
    assert_eq!(driver.handle(Request::Receive, 6), Action::Refuse);
    assert_eq!(driver.interrupted(2), None);
    assert_eq!(driver.interrupted(3), Some(5));
    assert_eq!(driver.interrupted(1), None);
    assert_eq!(driver.handle(Request::Receive, 6), Action::Wait);
}

#[test]
fn other_requests_to_the_network_device() {
    let mut driver = Driver::new();
    assert_eq!(driver.handle(Request::Status, 5), Action::ReplyStatus);
    assert_eq!(driver.handle(Request::Status, 0), Action::Ignore);
    assert_eq!(driver.handle(Request::Shutdown, 5), Action::Stop);
    assert_eq!(driver.handle(Request::Unknown, 5), Action::Refuse);
    assert_eq!(driver, Driver::new());
}

#[test]
fn network_status_gives_back_link_and_address() {
    let mac = [0x52, 0x54, 0, 0x12, 0x34, 0x56];
    let status = pack_network_status(1, &mac);
    assert_eq!(status, 0x0056_3412_0054_5201);
    assert_eq!(status & 1, 1);
    for (i, byte) in mac.iter().enumerate() {
        assert_eq!((status >> (8 * (i + 1))) as u8, *byte);
    }
    assert_eq!(pack_network_status(2, &mac) & 0xff, 0);
}
