use catten_services::virtio::{
    avail_offset, block_request, block_setup, block_succeeded, check_block_transfer, entropy_setup,
    open_start, open_step, usable_blocks, used_length_offset, used_offset,
    vring_pages, BlockKind, Fill, Layout, OpenError, OpenEvent, OpenStage, Want, Write,
};

fn layout() -> Layout {
    Layout {
        device_status: 0x14,
        device_feature_select: 0,
        device_feature: 4,
        driver_feature_select: 8,
        driver_feature: 12,
        queue_select: 0x16,
        queue_size: 0x18,
        queue_vector: 0x1a,
        queue_enable: 0x1c,
        queue_notify_off: 0x1e,
        queue_desc: 0x20,
        queue_driver: 0x28,
        queue_device: 0x30,
        notify_base: 0x3000,
        notify_multiplier: 4,
        status_acknowledge: 1,
        status_driver: 2,
        status_features_ok: 8,
        status_driver_ok: 4,
        feature_version_1: 1,
        feature_access_platform: 2,
        desc_size: 16,
        desc_addr: 0,
        desc_length: 8,
        desc_flags: 12,
        desc_next: 14,
        flag_next: 1,
        flag_write: 2,
        avail_flags: 0,
        avail_idx: 2,
        avail_ring: 4,
        used_idx: 2,
        used_ring: 4,
    }
}

fn write(offset: usize, width: u8, value: u64) -> Write {
    Write { offset, width, value }
}

#[test]
fn rings_are_laid_out_by_pages() {
    let layout = layout();
    assert_eq!(avail_offset(&layout, 8), 128);
    assert_eq!(used_offset(&layout, 8), 4096);
    assert_eq!(vring_pages(&layout, 8), 2);
    assert_eq!(used_offset(&layout, 256), 8192);
    assert_eq!(vring_pages(&layout, 256), 3);
}

#[test]
fn opening_negotiates_and_enables_the_queue() {
    let layout = layout();
    let (stage, step) = open_start(&layout);
    assert_eq!(step.want, Want::Features);
    assert_eq!(
        step.writes,
        vec![write(0x14, 1, 0), write(0x14, 1, 1), write(0x14, 1, 3), write(0, 4, 1)]
    );
    let (stage, step) = open_step(stage, OpenEvent::Features { bits: 7 }, &layout, 0);
    assert_eq!(step.want, Want::Status);
    assert_eq!(step.writes, vec![write(8, 4, 1), write(12, 4, 3), write(0x14, 1, 11)]);
    let (stage, step) = open_step(stage, OpenEvent::Status { bits: 11 }, &layout, 0);
    assert_eq!(step.want, Want::Memory);
    let ring = 0x1_0000_2000;
    let (stage, step) = open_step(stage, OpenEvent::Memory { ring: Some(ring) }, &layout, 0);
    assert_eq!(step.want, Want::QueueSize);
    assert_eq!(step.writes, vec![write(0x16, 2, 0)]);
    let (stage, step) = open_step(stage, OpenEvent::QueueSize { largest: 8 }, &layout, 5);
    assert_eq!(step.want, Want::Notify);
    assert_eq!(
        step.writes,
        vec![
            write(0x1a, 2, 5),
            write(0x18, 2, 8),
            write(0x20, 4, 0x2000),
            write(0x24, 4, 1),
            write(0x28, 4, 0x2080),
            write(0x2c, 4, 1),
            write(0x30, 4, 0x3000),
            write(0x34, 4, 1),
            write(0x1c, 2, 1),
            write(0x14, 1, 15),
        ]
    );
    let (stage, step) = open_step(stage, OpenEvent::Notify { offset: 3 }, &layout, 0);
    assert_eq!(stage, OpenStage::Ready);
    assert_eq!(step.want, Want::Ready { notify: 0x300c });
}

#[test]
fn opening_fails_with_its_reason() {
    let layout = layout();
    let cases = [
        (OpenStage::Features, OpenEvent::Features { bits: 1 }, OpenError::FeaturesMissing),
        (OpenStage::Status, OpenEvent::Status { bits: 3 }, OpenError::FeaturesRefused),
        (OpenStage::Memory, OpenEvent::Memory { ring: None }, OpenError::NoMemory),
        (
            OpenStage::QueueSize { ring: 0x1000 },
            OpenEvent::QueueSize { largest: 7 },
            OpenError::QueueTooSmall,
        ),
        (OpenStage::Status, OpenEvent::Notify { offset: 0 }, OpenError::OutOfOrder),
    ];
    for (stage, event, reason) in cases {
        let (next, step) = open_step(stage, event, &layout, 0);
        assert_eq!(next, OpenStage::Failed);
        assert_eq!(step.want, Want::Fail { reason });
        assert!(step.writes.is_empty());
    }
}

#[test]
fn entropy_is_filled_piece_by_piece() {
    let layout = layout();
    assert_eq!(
        entropy_setup(&layout, 0x9000, 256),
        vec![write(0, 8, 0x9000), write(8, 4, 256), write(12, 2, 2), write(128, 2, 1)]
    );
    assert_eq!(Fill::begin(0, 256), None);
    assert_eq!(Fill::begin(257, 256), None);
    let mut fill = Fill::begin(100, 256).unwrap();
    let offer = fill.request(&layout, 65535);
    assert_eq!(offer.writes, vec![write(8, 4, 100), write(128 + 4 + 14, 2, 0)]);
    assert_eq!(offer.publish, write(130, 2, 0));
    assert_eq!(offer.until, 0);
    assert_eq!(fill.accept(0), None);
    assert_eq!(fill.accept(101), None);
    assert_eq!(fill.accept(60), Some(0));
    assert!(!fill.is_complete());
    let offer = fill.request(&layout, 0);
    assert_eq!(offer.writes, vec![write(8, 4, 40), write(132, 2, 0)]);
    assert_eq!(fill.accept(40), Some(60));
    assert!(fill.is_complete());
    assert_eq!(used_length_offset(&layout, 9), 4096 + 4 + 8 + 4);
}

#[test]
fn block_transfers_are_checked() {
    assert_eq!(usable_blocks(0), None);
    assert_eq!(usable_blocks(1000), Some(1000));
    assert_eq!(usable_blocks(1 << 40), Some(u32::MAX));
    assert_eq!(check_block_transfer(100, 96, 4, Some(2048)), Some(2048));
    assert_eq!(check_block_transfer(100, 97, 4, Some(2048)), None);
    assert_eq!(check_block_transfer(100, 0, 0, Some(2048)), None);
    assert_eq!(check_block_transfer(100, 0, 4, Some(2047)), None);
    assert_eq!(check_block_transfer(100, 0, 4, None), None);
    assert_eq!(check_block_transfer(u32::MAX, 0, 1 << 23, Some(usize::MAX)), None);
    assert_eq!(check_block_transfer(100, u64::MAX, 1, Some(512)), None);
}

#[test]
fn block_requests_chain_three_descriptors() {
    let layout = layout();
    assert_eq!(
        block_setup(&layout, 0x1_0000_8000),
        vec![
            write(0, 4, 0x8000),
            write(4, 4, 1),
            write(8, 4, 16),
            write(12, 2, 1),
            write(14, 2, 1),
            write(32, 4, 0x8010),
            write(36, 4, 1),
            write(40, 4, 1),
            write(44, 2, 2),
            write(46, 2, 0),
        ]
    );
    let read = block_request(&layout, BlockKind::Read, 7, 0x5000, 512, 3);
    assert_eq!(
        read.header,
        vec![write(0, 4, 0), write(4, 4, 0), write(8, 4, 7), write(12, 4, 0), write(16, 1, 0xff)]
    );
    assert_eq!(
        read.offer.writes,
        vec![
            write(14, 2, 1),
            write(16, 4, 0x5000),
            write(20, 4, 0),
            write(24, 4, 512),
            write(28, 2, 3),
            write(30, 2, 2),
            write(138, 2, 0),
        ]
    );
    assert_eq!(read.offer.publish, write(130, 2, 4));
    let flush = block_request(&layout, BlockKind::Flush, 0, 0, 0, 0);
    assert_eq!(flush.header[0], write(0, 4, 4));
    assert_eq!(flush.offer.writes, vec![write(14, 2, 2), write(132, 2, 0)]);
    let stored = block_request(&layout, BlockKind::Write, 0, 0x5000, 512, 0);
    assert_eq!(stored.header[0], write(0, 4, 1));
    assert_eq!(stored.offer.writes[4], write(28, 2, 1));
    assert!(block_succeeded(true, 0));
    assert!(!block_succeeded(true, 1));
    assert!(!block_succeeded(false, 0));
}
