use catten_services::nvme::{
    admin_sqe, check_transfer, device_info, doorbell, doorbell_stride, nvm_sqe, prepare_prps,
    quiesce_step, read_completion, read_namespace, transfer_pages, AdminCommand, BlockError,
    Completion, Driver, Init, InitAction, InitEvent, InitStage, IoState, Namespace, NvmCommand,
    Pending, QuiesceAction, QuiesceEvent, QuiesceStage, Ring, ADMIN_CREATE_IO_CQ,
    ADMIN_CREATE_IO_SQ, ADMIN_GET_FEATURES, ADMIN_IDENTIFY, ADMIN_SET_FEATURES, NVM_READ,
};

#[test]
fn doorbells_follow_the_stride() {
    assert_eq!(doorbell_stride(0), 4);
    assert_eq!(doorbell_stride(0x13), 32);
    assert_eq!(doorbell_stride(15), 131072);
    assert_eq!(doorbell(0, 4), 0x1000);
    assert_eq!(doorbell(3, 8), 0x1018);
}

#[test]
fn entries_have_their_fields_in_place() {
    let admin = AdminCommand { opcode: 6, nsid: 1, cdw10: 2, cdw11: 3, prp1: 0x7000 };
    assert_eq!(
        admin_sqe(0x1_0005, &admin),
        [0x0000_0001_0005_0006, 0, 0, 0x7000, 0, 0x0000_0003_0000_0002, 0, 0]
    );
    let read = NvmCommand {
        opcode: NVM_READ,
        nsid: 1,
        start_lba: 0x1_0000_0000,
        nblocks: 8,
        prp1: 0x7000,
        prp2: 0x8000,
    };
    assert_eq!(
        nvm_sqe(2, &read),
        [0x0000_0001_0002_0002, 0, 0, 0x7000, 0x8000, 0x1_0000_0000, 7, 0]
    );
    assert_eq!(nvm_sqe(2, &NvmCommand { nblocks: 0, ..read })[6], 0);
}

#[test]
fn completions_are_unpacked() {
    assert_eq!(
        read_completion(0x0007_0021),
        Completion { cid: 0x21, phase: 1, status: 3 }
    );
}

#[test]
fn the_phase_turns_with_each_lap() {
    let mut ring = Ring::new();
    for lap in 0..3u32 {
        let phase = (lap + 1) % 2;
        for slot in 0..4u32 {
            assert_eq!(ring.submit(4), slot);
            assert_eq!(ring.take(4, (1 - phase) << 16), None);
            let done = ring.take(4, (phase << 16) | slot).unwrap();
            assert_eq!(done.cid as u32, slot);
        }
    }
}

#[test]
fn transfers_are_described_by_pages() {
    assert_eq!(transfer_pages(0), None);
    assert_eq!(transfer_pages(1), Some(1));
    assert_eq!(transfer_pages(4097), Some(2));
    assert_eq!(transfer_pages(2_097_152), Some(512));
    assert_eq!(transfer_pages(2_097_153), None);
    let one = prepare_prps(0x10000, 1);
    assert_eq!((one.first, one.second, one.list.len()), (0x10000, 0, 0));
    let two = prepare_prps(0x10000, 2);
    assert_eq!((two.first, two.second, two.list.len()), (0x10000, 0x11000, 0));
    let four = prepare_prps(0x10000, 4);
    assert_eq!((four.first, four.second), (0x10000, 0));
    assert_eq!(four.list, vec![0x11000, 0x12000, 0x13000]);
}

#[test]
fn namespaces_are_read_from_their_page() {
    let mut page = vec![0u8; 4096];
    page[0] = 0x00;
    page[1] = 0x10;
    page[26] = 0x01;
    page[134] = 12;
    assert_eq!(read_namespace(&page), Some(Namespace { blocks: 4096, block_size: 4096 }));
    page[134] = 9;
    assert_eq!(read_namespace(&page), Some(Namespace { blocks: 4096, block_size: 512 }));
    page[134] = 13;
    assert_eq!(read_namespace(&page), None);
    page[134] = 8;
    assert_eq!(read_namespace(&page), None);
}

#[test]
fn bring_up_ends_with_both_queues() {
    let mut init = Init::new();
    let allocated = |address: u64| InitEvent::Allocated { address: Some(address) };
    assert_eq!(init.step(InitEvent::Waited { ok: true }), InitAction::ReadCapabilities);
    assert_eq!(
        init.step(InitEvent::Capabilities { high: 1 }),
        InitAction::Allocate { bytes: 2048 }
    );
    assert_eq!(init.step(allocated(0x1000)), InitAction::Allocate { bytes: 512 });
    assert_eq!(
        init.step(allocated(0x2000)),
        InitAction::Enable {
            attributes: 0x001f_001f,
            admin_sq: 0x1000,
            admin_cq: 0x2000,
            configuration: 0x0046_0001,
        }
    );
    assert_eq!(init.step(InitEvent::Waited { ok: true }), InitAction::Allocate { bytes: 4096 });
    let mut submitted = vec![];
    let namespace = Namespace { blocks: 1000, block_size: 512 };
    let events = [
        allocated(0x3000),
        InitEvent::Completed { status: 0 },
        allocated(0x4000),
        InitEvent::Completed { status: 0 },
        InitEvent::Completed { status: 0 },
        allocated(0x5000),
        InitEvent::Completed { status: 0 },
        InitEvent::Namespace { namespace: Some(namespace) },
        allocated(0x6000),
        InitEvent::Completed { status: 0 },
        allocated(0x7000),
        InitEvent::Completed { status: 0 },
    ];
    let mut last = InitAction::Abort;
    for event in events {
        last = init.step(event);
        if let InitAction::Submit { command } = last {
            submitted.push(command.opcode);
        }
    }
    assert_eq!(last, InitAction::Done);
    assert_eq!(init.stage, InitStage::Ready);
    assert_eq!(init.detail, 18);
    assert_eq!(init.stride, 8);
    assert_eq!(init.namespace, namespace);
    assert_eq!(
        submitted,
        vec![
            ADMIN_IDENTIFY,
            ADMIN_GET_FEATURES,
            ADMIN_SET_FEATURES,
            ADMIN_IDENTIFY,
            ADMIN_CREATE_IO_CQ,
            ADMIN_CREATE_IO_SQ,
        ]
    );
}

#[test]
fn bring_up_failures_leave_their_detail() {
    let mut init = Init::new();
    assert_eq!(init.step(InitEvent::Waited { ok: false }), InitAction::Abort);
    assert_eq!(init.detail, 0xe1);
    let mut init = Init { stage: InitStage::Enabling, detail: 13, ..Init::new() };
    init.step(InitEvent::Waited { ok: false });
    assert_eq!(init.detail, 0xe2);
    let mut init = Init { stage: InitStage::IdentifyingController, detail: 19, ..Init::new() };
    init.step(InitEvent::Completed { status: 0xffff });
    assert_eq!(init.detail, 20);
    let mut init = Init { stage: InitStage::CreatingIoCq, detail: 16, ..Init::new() };
    init.step(InitEvent::Completed { status: 0xffff });
    assert_eq!(init.detail, 0xe0);
    let mut init = Init { stage: InitStage::CreatingIoCq, detail: 16, ..Init::new() };
    init.step(InitEvent::Completed { status: 1 });
    assert_eq!(init.detail, 16);
    let mut init = Init { stage: InitStage::ReadingNamespace, detail: 16, ..Init::new() };
    assert_eq!(init.step(InitEvent::Namespace { namespace: None }), InitAction::Abort);
    assert_eq!(init.stage, InitStage::Failed);
}

#[test]
fn a_full_queue_takes_no_more() {
    let mut io = IoState::new();
    for slot in 0..63 {
        let submission = io.submit_io(NVM_READ, 0, 1, 0x1000, 0).unwrap();
        assert_eq!(submission.slot, slot);
        assert_eq!(submission.tail, (slot + 1) % 64);
    }
    assert!(io.submit_io(NVM_READ, 0, 1, 0x1000, 0).is_none());
    assert_eq!(io.poll_completions(0), None);
    let done = io.poll_completions(0x1_0000).unwrap();
    assert_eq!(done, Completion { cid: 0, phase: 1, status: 0 });
    let submission = io.submit_io(NVM_READ, 0, 1, 0x1000, 0).unwrap();
    assert_eq!((submission.slot, submission.tail), (63, 0));
}

#[test]
fn a_completion_takes_its_own_request() {
    let mut driver = Driver::new();
    let first = Pending { reply: 1, prp_list: 2, prp_iova: 3, data_iova: 4 };
    let second = Pending { reply: 5, prp_list: 0, prp_iova: 0, data_iova: 6 };
    let none = Pending { reply: 0, prp_list: 0, prp_iova: 0, data_iova: 0 };
    let slot1 = driver.submit(NVM_READ, 0, 1, 0x1000, 0, first).unwrap().slot;
    let slot2 = driver.submit(NVM_READ, 8, 1, 0x2000, 0, second).unwrap().slot;
    assert_eq!(driver.take_pending(slot2 as u16), second);
    assert_eq!(driver.take_pending(slot1 as u16), first);
    assert_eq!(driver.take_pending(slot1 as u16), none);
}

#[test]
fn transfers_outside_the_namespace_are_refused() {
    let namespace = Namespace { blocks: 100_000, block_size: 512 };
    assert_eq!(check_transfer(&namespace, 0, 8, true), Ok(4096));
    assert_eq!(check_transfer(&namespace, 99_999, 1, true), Ok(512));
    assert_eq!(check_transfer(&namespace, 0, 0, true), Err(BlockError::InvalidRange));
    assert_eq!(check_transfer(&namespace, 99_999, 2, true), Err(BlockError::InvalidRange));
    assert_eq!(check_transfer(&namespace, u64::MAX, 1, true), Err(BlockError::InvalidRange));
    assert_eq!(check_transfer(&namespace, 0, 4097, true), Err(BlockError::Unaligned));
    assert_eq!(check_transfer(&namespace, 0, 8, false), Err(BlockError::Io));
    assert_eq!(device_info(&namespace), (100_000u64 << 32) | 512);
}

#[test]
fn quiescing_flushes_before_it_disables() {
    let ok = QuiesceEvent::Finished { ok: true };
    let (stage, action) = quiesce_step(QuiesceStage::Closing, ok);
    assert_eq!(action, QuiesceAction::Drain);
    let (stage, action) = quiesce_step(stage, ok);
    assert_eq!(action, QuiesceAction::Flush);
    let (stage, action) = quiesce_step(stage, QuiesceEvent::Submitted { cid: Some(4) });
    assert_eq!(action, QuiesceAction::AwaitFlush);
    let wrong = Completion { cid: 5, phase: 1, status: 0 };
    let (failed, action) = quiesce_step(stage, QuiesceEvent::Completed { completion: Some(wrong) });
    assert_eq!((failed, action), (QuiesceStage::Done { ok: false }, QuiesceAction::Stop { ok: false }));
    let right = Completion { cid: 4, phase: 1, status: 0 };
    let (stage, action) = quiesce_step(stage, QuiesceEvent::Completed { completion: Some(right) });
    assert_eq!(action, QuiesceAction::Disable);
    let (stage, action) = quiesce_step(stage, ok);
    assert_eq!(action, QuiesceAction::Release);
    let (stage, action) = quiesce_step(stage, ok);
    assert_eq!(action, QuiesceAction::Stop { ok: true });
    assert_eq!(stage, QuiesceStage::Done { ok: true });
}
