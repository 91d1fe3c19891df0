use catten_services::block::{
    finished, nvme_plan, operation_of, virtio_plan, Opcodes, Operation, Plan,
};
use catten_services::nvme::{BlockError, Namespace};

const NAMESPACE: Namespace = Namespace { blocks: 1000, block_size: 4096 };

#[test]
fn block_requests_are_told_by_their_numbers() {
    let codes = Opcodes { info: 1, read: 2, write: 3, flush: 4, trim: 5 };
    let operations = [
        Operation::Info,
        Operation::Read,
        Operation::Write,
        Operation::Flush,
        Operation::Trim,
        Operation::Unknown,
    ];
    for (index, operation) in operations.iter().enumerate() {
        assert_eq!(operation_of(&codes, index as u32 + 1), *operation);
    }
}

#[test]
fn nvme_requests_are_planned() {
    let plan = |operation, count, memory| nvme_plan(operation, true, &NAMESPACE, 998, count, memory);
    assert_eq!(plan(Operation::Info, 0, false), Plan::Info { info: (1000 << 32) | 4096 });
    assert_eq!(plan(Operation::Read, 2, true), Plan::Transfer { write: false, bytes: 8192 });
    assert_eq!(plan(Operation::Write, 1, true), Plan::Transfer { write: true, bytes: 4096 });
    assert_eq!(
        plan(Operation::Write, 3, true),
        Plan::Refuse { error: BlockError::InvalidRange }
    );
    assert_eq!(plan(Operation::Read, 1, false), Plan::Refuse { error: BlockError::Io });
    assert_eq!(plan(Operation::Flush, 0, false), Plan::Flush);
    assert_eq!(plan(Operation::Trim, 0, false), Plan::Refuse { error: BlockError::Io });
    assert_eq!(plan(Operation::Unknown, 0, false), Plan::Unsupported);
    assert_eq!(nvme_plan(Operation::Write, false, &NAMESPACE, 0, 1, true), Plan::Ignore);
}

#[test]
fn virtio_requests_are_planned() {
    let plan = |operation, count, memory| virtio_plan(operation, true, 1000, 998, count, memory);
    assert_eq!(plan(Operation::Info, 0, None), Plan::Info { info: (1000 << 32) | 512 });
    assert_eq!(
        plan(Operation::Read, 2, Some(4096)),
        Plan::Transfer { write: false, bytes: 1024 }
    );
    assert_eq!(
        plan(Operation::Write, 3, Some(4096)),
        Plan::Refuse { error: BlockError::InvalidRange }
    );
    assert_eq!(plan(Operation::Flush, 0, None), Plan::Flush);
    assert_eq!(plan(Operation::Trim, 0, None), Plan::Unsupported);
    assert_eq!(virtio_plan(Operation::Trim, false, 1000, 0, 0, None), Plan::Ignore);
    assert_eq!(virtio_plan(Operation::Info, false, 1000, 0, 0, None), Plan::Ignore);
}

#[test]
fn finished_requests_have_their_answer() {
    assert_eq!(finished(0), Ok(()));
    assert_eq!(finished(2), Err(BlockError::Io));
}
