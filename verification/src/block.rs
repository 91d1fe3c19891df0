//! Requests to a block device, whichever driver serves it.
use vstd::prelude::*;

use crate::nvme;
use crate::nvme::{BlockError, Namespace};
use crate::virtio;
use crate::wire;

verus! {

/// The numbers of the requests.
#[derive(Clone, Copy, Debug, PartialEq, Eq)]
pub struct Opcodes {
    pub info: u32,
    pub read: u32,
    pub write: u32,
    pub flush: u32,
    pub trim: u32,
}

/// A request by its kind.
#[derive(Clone, Copy, Debug, PartialEq, Eq, Structural)]
pub enum Operation {
    Info,
    Read,
    Write,
    Flush,
    Trim,
    Unknown,
}

/// The kind of request that a number stands for.
pub open spec fn operation_for(codes: Opcodes, opcode: u32) -> Operation {
    if opcode == codes.info {
        Operation::Info
    } else if opcode == codes.read {
        Operation::Read
    } else if opcode == codes.write {
        Operation::Write
    } else if opcode == codes.flush {
        Operation::Flush
    } else if opcode == codes.trim {
        Operation::Trim
    } else {
        Operation::Unknown
    }
}

/// Tell a request's kind by its number.
pub fn operation_of(codes: &Opcodes, opcode: u32) -> (operation: Operation)
    ensures
        operation == operation_for(*codes, opcode),
{
    if opcode == codes.info {
        Operation::Info
    } else if opcode == codes.read {
        Operation::Read
    } else if opcode == codes.write {
        Operation::Write
    } else if opcode == codes.flush {
        Operation::Flush
    } else if opcode == codes.trim {
        Operation::Trim
    } else {
        Operation::Unknown
    }
}

/// What to do about a request.
#[derive(Clone, Copy, Debug, PartialEq, Eq, Structural)]
pub enum Plan {
    /// Nothing: there is nobody to answer.
    Ignore,
    /// Answer with the packed size of the device.
    Info { info: u64 },
    /// Answer with an error.
    Refuse { error: BlockError },
    /// Answer that there is no such request.
    Unsupported,
    /// Move this many bytes, then answer.
    Transfer { write: bool, bytes: u64 },
    /// Make what was written durable, then answer.
    Flush,
}

/// What an NVMe driver does about a request. It has nothing to do for a request
/// that nobody waits for.
pub open spec fn nvme_planned(
    operation: Operation,
    has_reply: bool,
    namespace: Namespace,
    lba: u64,
    count: u32,
    has_memory: bool,
) -> Plan {
    if !has_reply {
        Plan::Ignore
    } else {
        match operation {
            Operation::Info => Plan::Info {
                info: wire::joined(
                    (namespace.blocks % 0x1_0000_0000) as u32,
                    namespace.block_size,
                ),
            },
            Operation::Read | Operation::Write => match nvme::transfer_checked(
                namespace,
                lba,
                count,
                has_memory,
            ) {
                Ok(bytes) => Plan::Transfer { write: operation == Operation::Write, bytes },
                Err(error) => Plan::Refuse { error },
            },
            Operation::Flush => Plan::Flush,
            Operation::Trim => Plan::Refuse { error: BlockError::Io },
            Operation::Unknown => Plan::Unsupported,
        }
    }
}

/// Decide what an NVMe driver does about a request.
pub fn nvme_plan(
    operation: Operation,
    has_reply: bool,
    namespace: &Namespace,
    lba: u64,
    count: u32,
    has_memory: bool,
) -> (plan: Plan)
    ensures
        plan == nvme_planned(operation, has_reply, *namespace, lba, count, has_memory),
{
    if !has_reply {
        return Plan::Ignore;
    }
    match operation {
        Operation::Info => Plan::Info { info: nvme::device_info(namespace) },
        Operation::Read | Operation::Write => match nvme::check_transfer(
            namespace,
            lba,
            count,
            has_memory,
        ) {
            Ok(bytes) => Plan::Transfer { write: operation == Operation::Write, bytes },
            Err(error) => Plan::Refuse { error },
        },
        Operation::Flush => Plan::Flush,
        Operation::Trim => Plan::Refuse { error: BlockError::Io },
        Operation::Unknown => Plan::Unsupported,
    }
}

/// What a virtio driver does about a request. A transfer happens whether or not
/// somebody waits for it.
pub open spec fn virtio_planned(
    operation: Operation,
    has_reply: bool,
    blocks: u32,
    lba: u64,
    count: u32,
    memory: Option<usize>,
) -> Plan {
    match operation {
        Operation::Info => if has_reply {
            Plan::Info { info: wire::joined(blocks, virtio::BLOCK_SIZE) }
        } else {
            Plan::Ignore
        },
        Operation::Read | Operation::Write => match virtio::block_transfer(
            blocks,
            lba,
            count,
            memory,
        ) {
            Some(bytes) => Plan::Transfer {
                write: operation == Operation::Write,
                bytes: bytes as u64,
            },
            None => Plan::Refuse { error: BlockError::InvalidRange },
        },
        Operation::Flush => Plan::Flush,
        Operation::Trim | Operation::Unknown => if has_reply {
            Plan::Unsupported
        } else {
            Plan::Ignore
        },
    }
}

/// Decide what a virtio driver does about a request.
pub fn virtio_plan(
    operation: Operation,
    has_reply: bool,
    blocks: u32,
    lba: u64,
    count: u32,
    memory: Option<usize>,
) -> (plan: Plan)
    ensures
        plan == virtio_planned(operation, has_reply, blocks, lba, count, memory),
{
    match operation {
        Operation::Info => if has_reply {
            Plan::Info { info: wire::join(blocks, virtio::BLOCK_SIZE) }
        } else {
            Plan::Ignore
        },
        Operation::Read | Operation::Write => match virtio::check_block_transfer(
            blocks,
            lba,
            count,
            memory,
        ) {
            Some(bytes) => Plan::Transfer {
                write: operation == Operation::Write,
                bytes: bytes as u64,
            },
            None => Plan::Refuse { error: BlockError::InvalidRange },
        },
        Operation::Flush => Plan::Flush,
        Operation::Trim | Operation::Unknown => if has_reply {
            Plan::Unsupported
        } else {
            Plan::Ignore
        },
    }
}

/// The answer to a request that the device has finished.
pub fn finished(status: u16) -> (answer: Result<(), BlockError>)
    ensures
        answer == if status == 0 {
            Ok::<(), BlockError>(())
        } else {
            Err(BlockError::Io)
        },
{
    if status == 0 {
        Ok(())
    } else {
        Err(BlockError::Io)
    }
}

/// No driver moves a byte outside its device.
pub proof fn law_transfers_stay_on_the_device(
    operation: Operation,
    has_reply: bool,
    namespace: Namespace,
    blocks: u32,
    lba: u64,
    count: u32,
    has_memory: bool,
    memory: Option<usize>,
)
    ensures
        nvme_planned(operation, has_reply, namespace, lba, count, has_memory) is Transfer ==> 0
            < count && lba + count <= namespace.blocks,
        virtio_planned(operation, has_reply, blocks, lba, count, memory) is Transfer ==> 0 < count
            && lba + count <= blocks,
{
}

/// A request is done as asked: only a write writes, its bytes are its blocks', and
/// what does not fit on the device or in the memory is refused.
pub proof fn law_requests_are_planned_as_asked(
    operation: Operation,
    has_reply: bool,
    namespace: Namespace,
    blocks: u32,
    lba: u64,
    count: u32,
    has_memory: bool,
    memory: Option<usize>,
)
    ensures
        ({
            let plan = nvme_planned(operation, has_reply, namespace, lba, count, has_memory);
            &&& !has_reply <==> plan == Plan::Ignore
            &&& plan is Info <==> has_reply && operation == Operation::Info
            &&& plan is Info ==> plan->info == (namespace.blocks as int % 0x1_0000_0000)
                * 0x1_0000_0000 + namespace.block_size
            &&& plan is Transfer ==> operation == Operation::Read || operation == Operation::Write
            &&& plan is Transfer ==> (plan->write <==> operation == Operation::Write)
            &&& plan is Transfer ==> plan->bytes == count * namespace.block_size
            &&& plan == Plan::Flush <==> has_reply && operation == Operation::Flush
            &&& has_reply && operation == Operation::Trim ==> plan == (Plan::Refuse {
                error: BlockError::Io,
            })
            &&& plan == Plan::Unsupported <==> has_reply && operation == Operation::Unknown
        }),
        ({
            let plan = virtio_planned(operation, has_reply, blocks, lba, count, memory);
            &&& plan is Info <==> has_reply && operation == Operation::Info
            &&& plan is Info ==> plan->info == blocks * 0x1_0000_0000 + 512
            &&& plan is Transfer <==> (operation == Operation::Read || operation
                == Operation::Write) && count > 0 && count * 512 <= 0xffff_ffff && memory is Some
                && count * 512 <= memory->0 && lba + count <= blocks
            &&& plan is Transfer ==> (plan->write <==> operation == Operation::Write)
            &&& plan is Transfer ==> plan->bytes == count * 512
            &&& plan is Refuse ==> plan->error == BlockError::InvalidRange && (operation
                == Operation::Read || operation == Operation::Write)
            &&& plan == Plan::Flush <==> operation == Operation::Flush
            &&& plan == Plan::Unsupported <==> has_reply && (operation == Operation::Trim
                || operation == Operation::Unknown)
        }),
{
}

/// A request is read by its own number alone.
pub proof fn law_operations_by_their_number(codes: Opcodes, opcode: u32)
    ensures
        match operation_for(codes, opcode) {
            Operation::Info => opcode == codes.info,
            Operation::Read => opcode == codes.read,
            Operation::Write => opcode == codes.write,
            Operation::Flush => opcode == codes.flush,
            Operation::Trim => opcode == codes.trim,
            Operation::Unknown => opcode != codes.info && opcode != codes.read && opcode
                != codes.write && opcode != codes.flush && opcode != codes.trim,
        },
{
}

} // verus!
