//! An NVMe controller driver's queues, commands and decisions.
//!
//! Register access, queue memory and interrupts are the caller's. This module
//! builds the commands, reads the completions, decides each bring-up and
//! shutdown step, and keeps the requests that wait for their completion.
use vstd::prelude::*;

use crate::wire;

verus! {

/// Entries of the admin queues.
pub const ADMIN_QUEUE_SIZE: u32 = 32;

/// Entries of the I/O queues.
pub const IO_QUEUE_SIZE: u32 = 64;

/// Bytes of a page.
pub const PAGE_SIZE: u64 = 4096;

/// One PRP-list page holds 512 device-visible page addresses. Transfers are
/// capped at 512 data pages so that a request never needs chained PRP lists.
pub const MAX_TRANSFER_PAGES: usize = 512;

/// The most bytes that one request moves.
pub const MAX_TRANSFER_BYTES: u64 = 2_097_152;

/// Requests that can wait for their completion.
pub const MAX_PENDING: usize = 64;

/// The admin status of a command that never completed.
pub const ADMIN_STATUS_TIMEOUT: u32 = 0xffff;

/// Doorbells start here.
pub const DOORBELL_BASE: usize = 0x1000;

pub const ADMIN_CREATE_IO_SQ: u8 = 0x01;

pub const ADMIN_CREATE_IO_CQ: u8 = 0x05;

pub const ADMIN_IDENTIFY: u8 = 0x06;

pub const ADMIN_SET_FEATURES: u8 = 0x09;

pub const ADMIN_GET_FEATURES: u8 = 0x0a;

pub const NVM_FLUSH: u8 = 0x00;

pub const NVM_WRITE: u8 = 0x01;

pub const NVM_READ: u8 = 0x02;

/// Controller configuration with the controller enabled and the entry sizes
/// set: 64-byte commands and 16-byte completions.
pub const CC_ENABLED: u32 = 0x0046_0001;

/// The admin queue attributes: both queues have `ADMIN_QUEUE_SIZE` entries.
pub const ADMIN_QUEUE_ATTRIBUTES: u32 = 0x001f_001f;

/// Bytes between two doorbells, from the upper half of the capabilities.
pub open spec fn stride_of(cap_high: u32) -> nat {
    4 * vstd::arithmetic::power2::pow2((cap_high % 16) as nat)
}

/// Bytes between two doorbells, from the upper half of the capabilities.
pub fn doorbell_stride(cap_high: u32) -> (stride: usize)
    ensures
        stride == stride_of(cap_high),
        4 <= stride <= 131072,
{
    let mut stride: usize = 4;
    let mut index: u32 = 0;
    let exponent: u32 = cap_high % 16;
    proof {
        vstd::arithmetic::power2::lemma2_to64();
    }
    while index < exponent
        invariant
            index <= exponent < 16,
            stride == 4 * vstd::arithmetic::power2::pow2(index as nat),
        decreases exponent - index,
    {
        proof {
            vstd::arithmetic::power2::lemma_pow2_unfold((index + 1) as nat);
            vstd::arithmetic::power2::lemma2_to64();
            vstd::arithmetic::power2::lemma_pow2_strictly_increases(index as nat, 16);
        }
        stride = stride * 2;
        index += 1;
    }
    proof {
        vstd::arithmetic::power2::lemma2_to64();
        if exponent < 15 {
            vstd::arithmetic::power2::lemma_pow2_strictly_increases(exponent as nat, 15);
        }
        vstd::arithmetic::power2::lemma_pow2_pos(exponent as nat);
    }
    stride
}

/// Where a doorbell lies among the registers.
pub open spec fn doorbell_at(number: int, stride: int) -> int {
    DOORBELL_BASE + number * stride
}

/// A doorbell: number 0 is the admin submission tail, 1 the admin completion
/// head, 2 the I/O submission tail and 3 the I/O completion head.
pub fn doorbell(number: usize, stride: usize) -> (offset: usize)
    requires
        number <= 3,
        stride <= 131072,
    ensures
        offset == doorbell_at(number as int, stride as int),
{
    proof {
        assert(number * stride <= 3 * 131072) by (nonlinear_arith)
            requires
                number <= 3,
                stride <= 131072,
        ;
    }
    DOORBELL_BASE + number * stride
}

/// The first double word of a command: its queue slot is its identifier.
pub open spec fn command_dword0(slot: u32, opcode: u8) -> u32 {
    ((slot % 0x1_0000) * 0x1_0000 + opcode) as u32
}

fn dword0(slot: u32, opcode: u8) -> (word: u32)
    ensures
        word == command_dword0(slot, opcode),
{
    (slot % 0x1_0000) * 0x1_0000 + opcode as u32
}

/// An admin command.
#[derive(Clone, Copy, Debug, PartialEq, Eq, Structural)]
pub struct AdminCommand {
    pub opcode: u8,
    pub nsid: u32,
    pub cdw10: u32,
    pub cdw11: u32,
    pub prp1: u64,
}

/// The submission queue entry of an admin command, as eight words:
///   0: command double word 0, and the namespace above it
///   3: PRP1
///   5: CDW10, and CDW11 above it
pub open spec fn admin_entry(slot: u32, command: AdminCommand) -> Seq<u64> {
    seq![
        wire::joined(command.nsid, command_dword0(slot, command.opcode)),
        0,
        0,
        command.prp1,
        0,
        wire::joined(command.cdw11, command.cdw10),
        0,
        0,
    ]
}

/// Build the submission queue entry of an admin command.
pub fn admin_sqe(slot: u32, command: &AdminCommand) -> (entry: [u64; 8])
    ensures
        entry@ == admin_entry(slot, *command),
{
    let entry: [u64; 8] = [
        wire::join(command.nsid, dword0(slot, command.opcode)),
        0,
        0,
        command.prp1,
        0,
        wire::join(command.cdw11, command.cdw10),
        0,
        0,
    ];
    assert(entry@ =~= admin_entry(slot, *command));
    entry
}

/// A read, write or flush command.
#[derive(Clone, Copy, Debug, PartialEq, Eq, Structural)]
pub struct NvmCommand {
    pub opcode: u8,
    pub nsid: u32,
    pub start_lba: u64,
    pub nblocks: u16,
    pub prp1: u64,
    pub prp2: u64,
}

/// The submission queue entry of an NVM command. The block count is stored less
/// one.
pub open spec fn nvm_entry(slot: u32, command: NvmCommand) -> Seq<u64> {
    seq![
        wire::joined(command.nsid, command_dword0(slot, command.opcode)),
        0,
        0,
        command.prp1,
        command.prp2,
        command.start_lba,
        if command.nblocks > 0 {
            (command.nblocks - 1) as u64
        } else {
            0
        },
        0,
    ]
}

/// Build the submission queue entry of an NVM command.
pub fn nvm_sqe(slot: u32, command: &NvmCommand) -> (entry: [u64; 8])
    ensures
        entry@ == nvm_entry(slot, *command),
{
    let last: u64 = if command.nblocks > 0 {
        (command.nblocks - 1) as u64
    } else {
        0
    };
    let entry: [u64; 8] = [
        wire::join(command.nsid, dword0(slot, command.opcode)),
        0,
        0,
        command.prp1,
        command.prp2,
        command.start_lba,
        last,
        0,
    ];
    assert(entry@ =~= nvm_entry(slot, *command));
    entry
}

/// The last double word of a completion, taken apart.
#[derive(Clone, Copy, Debug, PartialEq, Eq, Structural)]
pub struct Completion {
    pub cid: u16,
    pub phase: u8,
    pub status: u16,
}

/// The command identifier is the low half; above it lie the phase bit and the
/// status.
pub open spec fn completion_of(dword3: u32) -> Completion {
    Completion {
        cid: (dword3 % 0x1_0000) as u16,
        phase: (dword3 / 0x1_0000 % 2) as u8,
        status: (dword3 / 0x2_0000) as u16,
    }
}

/// Take the last double word of a completion apart.
pub fn read_completion(dword3: u32) -> (completion: Completion)
    ensures
        completion == completion_of(dword3),
{
    Completion {
        cid: (dword3 % 0x1_0000) as u16,
        phase: (dword3 / 0x1_0000 % 2) as u8,
        status: (dword3 / 0x2_0000) as u16,
    }
}

/// The positions in a submission and a completion queue of `size` entries.
#[derive(Clone, Copy, Debug, PartialEq, Eq, Structural)]
pub struct Ring {
    pub sq_tail: u32,
    pub cq_head: u32,
    /// The phase bit of the next new completion.
    pub cq_phase: u8,
}

/// The next position in a queue.
pub open spec fn advanced(position: u32, size: u32) -> u32 {
    if position + 1 == size {
        0
    } else {
        (position + 1) as u32
    }
}

impl Ring {
    pub open spec fn wf(self, size: u32) -> bool {
        self.sq_tail < size && self.cq_head < size && self.cq_phase <= 1
    }

    /// The ring after a submission.
    pub open spec fn submitted(self, size: u32) -> Ring {
        Ring { sq_tail: advanced(self.sq_tail, size), ..self }
    }

    /// The ring after a completion was taken: the phase turns with each lap.
    pub open spec fn completed(self, size: u32) -> Ring {
        Ring {
            cq_head: advanced(self.cq_head, size),
            cq_phase: if self.cq_head + 1 == size {
                (1 - self.cq_phase) as u8
            } else {
                self.cq_phase
            },
            ..self
        }
    }

    pub fn new() -> (ring: Ring)
        ensures
            ring == (Ring { sq_tail: 0, cq_head: 0, cq_phase: 1 }),
    {
        Ring { sq_tail: 0, cq_head: 0, cq_phase: 1 }
    }

    /// Take the next submission slot.
    pub fn submit(&mut self, size: u32) -> (slot: u32)
        requires
            old(self).wf(size),
        ensures
            slot == old(self).sq_tail,
            *final(self) == old(self).submitted(size),
            final(self).wf(size),
    {
        let slot: u32 = self.sq_tail;
        self.sq_tail = if slot + 1 == size {
            0
        } else {
            slot + 1
        };
        slot
    }

    /// Take a completion, if its phase says that it is new.
    pub fn take(&mut self, size: u32, dword3: u32) -> (completion: Option<Completion>)
        requires
            old(self).wf(size),
        ensures
            final(self).wf(size),
            if completion_of(dword3).phase == old(self).cq_phase {
                completion == Some(completion_of(dword3)) && *final(self) == old(self).completed(size)
            } else {
                completion is None && *final(self) == *old(self)
            },
    {
        let completion: Completion = read_completion(dword3);
        if completion.phase != self.cq_phase {
            return None;
        }
        if self.cq_head + 1 == size {
            self.cq_head = 0;
            self.cq_phase = 1 - self.cq_phase;
        } else {
            self.cq_head = self.cq_head + 1;
        }
        Some(completion)
    }
}

/// Where a command finds its data.
pub struct Prps {
    pub first: u64,
    /// The second page, or zero. With more than two pages, the address of a list
    /// page takes its place.
    pub second: u64,
    /// The list page's entries: every page but the first. Empty without a list.
    pub list: Vec<u64>,
}

/// The page count of a transfer of `bytes`, where one request can move it.
pub open spec fn pages_of(bytes: u64) -> Option<int> {
    let pages = wire::units(bytes as int, PAGE_SIZE as int);
    if 0 < pages <= MAX_TRANSFER_PAGES {
        Some(pages)
    } else {
        None
    }
}

/// The page count of a transfer of `bytes`, where one request can move it.
pub fn transfer_pages(bytes: u64) -> (pages: Option<usize>)
    ensures
        match pages {
            Some(count) => pages_of(bytes) == Some(count as int),
            None => pages_of(bytes) is None,
        },
{
    if bytes == 0 || bytes > MAX_TRANSFER_BYTES {
        return None;
    }
    Some(((bytes + PAGE_SIZE - 1) / PAGE_SIZE) as usize)
}

/// The second page pointer of a transfer without a list; with a list, the
/// caller puts the list's address in its place.
pub open spec fn second_page(first: u64, pages: int) -> int {
    if pages == 2 {
        first + PAGE_SIZE
    } else {
        0
    }
}

/// The pages after the first of a transfer that needs a list.
pub open spec fn listed_pages(first: u64, pages: int) -> Seq<u64> {
    if pages > 2 {
        Seq::new((pages - 1) as nat, |i: int| (first + (i + 1) * PAGE_SIZE) as u64)
    } else {
        Seq::empty()
    }
}

/// Describe `pages` pages that the device sees from `first` on. A one-page
/// request uses PRP1 only, a two-page request uses PRP1 and PRP2, and a larger
/// one has a list of every page but the first.
pub fn prepare_prps(first: u64, pages: usize) -> (prps: Prps)
    requires
        0 < pages <= MAX_TRANSFER_PAGES,
        first + pages * PAGE_SIZE <= u64::MAX,
    ensures
        prps.first == first,
        prps.second == second_page(first, pages as int),
        prps.list@ == listed_pages(first, pages as int),
        pages <= 2 ==> prps.list@.len() == 0,
{
    let mut list: Vec<u64> = Vec::new();
    if pages <= 2 {
        let second: u64 = if pages == 2 {
            first + PAGE_SIZE
        } else {
            0
        };
        return Prps { first, second, list };
    }
    let mut page: usize = 1;
    while page < pages
        invariant
            1 <= page <= pages <= MAX_TRANSFER_PAGES,
            first + pages * PAGE_SIZE <= u64::MAX,
            list@.len() == page - 1,
            forall|i: int|
                0 <= i < list@.len() ==> #[trigger] list@[i] == first + (i + 1) * PAGE_SIZE,
        decreases pages - page,
    {
        list.push(first + page as u64 * PAGE_SIZE);
        page += 1;
    }
    Prps { first, second: 0, list }
}

/// A namespace's size.
#[derive(Clone, Copy, Debug, PartialEq, Eq, Structural)]
pub struct Namespace {
    pub blocks: u64,
    pub block_size: u32,
}

/// The namespace that an identify page describes. The block size is a power of
/// two from 512 to 4096.
pub open spec fn namespace_of(page: Seq<u8>) -> Option<Namespace> {
    let format = (page[26] % 16) as int;
    let exponent = page[130 + 4 * format];
    if 9 <= exponent <= 12 {
        Some(
            Namespace {
                blocks: wire::field(page, 0, 8) as u64,
                block_size: if exponent == 9 {
                    512
                } else if exponent == 10 {
                    1024
                } else if exponent == 11 {
                    2048
                } else {
                    4096
                },
            },
        )
    } else {
        None
    }
}

/// Read a namespace's identify page.
pub fn read_namespace(page: &[u8]) -> (namespace: Option<Namespace>)
    requires
        page@.len() >= PAGE_SIZE,
    ensures
        namespace == namespace_of(page@),
{
    let blocks: u64 = wire::read_le(page, 0, 8);
    let format: usize = (page[26] % 16) as usize;
    let exponent: u8 = page[130 + 4 * format];
    let block_size: u32 = match exponent {
        9 => 512,
        10 => 1024,
        11 => 2048,
        12 => 4096,
        _ => {
            return None;
        },
    };
    Some(Namespace { blocks, block_size })
}

/// How far the controller's bring-up has come.
#[derive(Clone, Copy, Debug, PartialEq, Eq, Structural)]
pub enum InitStage {
    /// Waiting for the disabled controller.
    Resetting,
    /// Waiting for the controller's capabilities.
    Capabilities,
    AllocatingAdminSq,
    AllocatingAdminCq,
    /// Waiting for the enabled controller.
    Enabling,
    AllocatingIdentify,
    IdentifyingController,
    AllocatingFeature,
    GettingFeature,
    SettingQueues,
    AllocatingNamespace,
    IdentifyingNamespace,
    /// Waiting for the namespace's identify page to be read.
    ReadingNamespace,
    AllocatingIoCq,
    CreatingIoCq,
    AllocatingIoSq,
    CreatingIoSq,
    Ready,
    Failed,
}

/// The bring-up's state.
#[derive(Clone, Copy, Debug, PartialEq, Eq, Structural)]
pub struct Init {
    pub stage: InitStage,
    /// Progress or failure code.
    pub detail: u32,
    pub stride: usize,
    pub admin_sq: u64,
    pub admin_cq: u64,
    pub namespace: Namespace,
}

/// What the bring-up asks of the caller.
#[derive(Clone, Copy, Debug, PartialEq, Eq, Structural)]
pub enum InitAction {
    /// Disable the controller and wait until it is not ready.
    Reset,
    /// Read the upper half of the capabilities.
    ReadCapabilities,
    /// Allocate device-visible memory of this many bytes, zeroed.
    Allocate { bytes: usize },
    /// Set the admin queues, enable the controller and wait until it is ready.
    Enable { attributes: u32, admin_sq: u64, admin_cq: u64, configuration: u32 },
    /// Submit an admin command and wait for its status.
    Submit { command: AdminCommand },
    /// Read the namespace's identify page.
    ReadNamespace,
    /// The I/O queues are ready.
    Done,
    /// The controller cannot be used.
    Abort,
}

/// What came of an action.
#[derive(Clone, Copy, Debug, PartialEq, Eq, Structural)]
pub enum InitEvent {
    /// Whether the controller became ready, or not ready, in time.
    Waited { ok: bool },
    Capabilities { high: u32 },
    /// The device address of allocated memory, if there is any.
    Allocated { address: Option<u64> },
    /// The status of an admin command; [`ADMIN_STATUS_TIMEOUT`] if it never
    /// completed.
    Completed { status: u32 },
    Namespace { namespace: Option<Namespace> },
}

/// A failed bring-up. `detail` is its code.
pub open spec fn init_failed(init: Init, detail: u32) -> (Init, InitAction) {
    (Init { stage: InitStage::Failed, detail, ..init }, InitAction::Abort)
}

/// The progress code after an admin command.
pub open spec fn admin_detail(detail: u32, status: u32) -> u32 {
    if status == ADMIN_STATUS_TIMEOUT {
        0xe0
    } else {
        detail
    }
}

/// Asks for `command`.
pub open spec fn init_submits(
    init: Init,
    stage: InitStage,
    detail: u32,
    command: AdminCommand,
) -> (Init, InitAction) {
    (Init { stage, detail, ..init }, InitAction::Submit { command })
}

/// Asks for memory.
pub open spec fn init_allocates(init: Init, stage: InitStage, detail: u32, bytes: usize) -> (
    Init,
    InitAction,
) {
    (Init { stage, detail, ..init }, InitAction::Allocate { bytes })
}

/// The bring-up after an event, and what it asks for next.
pub open spec fn init_next(init: Init, event: InitEvent) -> (Init, InitAction) {
    let detail = init.detail;
    match (init.stage, event) {
        (InitStage::Resetting, InitEvent::Waited { ok }) => if ok {
            (
                Init { stage: InitStage::Capabilities, detail: 11, ..init },
                InitAction::ReadCapabilities,
            )
        } else {
            init_failed(init, 0xe1)
        },
        (InitStage::Capabilities, InitEvent::Capabilities { high }) => init_allocates(
            Init { stride: stride_of(high) as usize, ..init },
            InitStage::AllocatingAdminSq,
            detail,
            2048,
        ),
        (InitStage::AllocatingAdminSq, InitEvent::Allocated { address: Some(at) }) => init_allocates(
            Init { admin_sq: at, ..init },
            InitStage::AllocatingAdminCq,
            12,
            512,
        ),
        (InitStage::AllocatingAdminCq, InitEvent::Allocated { address: Some(at) }) => (
            Init { stage: InitStage::Enabling, detail: 13, admin_cq: at, ..init },
            InitAction::Enable {
                attributes: ADMIN_QUEUE_ATTRIBUTES,
                admin_sq: init.admin_sq,
                admin_cq: at,
                configuration: CC_ENABLED,
            },
        ),
        (InitStage::Enabling, InitEvent::Waited { ok }) => if ok {
            init_allocates(init, InitStage::AllocatingIdentify, 14, 4096)
        } else {
            init_failed(init, 0xe2)
        },
        (InitStage::AllocatingIdentify, InitEvent::Allocated { address: Some(at) }) => init_submits(
            init,
            InitStage::IdentifyingController,
            19,
            AdminCommand { opcode: ADMIN_IDENTIFY, nsid: 0, cdw10: 1, cdw11: 0, prp1: at },
        ),
        (InitStage::IdentifyingController, InitEvent::Completed { status }) => if status == 0 {
            init_allocates(init, InitStage::AllocatingFeature, 15, 4096)
        } else {
            init_failed(init, 20)
        },
        (InitStage::AllocatingFeature, InitEvent::Allocated { address: Some(at) }) => init_submits(
            init,
            InitStage::GettingFeature,
            detail,
            AdminCommand { opcode: ADMIN_GET_FEATURES, nsid: 0, cdw10: 1, cdw11: 0, prp1: at },
        ),
        (InitStage::GettingFeature, InitEvent::Completed { status }) => if status == 0 {
            init_submits(
                init,
                InitStage::SettingQueues,
                detail,
                AdminCommand {
                    opcode: ADMIN_SET_FEATURES,
                    nsid: 0,
                    cdw10: 7,
                    cdw11: 0x1_0001,
                    prp1: 0,
                },
            )
        } else {
            init_failed(init, admin_detail(detail, status))
        },
        (InitStage::SettingQueues, InitEvent::Completed { status }) => if status == 0 {
            init_allocates(init, InitStage::AllocatingNamespace, detail, 4096)
        } else {
            init_failed(init, admin_detail(detail, status))
        },
        (InitStage::AllocatingNamespace, InitEvent::Allocated { address: Some(at) }) => init_submits(
            init,
            InitStage::IdentifyingNamespace,
            detail,
            AdminCommand { opcode: ADMIN_IDENTIFY, nsid: 1, cdw10: 0, cdw11: 0, prp1: at },
        ),
        (InitStage::IdentifyingNamespace, InitEvent::Completed { status }) => if status == 0 {
            (
                Init { stage: InitStage::ReadingNamespace, detail: 16, ..init },
                InitAction::ReadNamespace,
            )
        } else {
            init_failed(init, admin_detail(detail, status))
        },
        (
            InitStage::ReadingNamespace,
            InitEvent::Namespace { namespace: Some(namespace) },
        ) => init_allocates(Init { namespace, ..init }, InitStage::AllocatingIoCq, detail, 4096),
        (InitStage::AllocatingIoCq, InitEvent::Allocated { address: Some(at) }) => init_submits(
            init,
            InitStage::CreatingIoCq,
            detail,
            AdminCommand {
                opcode: ADMIN_CREATE_IO_CQ,
                nsid: 0,
                cdw10: ((IO_QUEUE_SIZE - 1) * 0x1_0000 + 1) as u32,
                cdw11: 3,
                prp1: at,
            },
        ),
        (InitStage::CreatingIoCq, InitEvent::Completed { status }) => if status == 0 {
            init_allocates(init, InitStage::AllocatingIoSq, 17, 4096)
        } else {
            init_failed(init, admin_detail(detail, status))
        },
        (InitStage::AllocatingIoSq, InitEvent::Allocated { address: Some(at) }) => init_submits(
            init,
            InitStage::CreatingIoSq,
            detail,
            AdminCommand {
                opcode: ADMIN_CREATE_IO_SQ,
                nsid: 0,
                cdw10: ((IO_QUEUE_SIZE - 1) * 0x1_0000 + 1) as u32,
                cdw11: 0x1_0001,
                prp1: at,
            },
        ),
        (InitStage::CreatingIoSq, InitEvent::Completed { status }) => if status == 0 {
            (Init { stage: InitStage::Ready, detail: 18, ..init }, InitAction::Done)
        } else {
            init_failed(init, admin_detail(detail, status))
        },
        (InitStage::Ready, _) => (init, InitAction::Done),
        _ => init_failed(init, detail),
    }
}

impl Init {
    /// A bring-up starts by resetting the controller.
    pub fn new() -> (init: Init)
        ensures
            init == (Init {
                stage: InitStage::Resetting,
                detail: 10,
                stride: 4,
                admin_sq: 0,
                admin_cq: 0,
                namespace: Namespace { blocks: 0, block_size: 0 },
            }),
    {
        Init {
            stage: InitStage::Resetting,
            detail: 10,
            stride: 4,
            admin_sq: 0,
            admin_cq: 0,
            namespace: Namespace { blocks: 0, block_size: 0 },
        }
    }

    fn fail(&mut self, detail: u32) -> (action: InitAction)
        ensures
            (*final(self), action) == init_failed(*old(self), detail),
    {
        self.stage = InitStage::Failed;
        self.detail = detail;
        InitAction::Abort
    }

    fn submit(&mut self, stage: InitStage, detail: u32, command: AdminCommand) -> (action:
        InitAction)
        ensures
            (*final(self), action) == init_submits(*old(self), stage, detail, command),
    {
        self.stage = stage;
        self.detail = detail;
        InitAction::Submit { command }
    }

    fn allocate(&mut self, stage: InitStage, detail: u32, bytes: usize) -> (action: InitAction)
        ensures
            (*final(self), action) == init_allocates(*old(self), stage, detail, bytes),
    {
        self.stage = stage;
        self.detail = detail;
        InitAction::Allocate { bytes }
    }

    /// The bring-up after memory was allocated at `at`.
    fn allocated(&mut self, at: u64) -> (action: InitAction)
        ensures
            (*final(self), action) == init_next(
                *old(self),
                InitEvent::Allocated { address: Some(at) },
            ),
    {
        let detail: u32 = self.detail;
        match self.stage {
            InitStage::AllocatingAdminSq => {
                self.admin_sq = at;
                self.allocate(InitStage::AllocatingAdminCq, 12, 512)
            },
            InitStage::AllocatingAdminCq => {
                self.admin_cq = at;
                self.stage = InitStage::Enabling;
                self.detail = 13;
                InitAction::Enable {
                    attributes: ADMIN_QUEUE_ATTRIBUTES,
                    admin_sq: self.admin_sq,
                    admin_cq: at,
                    configuration: CC_ENABLED,
                }
            },
            InitStage::AllocatingIdentify => self.submit(
                InitStage::IdentifyingController,
                19,
                AdminCommand { opcode: ADMIN_IDENTIFY, nsid: 0, cdw10: 1, cdw11: 0, prp1: at },
            ),
            InitStage::AllocatingFeature => self.submit(
                InitStage::GettingFeature,
                detail,
                AdminCommand { opcode: ADMIN_GET_FEATURES, nsid: 0, cdw10: 1, cdw11: 0, prp1: at },
            ),
            InitStage::AllocatingNamespace => self.submit(
                InitStage::IdentifyingNamespace,
                detail,
                AdminCommand { opcode: ADMIN_IDENTIFY, nsid: 1, cdw10: 0, cdw11: 0, prp1: at },
            ),
            InitStage::AllocatingIoCq => self.submit(
                InitStage::CreatingIoCq,
                detail,
                AdminCommand {
                    opcode: ADMIN_CREATE_IO_CQ,
                    nsid: 0,
                    cdw10: (IO_QUEUE_SIZE - 1) * 0x1_0000 + 1,
                    cdw11: 3,
                    prp1: at,
                },
            ),
            InitStage::AllocatingIoSq => self.submit(
                InitStage::CreatingIoSq,
                detail,
                AdminCommand {
                    opcode: ADMIN_CREATE_IO_SQ,
                    nsid: 0,
                    cdw10: (IO_QUEUE_SIZE - 1) * 0x1_0000 + 1,
                    cdw11: 0x1_0001,
                    prp1: at,
                },
            ),
            InitStage::Ready => InitAction::Done,
            _ => self.fail(detail),
        }
    }

    /// The bring-up after an admin command completed.
    fn completed(&mut self, status: u32) -> (action: InitAction)
        ensures
            (*final(self), action) == init_next(*old(self), InitEvent::Completed { status }),
    {
        let detail: u32 = self.detail;
        let failure: u32 = if status == ADMIN_STATUS_TIMEOUT {
            0xe0
        } else {
            detail
        };
        match self.stage {
            InitStage::IdentifyingController => {
                if status == 0 {
                    self.allocate(InitStage::AllocatingFeature, 15, 4096)
                } else {
                    self.fail(20)
                }
            },
            InitStage::GettingFeature => {
                if status == 0 {
                    self.submit(
                        InitStage::SettingQueues,
                        detail,
                        AdminCommand {
                            opcode: ADMIN_SET_FEATURES,
                            nsid: 0,
                            cdw10: 7,
                            cdw11: 0x1_0001,
                            prp1: 0,
                        },
                    )
                } else {
                    self.fail(failure)
                }
            },
            InitStage::SettingQueues => {
                if status == 0 {
                    self.allocate(InitStage::AllocatingNamespace, detail, 4096)
                } else {
                    self.fail(failure)
                }
            },
            InitStage::IdentifyingNamespace => {
                if status == 0 {
                    self.stage = InitStage::ReadingNamespace;
                    self.detail = 16;
                    InitAction::ReadNamespace
                } else {
                    self.fail(failure)
                }
            },
            InitStage::CreatingIoCq => {
                if status == 0 {
                    self.allocate(InitStage::AllocatingIoSq, 17, 4096)
                } else {
                    self.fail(failure)
                }
            },
            InitStage::CreatingIoSq => {
                if status == 0 {
                    self.stage = InitStage::Ready;
                    self.detail = 18;
                    InitAction::Done
                } else {
                    self.fail(failure)
                }
            },
            InitStage::Ready => InitAction::Done,
            _ => self.fail(detail),
        }
    }

    /// Move the bring-up along. An event that the stage does not wait for fails
    /// it.
    pub fn step(&mut self, event: InitEvent) -> (action: InitAction)
        ensures
            (*final(self), action) == init_next(*old(self), event),
    {
        let detail: u32 = self.detail;
        match event {
            InitEvent::Waited { ok } => match self.stage {
                InitStage::Resetting => {
                    if !ok {
                        return self.fail(0xe1);
                    }
                    self.stage = InitStage::Capabilities;
                    self.detail = 11;
                    InitAction::ReadCapabilities
                },
                InitStage::Enabling => {
                    if !ok {
                        return self.fail(0xe2);
                    }
                    self.allocate(InitStage::AllocatingIdentify, 14, 4096)
                },
                InitStage::Ready => InitAction::Done,
                _ => self.fail(detail),
            },
            InitEvent::Capabilities { high } => match self.stage {
                InitStage::Capabilities => {
                    self.stride = doorbell_stride(high);
                    self.allocate(InitStage::AllocatingAdminSq, detail, 2048)
                },
                InitStage::Ready => InitAction::Done,
                _ => self.fail(detail),
            },
            InitEvent::Allocated { address } => match address {
                Some(at) => self.allocated(at),
                None => match self.stage {
                    InitStage::Ready => InitAction::Done,
                    _ => self.fail(detail),
                },
            },
            InitEvent::Completed { status } => self.completed(status),
            InitEvent::Namespace { namespace } => match (self.stage, namespace) {
                (InitStage::ReadingNamespace, Some(namespace)) => {
                    self.namespace = namespace;
                    self.allocate(InitStage::AllocatingIoCq, detail, 4096)
                },
                (InitStage::Ready, _) => InitAction::Done,
                _ => self.fail(detail),
            },
        }
    }
}

/// The I/O queue pair.
#[derive(Clone, Copy, Debug, PartialEq, Eq, Structural)]
pub struct IoState {
    pub ring: Ring,
    pub outstanding: u32,
}

/// A command to copy into its submission slot. Write `tail` to the submission
/// doorbell afterwards.
#[derive(Clone, Copy, Debug, PartialEq, Eq)]
pub struct Submission {
    pub slot: u32,
    pub entry: [u64; 8],
    pub tail: u32,
}

impl IoState {
    pub open spec fn wf(self) -> bool {
        self.ring.wf(IO_QUEUE_SIZE) && self.outstanding < IO_QUEUE_SIZE
    }

    /// The queue pair after a submission.
    pub open spec fn submitted(self) -> IoState {
        IoState {
            ring: self.ring.submitted(IO_QUEUE_SIZE),
            outstanding: (self.outstanding + 1) as u32,
        }
    }

    /// The queue pair after a completion was taken.
    pub open spec fn completed(self) -> IoState {
        IoState {
            ring: self.ring.completed(IO_QUEUE_SIZE),
            outstanding: if self.outstanding > 0 {
                (self.outstanding - 1) as u32
            } else {
                0
            },
        }
    }

    pub fn new() -> (io: IoState)
        ensures
            io.wf(),
            io.ring == (Ring { sq_tail: 0, cq_head: 0, cq_phase: 1 }),
            io.outstanding == 0,
    {
        IoState { ring: Ring::new(), outstanding: 0 }
    }

    /// Submit a command to namespace 1. A circular submission queue always
    /// leaves one entry unused so that full and empty remain distinguishable.
    pub fn submit_io(
        &mut self,
        opcode: u8,
        start_lba: u64,
        nblocks: u16,
        prp1: u64,
        prp2: u64,
    ) -> (submission: Option<Submission>)
        requires
            old(self).wf(),
        ensures
            final(self).wf(),
            if old(self).outstanding >= IO_QUEUE_SIZE - 1 {
                submission is None && *final(self) == *old(self)
            } else {
                &&& *final(self) == old(self).submitted()
                &&& submission matches Some(submitted) && submitted.slot == old(self).ring.sq_tail
                    && submitted.tail == final(self).ring.sq_tail && submitted.entry@ == nvm_entry(
                    submitted.slot,
                    NvmCommand { opcode, nsid: 1, start_lba, nblocks, prp1, prp2 },
                )
            },
    {
        if self.outstanding >= IO_QUEUE_SIZE - 1 {
            return None;
        }
        let slot: u32 = self.ring.submit(IO_QUEUE_SIZE);
        let command: NvmCommand = NvmCommand { opcode, nsid: 1, start_lba, nblocks, prp1, prp2 };
        let entry: [u64; 8] = nvm_sqe(slot, &command);
        self.outstanding = self.outstanding + 1;
        Some(Submission { slot, entry, tail: self.ring.sq_tail })
    }

    /// Take the completion whose last double word stands at the head of the
    /// completion queue, if it is new. Write the head to the completion doorbell
    /// afterwards.
    pub fn poll_completions(&mut self, dword3: u32) -> (completion: Option<Completion>)
        requires
            old(self).wf(),
        ensures
            final(self).wf(),
            if completion_of(dword3).phase == old(self).ring.cq_phase {
                completion == Some(completion_of(dword3)) && *final(self) == old(self).completed()
            } else {
                completion is None && *final(self) == *old(self)
            },
    {
        let completion: Option<Completion> = self.ring.take(IO_QUEUE_SIZE, dword3);
        if completion.is_some() && self.outstanding > 0 {
            self.outstanding = self.outstanding - 1;
        }
        completion
    }
}

/// A request that waits for its completion. The borrowed data is retained by
/// the reply token.
#[derive(Clone, Copy, Debug, PartialEq, Eq, Structural)]
pub struct Pending {
    pub reply: u64,
    /// The memory object of an optional PRP-list page, and its device address.
    pub prp_list: u64,
    pub prp_iova: u64,
    pub data_iova: u64,
}

/// Nothing waits.
pub open spec fn no_pending() -> Pending {
    Pending { reply: 0, prp_list: 0, prp_iova: 0, data_iova: 0 }
}

/// Why a request was refused.
#[derive(Clone, Copy, Debug, PartialEq, Eq, Structural)]
pub enum BlockError {
    InvalidRange,
    /// The transfer is too large for one request.
    Unaligned,
    Io,
}

/// The bytes that a request moves, or why it is refused.
pub open spec fn transfer_checked(
    namespace: Namespace,
    lba: u64,
    count: u32,
    has_memory: bool,
) -> Result<u64, BlockError> {
    let bytes = count * namespace.block_size;
    if count == 0 || lba + count > namespace.blocks {
        Err(BlockError::InvalidRange)
    } else if bytes > MAX_TRANSFER_BYTES {
        Err(BlockError::Unaligned)
    } else if !has_memory {
        Err(BlockError::Io)
    } else {
        Ok(bytes as u64)
    }
}

/// Check a read or write of `count` blocks from `lba` on. Returns the bytes to
/// move.
pub fn check_transfer(namespace: &Namespace, lba: u64, count: u32, has_memory: bool) -> (bytes:
    Result<u64, BlockError>)
    ensures
        bytes == transfer_checked(*namespace, lba, count, has_memory),
{
    let size: u32 = namespace.block_size;
    proof {
        assert(count * size <= 0xffff_ffff * 0xffff_ffff) by (nonlinear_arith)
            requires
                count <= 0xffff_ffff,
                size <= 0xffff_ffff,
        ;
    }
    let bytes: u64 = count as u64 * size as u64;
    if count == 0 || lba > u64::MAX - count as u64 || lba + count as u64 > namespace.blocks {
        return Err(BlockError::InvalidRange);
    }
    if bytes > MAX_TRANSFER_BYTES {
        return Err(BlockError::Unaligned);
    }
    if !has_memory {
        return Err(BlockError::Io);
    }
    Ok(bytes)
}

/// The reply to a request for the device's size: the block size, with the low
/// half of the block count above it.
pub fn device_info(namespace: &Namespace) -> (info: u64)
    ensures
        info == wire::joined((namespace.blocks % 0x1_0000_0000) as u32, namespace.block_size),
{
    wire::join((namespace.blocks % 0x1_0000_0000) as u32, namespace.block_size)
}

/// The I/O queues and the requests that wait.
pub struct Driver {
    pub io: IoState,
    pub pending: Vec<Pending>,
}

impl Driver {
    pub open spec fn wf(self) -> bool {
        self.io.wf() && self.pending@.len() == MAX_PENDING
    }

    pub fn new() -> (driver: Driver)
        ensures
            driver.wf(),
            driver.io.outstanding == 0,
            driver.io.ring == (Ring { sq_tail: 0, cq_head: 0, cq_phase: 1 }),
            driver.pending@ == Seq::new(MAX_PENDING as nat, |i: int| no_pending()),
    {
        let mut pending: Vec<Pending> = Vec::new();
        let mut index: usize = 0;
        while index < MAX_PENDING
            invariant
                index <= MAX_PENDING,
                pending@ == Seq::new(index as nat, |i: int| no_pending()),
            decreases MAX_PENDING - index,
        {
            pending.push(Pending { reply: 0, prp_list: 0, prp_iova: 0, data_iova: 0 });
            index += 1;
            assert(pending@ =~= Seq::new(index as nat, |i: int| no_pending()));
        }
        Driver { io: IoState::new(), pending }
    }

    /// Submit a command and let `request` wait for it. `None` leaves everything
    /// unchanged: the queue is full, and the caller releases the request.
    pub fn submit(
        &mut self,
        opcode: u8,
        start_lba: u64,
        nblocks: u16,
        prp1: u64,
        prp2: u64,
        request: Pending,
    ) -> (submission: Option<Submission>)
        requires
            old(self).wf(),
        ensures
            final(self).wf(),
            if old(self).io.outstanding >= IO_QUEUE_SIZE - 1 {
                submission is None && *final(self) == *old(self)
            } else {
                &&& final(self).io == old(self).io.submitted()
                &&& submission matches Some(submitted) && submitted.slot
                    == old(self).io.ring.sq_tail && submitted.tail == final(self).io.ring.sq_tail
                    && submitted.entry@ == nvm_entry(
                    submitted.slot,
                    NvmCommand { opcode, nsid: 1, start_lba, nblocks, prp1, prp2 },
                ) && final(self).pending@ == old(self).pending@.update(
                    submitted.slot as int,
                    request,
                )
            },
    {
        let submission: Option<Submission> = self.io.submit_io(
            opcode,
            start_lba,
            nblocks,
            prp1,
            prp2,
        );
        if let Some(submitted) = &submission {
            self.pending.set(submitted.slot as usize, request);
        }
        submission
    }

    /// Take the request that waits for command `cid`. A request without a reply
    /// token waits for nothing.
    pub fn take_pending(&mut self, cid: u16) -> (request: Pending)
        requires
            old(self).wf(),
        ensures
            final(self).wf(),
            final(self).io == old(self).io,
            request == old(self).pending@[cid as int % MAX_PENDING as int],
            final(self).pending@ == old(self).pending@.update(
                cid as int % MAX_PENDING as int,
                no_pending(),
            ),
    {
        let index: usize = cid as usize % MAX_PENDING;
        let request: Pending = self.pending[index];
        self.pending.set(index, Pending { reply: 0, prp_list: 0, prp_iova: 0, data_iova: 0 });
        request
    }
}

/// How far an orderly stop has come.
#[derive(Clone, Copy, Debug, PartialEq, Eq, Structural)]
pub enum QuiesceStage {
    /// Waiting for the service endpoint to close, which keeps new requests out.
    Closing,
    /// Waiting for the requests under way.
    Draining,
    /// Waiting for the flush command with this identifier.
    Flushing { cid: u32 },
    /// Waiting for the disabled controller.
    Disabling,
    /// Waiting for the interrupt to close.
    Releasing,
    Done { ok: bool },
}

/// What an orderly stop asks of the caller.
#[derive(Clone, Copy, Debug, PartialEq, Eq, Structural)]
pub enum QuiesceAction {
    /// Finish completions and wait until nothing is outstanding.
    Drain,
    /// Submit a flush.
    Flush,
    /// Wait for the next completion.
    AwaitFlush,
    /// Mask interrupts, disable the controller and wait until it is not ready.
    Disable,
    /// Close the interrupt.
    Release,
    /// The device is quiet, or must be left as it is.
    Stop { ok: bool },
}

/// What came of an action of an orderly stop.
#[derive(Clone, Copy, Debug, PartialEq, Eq, Structural)]
pub enum QuiesceEvent {
    /// Whether the endpoint closed, the drain ended in time, the controller
    /// became not ready, or the interrupt closed.
    Finished { ok: bool },
    /// The flush went out as this command, if there was room.
    Submitted { cid: Option<u32> },
    /// The next completion, or none in time.
    Completed { completion: Option<Completion> },
}

/// The stop after an event, and what it asks for next. A completion of anything
/// but the flush is inconsistent and fails the stop.
pub open spec fn quiesce_next(stage: QuiesceStage, event: QuiesceEvent) -> (
    QuiesceStage,
    QuiesceAction,
) {
    match (stage, event) {
        (QuiesceStage::Closing, QuiesceEvent::Finished { ok: true }) => (
            QuiesceStage::Draining,
            QuiesceAction::Drain,
        ),
        (QuiesceStage::Draining, QuiesceEvent::Finished { ok: true }) => (
            QuiesceStage::Draining,
            QuiesceAction::Flush,
        ),
        (QuiesceStage::Draining, QuiesceEvent::Submitted { cid: Some(cid) }) => (
            QuiesceStage::Flushing { cid },
            QuiesceAction::AwaitFlush,
        ),
        (
            QuiesceStage::Flushing { cid },
            QuiesceEvent::Completed { completion: Some(completion) },
        ) => if completion.cid == cid && completion.status == 0 {
            (QuiesceStage::Disabling, QuiesceAction::Disable)
        } else {
            (QuiesceStage::Done { ok: false }, QuiesceAction::Stop { ok: false })
        },
        (QuiesceStage::Disabling, QuiesceEvent::Finished { ok: true }) => (
            QuiesceStage::Releasing,
            QuiesceAction::Release,
        ),
        (QuiesceStage::Releasing, QuiesceEvent::Finished { ok }) => (
            QuiesceStage::Done { ok },
            QuiesceAction::Stop { ok },
        ),
        (QuiesceStage::Done { ok }, _) => (stage, QuiesceAction::Stop { ok }),
        _ => (QuiesceStage::Done { ok: false }, QuiesceAction::Stop { ok: false }),
    }
}

/// Move an orderly stop along.
pub fn quiesce_step(stage: QuiesceStage, event: QuiesceEvent) -> (next: (
    QuiesceStage,
    QuiesceAction,
))
    ensures
        next == quiesce_next(stage, event),
{
    let failed: (QuiesceStage, QuiesceAction) = (
        QuiesceStage::Done { ok: false },
        QuiesceAction::Stop { ok: false },
    );
    match stage {
        QuiesceStage::Closing => match event {
            QuiesceEvent::Finished { ok } => {
                if ok {
                    (QuiesceStage::Draining, QuiesceAction::Drain)
                } else {
                    failed
                }
            },
            _ => failed,
        },
        QuiesceStage::Draining => match event {
            QuiesceEvent::Finished { ok } => {
                if ok {
                    (QuiesceStage::Draining, QuiesceAction::Flush)
                } else {
                    failed
                }
            },
            QuiesceEvent::Submitted { cid } => match cid {
                Some(cid) => (QuiesceStage::Flushing { cid }, QuiesceAction::AwaitFlush),
                None => failed,
            },
            _ => failed,
        },
        QuiesceStage::Flushing { cid } => match event {
            QuiesceEvent::Completed { completion } => match completion {
                Some(completion) => {
                    if completion.cid as u32 == cid && completion.status == 0 {
                        (QuiesceStage::Disabling, QuiesceAction::Disable)
                    } else {
                        failed
                    }
                },
                None => failed,
            },
            _ => failed,
        },
        QuiesceStage::Disabling => match event {
            QuiesceEvent::Finished { ok } => {
                if ok {
                    (QuiesceStage::Releasing, QuiesceAction::Release)
                } else {
                    failed
                }
            },
            _ => failed,
        },
        QuiesceStage::Releasing => match event {
            QuiesceEvent::Finished { ok } => (
                QuiesceStage::Done { ok },
                QuiesceAction::Stop { ok },
            ),
            _ => failed,
        },
        QuiesceStage::Done { ok } => (stage, QuiesceAction::Stop { ok }),
    }
}

/// The bring-up reaches `Ready` only from the successful creation of the I/O
/// submission queue, and a failed bring-up stays failed.
pub proof fn law_bring_up_ends_with_both_io_queues(init: Init, event: InitEvent)
    ensures
        init_next(init, event).0.stage == InitStage::Ready && init.stage != InitStage::Ready ==> {
            &&& init.stage == InitStage::CreatingIoSq
            &&& event == (InitEvent::Completed { status: 0 })
        },
        init_next(init, event).0.stage == InitStage::CreatingIoSq ==> init.stage
            == InitStage::AllocatingIoSq,
        init_next(init, event).0.stage == InitStage::AllocatingIoSq ==> init.stage
            == InitStage::CreatingIoCq && event == (InitEvent::Completed { status: 0 }),
        init.stage == InitStage::Failed ==> init_next(init, event).0.stage == InitStage::Failed,
{
}

/// After as many completions as a queue has entries, the head is where it was
/// and the phase has turned once.
pub proof fn law_phase_turns_with_each_lap(ring: Ring, size: u32, count: nat)
    requires
        ring.wf(size),
        ring.cq_head + count <= size,
    ensures
        ({
            let after = laps(ring, size, count);
            &&& ring.cq_head + count < size ==> after.cq_head == ring.cq_head + count
                && after.cq_phase == ring.cq_phase
            &&& ring.cq_head + count == size && count > 0 ==> after.cq_head == 0 && after.cq_phase
                == 1 - ring.cq_phase
        }),
    decreases count,
{
    if count > 0 {
        law_phase_turns_with_each_lap(ring, size, (count - 1) as nat);
    }
}

/// The ring after `count` completions.
pub open spec fn laps(ring: Ring, size: u32, count: nat) -> Ring
    decreases count,
{
    if count == 0 {
        ring
    } else {
        laps(ring, size, (count - 1) as nat).completed(size)
    }
}

/// A submission and its completion leave the number of outstanding commands as
/// it was, in either order of the two.
pub proof fn law_completion_undoes_submission(io: IoState)
    requires
        io.wf(),
        io.outstanding < IO_QUEUE_SIZE - 1,
    ensures
        io.submitted().completed().outstanding == io.outstanding,
        io.outstanding > 0 ==> io.completed().submitted().outstanding == io.outstanding,
{
}

/// The request that was stored for a command is the one that its completion
/// takes, and all others keep waiting.
pub proof fn law_completion_takes_its_own_request(
    pending: Seq<Pending>,
    slot: int,
    request: Pending,
)
    requires
        pending.len() == MAX_PENDING,
        0 <= slot < MAX_PENDING,
    ensures
        pending.update(slot, request)[slot % MAX_PENDING as int] == request,
        forall|i: int|
            0 <= i < MAX_PENDING && i != slot ==> #[trigger] pending.update(slot, request).update(
                slot % MAX_PENDING as int,
                no_pending(),
            )[i] == pending[i],
{
}

/// An accepted transfer lies inside the namespace and fits in one PRP list.
pub proof fn law_accepted_transfer_fits(
    namespace: Namespace,
    lba: u64,
    count: u32,
    has_memory: bool,
)
    requires
        namespace.block_size >= 512,
        transfer_checked(namespace, lba, count, has_memory) is Ok,
    ensures
        lba + count <= namespace.blocks,
        0 < count <= 4096,
        pages_of(transfer_checked(namespace, lba, count, has_memory)->Ok_0) is Some,
{
    let size = namespace.block_size as int;
    assert(count * 512 <= count * size) by (nonlinear_arith)
        requires
            size >= 512,
            count >= 0,
    ;
    assert(count * size > 0) by (nonlinear_arith)
        requires
            size >= 512,
            count > 0,
    ;
}

/// Every command of the bring-up, field by field: what is submitted on the way to
/// each stage, whatever led there. The identify commands ask for the controller
/// and for the first namespace, each into the page that was just allocated; the
/// I/O queues have 64 entries, number one, the completion queue interrupts, and
/// the submission queue completes into it.
pub proof fn law_bring_up_commands(init: Init, event: InitEvent)
    ensures
        ({
            let (next, action) = init_next(init, event);
            let at = event->address->0;
            action matches InitAction::Submit { command } ==> {
                &&& next.stage == InitStage::IdentifyingController || next.stage
                    == InitStage::GettingFeature || next.stage == InitStage::SettingQueues
                    || next.stage == InitStage::IdentifyingNamespace || next.stage
                    == InitStage::CreatingIoCq || next.stage == InitStage::CreatingIoSq
                &&& next.stage == InitStage::IdentifyingController ==> command.opcode == 0x06
                    && command.nsid == 0 && command.cdw10 == 1 && command.cdw11 == 0
                    && event is Allocated && command.prp1 == at
                &&& next.stage == InitStage::GettingFeature ==> command.opcode == 0x0a
                    && command.nsid == 0 && command.cdw10 == 1 && command.cdw11 == 0
                    && event is Allocated && command.prp1 == at
                &&& next.stage == InitStage::SettingQueues ==> command.opcode == 0x09
                    && command.nsid == 0 && command.cdw10 == 7 && command.cdw11 / 0x1_0000 == 1
                    && command.cdw11 % 0x1_0000 == 1 && command.prp1 == 0
                &&& next.stage == InitStage::IdentifyingNamespace ==> command.opcode == 0x06
                    && command.nsid == 1 && command.cdw10 == 0 && command.cdw11 == 0
                    && event is Allocated && command.prp1 == at
                &&& next.stage == InitStage::CreatingIoCq ==> command.opcode == 0x05
                    && command.nsid == 0 && command.cdw10 % 0x1_0000 == 1 && command.cdw10
                    / 0x1_0000 + 1 == 64 && command.cdw11 == 3 && event is Allocated
                    && command.prp1 == at
                &&& next.stage == InitStage::CreatingIoSq ==> command.opcode == 0x01
                    && command.nsid == 0 && command.cdw10 % 0x1_0000 == 1 && command.cdw10
                    / 0x1_0000 + 1 == 64 && command.cdw11 / 0x1_0000 == 1 && command.cdw11
                    % 0x1_0000 == 1 && event is Allocated && command.prp1 == at
            }
        }),
{
}

/// The bring-up goes on only after success, in one order, and allocates what each
/// queue and page needs: 64 bytes for a submission, 16 for a completion, a page
/// for what the controller tells.
pub proof fn law_bring_up_order(init: Init, event: InitEvent)
    ensures
        ({
            let (next, action) = init_next(init, event);
            let stage = next.stage;
            &&& stage == InitStage::Capabilities ==> init.stage == InitStage::Resetting && event
                == (InitEvent::Waited { ok: true }) && action is ReadCapabilities
            &&& stage == InitStage::AllocatingAdminSq ==> init.stage == InitStage::Capabilities
                && event is Capabilities && action == (InitAction::Allocate { bytes: 2048 })
                && next.stride == stride_of(event->high)
            &&& stage == InitStage::AllocatingAdminCq ==> init.stage
                == InitStage::AllocatingAdminSq && event is Allocated && action == (
            InitAction::Allocate { bytes: 512 }) && Some(next.admin_sq) == event->address
            &&& stage == InitStage::Enabling ==> init.stage == InitStage::AllocatingAdminCq
                && action is Enable && event is Allocated && Some(action->admin_cq)
                == event->address && action->admin_sq == init.admin_sq && action->attributes
                % 0x1_0000 + 1 == 32 && action->attributes / 0x1_0000 + 1 == 32
                && action->configuration % 16 == 1 && action->configuration / 0x1_0000 % 16 == 6
                && action->configuration / 0x10_0000 == 4
            &&& stage == InitStage::AllocatingIdentify ==> init.stage == InitStage::Enabling && event
                == (InitEvent::Waited { ok: true }) && action == (InitAction::Allocate {
                bytes: 4096,
            })
            &&& stage == InitStage::IdentifyingController ==> init.stage
                == InitStage::AllocatingIdentify && action is Submit
            &&& stage == InitStage::AllocatingFeature ==> init.stage
                == InitStage::IdentifyingController && event == (InitEvent::Completed { status: 0 })
                && action == (InitAction::Allocate { bytes: 4096 })
            &&& stage == InitStage::GettingFeature ==> init.stage == InitStage::AllocatingFeature
                && action is Submit
            &&& stage == InitStage::SettingQueues ==> init.stage == InitStage::GettingFeature
                && event == (InitEvent::Completed { status: 0 }) && action is Submit
            &&& stage == InitStage::AllocatingNamespace ==> init.stage == InitStage::SettingQueues
                && event == (InitEvent::Completed { status: 0 }) && action == (InitAction::Allocate {
                bytes: 4096,
            })
            &&& stage == InitStage::IdentifyingNamespace ==> init.stage
                == InitStage::AllocatingNamespace && action is Submit
            &&& stage == InitStage::ReadingNamespace ==> init.stage
                == InitStage::IdentifyingNamespace && event == (InitEvent::Completed { status: 0 })
                && action is ReadNamespace
            &&& stage == InitStage::AllocatingIoCq ==> init.stage == InitStage::ReadingNamespace
                && event is Namespace && event->namespace == Some(next.namespace) && action == (
            InitAction::Allocate { bytes: 4096 })
            &&& stage == InitStage::CreatingIoCq ==> init.stage == InitStage::AllocatingIoCq
                && action is Submit
            &&& stage == InitStage::AllocatingIoSq ==> init.stage == InitStage::CreatingIoCq && event
                == (InitEvent::Completed { status: 0 }) && action == (InitAction::Allocate {
                bytes: 4096,
            })
            &&& stage == InitStage::CreatingIoSq ==> init.stage == InitStage::AllocatingIoSq
                && action is Submit
            &&& stage == InitStage::Ready ==> init.stage == InitStage::Ready || (init.stage
                == InitStage::CreatingIoSq && event == (InitEvent::Completed { status: 0 }))
            &&& action is Done <==> stage == InitStage::Ready
            &&& action is Abort <==> stage == InitStage::Failed
            &&& init.stage != InitStage::ReadingNamespace ==> next.namespace == init.namespace
            &&& event is Completed && event->status != 0 && init.stage != InitStage::Ready
                ==> action is Abort
        }),
{
    if let InitEvent::Capabilities { high } = event {
        vstd::arithmetic::power2::lemma2_to64();
        vstd::arithmetic::power2::lemma_pow2_strictly_increases((high % 16) as nat, 16);
    }
}

/// The two halves of an entry's first word.
proof fn lemma_first_word(slot: u32, opcode: u8, nsid: u32)
    requires
        slot < 0x1_0000,
    ensures
        ({
            let word = wire::joined(nsid, command_dword0(slot, opcode)) as int;
            &&& word % 0x100 == opcode
            &&& word / 0x100 % 0x100 == 0
            &&& word / 0x1_0000 % 0x1_0000 == slot
            &&& word / 0x1_0000_0000 == nsid
        }),
{
    let low = slot * 0x1_0000 + opcode;
    assert(command_dword0(slot, opcode) == low);
    assert(wire::joined(nsid, low as u32) == nsid * 0x1_0000_0000 + low);
}

/// What an entry of the admin queue tells the controller: the operation and the
/// command's number in the first word, the namespace above it, the page, and the
/// command's two words.
pub proof fn law_admin_entry_says_what_was_asked(slot: u32, command: AdminCommand)
    requires
        slot < 0x1_0000,
    ensures
        ({
            let entry = admin_entry(slot, command);
            &&& entry.len() == 8
            &&& entry[0] as int % 0x100 == command.opcode
            &&& entry[0] as int / 0x100 % 0x100 == 0
            &&& entry[0] as int / 0x1_0000 % 0x1_0000 == slot
            &&& entry[0] as int / 0x1_0000_0000 == command.nsid
            &&& entry[3] == command.prp1
            &&& entry[4] == 0
            &&& entry[5] as int % 0x1_0000_0000 == command.cdw10
            &&& entry[5] as int / 0x1_0000_0000 == command.cdw11
        }),
{
    lemma_first_word(slot, command.opcode, command.nsid);
    assert(wire::joined(command.cdw11, command.cdw10) == command.cdw11 * 0x1_0000_0000
        + command.cdw10);
}

/// What an entry of the I/O queue tells the controller: besides the operation,
/// number and namespace, both page pointers, the first block, and the number of
/// blocks counted from zero.
pub proof fn law_io_entry_says_what_was_asked(slot: u32, command: NvmCommand)
    requires
        slot < 0x1_0000,
    ensures
        ({
            let entry = nvm_entry(slot, command);
            &&& entry.len() == 8
            &&& entry[0] as int % 0x100 == command.opcode
            &&& entry[0] as int / 0x100 % 0x100 == 0
            &&& entry[0] as int / 0x1_0000 % 0x1_0000 == slot
            &&& entry[0] as int / 0x1_0000_0000 == command.nsid
            &&& entry[3] == command.prp1
            &&& entry[4] == command.prp2
            &&& entry[5] == command.start_lba
            &&& command.nblocks > 0 ==> entry[6] + 1 == command.nblocks
        }),
{
    lemma_first_word(slot, command.opcode, command.nsid);
}

/// A completion's last word reads back as the command's number, the phase and the
/// status that were put together in it.
pub proof fn law_completion_reads_back(cid: u16, phase: u8, status: u16)
    requires
        phase <= 1,
        status < 0x8000,
    ensures
        completion_of((status * 0x2_0000 + phase * 0x1_0000 + cid) as u32) == (Completion {
            cid,
            phase,
            status,
        }),
{
}

/// The pages of a transfer are named in order: the first directly, the second
/// directly where it is the last, and otherwise all the rest in the list.
pub proof fn law_every_page_of_a_transfer_is_named(first: u64, pages: int, page: int)
    requires
        0 < pages <= 512,
        first + pages * 4096 <= u64::MAX,
        0 < page < pages,
    ensures
        pages == 2 ==> second_page(first, pages) == first + 4096 && listed_pages(
            first,
            pages,
        ).len() == 0,
        pages > 2 ==> listed_pages(first, pages).len() == pages - 1 && listed_pages(first, pages)[
            page - 1] == first + page * 4096,
{
}

/// The doorbells of the admin and the I/O queue follow each other at the stride
/// that the controller tells: 4 bytes doubled as often as it says.
pub proof fn law_doorbells_follow_the_stride(cap_high: u32, number: int)
    ensures
        cap_high % 16 == 0 ==> stride_of(cap_high) == 4,
        cap_high % 16 != 15 ==> stride_of((cap_high % 16 + 1) as u32) == 2 * stride_of(cap_high),
        doorbell_at(0, stride_of(cap_high) as int) == 0x1000,
        doorbell_at(number + 1, stride_of(cap_high) as int) == doorbell_at(
            number,
            stride_of(cap_high) as int,
        ) + stride_of(cap_high),
{
    let e = (cap_high % 16) as nat;
    let stride = stride_of(cap_high) as int;
    vstd::arithmetic::power2::lemma2_to64();
    if cap_high % 16 != 15 {
        assert(((cap_high % 16 + 1) as u32) % 16 == e + 1);
        vstd::arithmetic::power2::lemma_pow2_unfold(e + 1);
    }
    assert((number + 1) * stride == number * stride + stride) by (nonlinear_arith);
    assert(0 * stride == 0) by (nonlinear_arith);
}

/// The namespace is as large as its page says: the block count is the number in
/// its first eight bytes, and a block the power of two that the format in use
/// tells, from 512 bytes to a page.
pub proof fn law_namespace_is_as_its_page_says(page: Seq<u8>)
    requires
        page.len() >= 4096,
    ensures
        ({
            let exponent = page[130 + 4 * (page[26] % 16)];
            match namespace_of(page) {
                Some(namespace) => {
                    &&& 9 <= exponent <= 12
                    &&& namespace.block_size == vstd::arithmetic::power2::pow2(exponent as nat)
                    &&& wire::le_bytes(namespace.blocks as nat, 8) == page.take(8)
                },
                None => exponent < 9 || exponent > 12,
            }
        }),
{
    vstd::arithmetic::power2::lemma2_to64();
    wire::lemma_byte_capacities();
    wire::lemma_le_value_inverse(page.subrange(0, 8));
    assert(page.subrange(0, 8) =~= page.take(8));
}

/// A transfer is accepted exactly where it has blocks, stays on the device, needs
/// no more than 512 pages, and has memory; it then has as many bytes as its blocks.
pub proof fn law_transfers_are_refused_only_for_a_reason(
    namespace: Namespace,
    lba: u64,
    count: u32,
    has_memory: bool,
)
    ensures
        transfer_checked(namespace, lba, count, has_memory) is Ok <==> count > 0 && lba + count
            <= namespace.blocks && count * namespace.block_size <= 512 * 4096 && has_memory,
        transfer_checked(namespace, lba, count, has_memory) matches Ok(bytes) ==> bytes == count
            * namespace.block_size,
        transfer_checked(namespace, lba, count, has_memory) == Err::<u64, BlockError>(
            BlockError::InvalidRange,
        ) <==> count == 0 || lba + count > namespace.blocks,
{
}

/// The device is reported quiet only after its interrupt was released, which
/// follows disabling it, which follows a flush of its own that succeeded, which
/// follows the end of every client's transfer.
pub proof fn law_quiet_means_flushed(stage: QuiesceStage, event: QuiesceEvent)
    ensures
        ({
            let (next, action) = quiesce_next(stage, event);
            &&& next == (QuiesceStage::Done { ok: true }) ==> stage == (QuiesceStage::Done {
                ok: true,
            }) || (stage == QuiesceStage::Releasing && event == (QuiesceEvent::Finished {
                ok: true,
            }))
            &&& next == QuiesceStage::Releasing ==> stage == QuiesceStage::Disabling && event == (
            QuiesceEvent::Finished { ok: true }) && action is Release
            &&& next == QuiesceStage::Disabling ==> action is Disable && (stage matches
                QuiesceStage::Flushing { cid } && event matches QuiesceEvent::Completed {
                completion: Some(done),
            } && done.cid == cid && done.status == 0)
            &&& next matches QuiesceStage::Flushing { cid } ==> stage == QuiesceStage::Draining
                && event == (QuiesceEvent::Submitted { cid: Some(cid) }) && action is AwaitFlush
            &&& action is Flush ==> stage == QuiesceStage::Draining && event == (
            QuiesceEvent::Finished { ok: true })
            &&& next == QuiesceStage::Draining ==> action is Drain || action is Flush
            &&& action is Drain ==> stage == QuiesceStage::Closing && event == (
            QuiesceEvent::Finished { ok: true })
            &&& action matches QuiesceAction::Stop { ok } ==> next == (QuiesceStage::Done { ok })
        }),
        quiesce_next(QuiesceStage::Closing, QuiesceEvent::Finished { ok: true }).1 is Drain,
        quiesce_next(QuiesceStage::Draining, QuiesceEvent::Finished { ok: true }).1 is Flush,
        quiesce_next(QuiesceStage::Disabling, QuiesceEvent::Finished { ok: true }).1 is Release,
        quiesce_next(QuiesceStage::Releasing, QuiesceEvent::Finished { ok: true }).1 == (
        QuiesceAction::Stop { ok: true }),
{
}

} // verus!
