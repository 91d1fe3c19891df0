//! Virtio devices behind the modern transport: device bring-up, queue layout
//! and the requests of the entropy and block devices.
//!
//! The caller maps registers and memory, performs the writes that this module
//! lists, in order, and reports what it reads back. Register offsets, status
//! bits and descriptor offsets are those of the virtio specification and come
//! from the caller.
use vstd::prelude::*;

use crate::wire;

verus! {

/// Entries of a queue.
pub const QUEUE_SIZE: u16 = 8;

/// Bytes of a page.
pub const PAGE_SIZE: usize = 4096;

/// The block size of a virtio block device.
pub const BLOCK_SIZE: u32 = 512;

/// Register offsets, status bits, feature bits and descriptor offsets.
#[derive(Clone, Copy, Debug, PartialEq, Eq)]
pub struct Layout {
    pub device_status: usize,
    pub device_feature_select: usize,
    pub device_feature: usize,
    pub driver_feature_select: usize,
    pub driver_feature: usize,
    pub queue_select: usize,
    pub queue_size: usize,
    pub queue_vector: usize,
    pub queue_enable: usize,
    pub queue_notify_off: usize,
    pub queue_desc: usize,
    pub queue_driver: usize,
    pub queue_device: usize,
    pub notify_base: usize,
    pub notify_multiplier: usize,
    pub status_acknowledge: u8,
    pub status_driver: u8,
    pub status_features_ok: u8,
    pub status_driver_ok: u8,
    pub feature_version_1: u32,
    pub feature_access_platform: u32,
    pub desc_size: usize,
    pub desc_addr: usize,
    pub desc_length: usize,
    pub desc_flags: usize,
    pub desc_next: usize,
    pub flag_next: u16,
    pub flag_write: u16,
    pub avail_flags: usize,
    pub avail_idx: usize,
    pub avail_ring: usize,
    pub used_idx: usize,
    pub used_ring: usize,
}

impl Layout {
    /// Every offset is small.
    pub open spec fn wf(self) -> bool {
        &&& self.queue_desc <= 0xffff
        &&& self.queue_driver <= 0xffff
        &&& self.queue_device <= 0xffff
        &&& self.notify_base <= 0xff_ffff
        &&& self.notify_multiplier <= 0xff
        &&& self.desc_size <= 0xff
        &&& self.desc_addr <= 0xff
        &&& self.desc_length <= 0xff
        &&& self.desc_flags <= 0xff
        &&& self.desc_next <= 0xff
        &&& self.avail_flags <= 0xff
        &&& self.avail_idx <= 0xff
        &&& self.avail_ring <= 0xff
        &&& self.used_idx <= 0xff
        &&& self.used_ring <= 0xff
    }

    /// Whether the offsets are usable.
    pub fn is_wf(&self) -> (ok: bool)
        ensures
            ok == self.wf(),
    {
        self.queue_desc <= 0xffff && self.queue_driver <= 0xffff && self.queue_device <= 0xffff
            && self.notify_base <= 0xff_ffff && self.notify_multiplier <= 0xff
            && self.desc_size <= 0xff && self.desc_addr <= 0xff && self.desc_length <= 0xff
            && self.desc_flags <= 0xff && self.desc_next <= 0xff && self.avail_flags <= 0xff
            && self.avail_idx <= 0xff && self.avail_ring <= 0xff && self.used_idx <= 0xff
            && self.used_ring <= 0xff
    }

    /// The feature bits that the driver needs.
    pub open spec fn required(self) -> u32 {
        self.feature_version_1 | self.feature_access_platform
    }

    /// Where the available ring starts.
    pub open spec fn avail(self, queue_size: u16) -> int {
        queue_size * self.desc_size
    }

    /// Where the used ring starts: on the next page.
    pub open spec fn used(self, queue_size: u16) -> int {
        wire::units(self.avail(queue_size) + 6 + queue_size * 2, 4096) * 4096
    }

    /// Pages of a queue.
    pub open spec fn pages(self, queue_size: u16) -> int {
        wire::units(self.used(queue_size) + 6 + queue_size * 8, 4096)
    }
}

proof fn lemma_queue_bounds(layout: Layout, queue_size: u16)
    requires
        layout.wf(),
    ensures
        0 <= layout.avail(queue_size) <= 0xff * 0xffff,
        0 <= layout.used(queue_size) <= 0x1ff_ffff,
{
    assert(0 <= queue_size * layout.desc_size <= 0xff * 0xffff) by (nonlinear_arith)
        requires
            0 <= queue_size <= 0xffff,
            0 <= layout.desc_size <= 0xff,
    ;
}

/// Where the available ring starts.
pub fn avail_offset(layout: &Layout, queue_size: u16) -> (offset: usize)
    requires
        layout.wf(),
    ensures
        offset == layout.avail(queue_size),
{
    proof {
        lemma_queue_bounds(*layout, queue_size);
    }
    queue_size as usize * layout.desc_size
}

/// Where the used ring starts.
pub fn used_offset(layout: &Layout, queue_size: u16) -> (offset: usize)
    requires
        layout.wf(),
    ensures
        offset == layout.used(queue_size),
{
    proof {
        lemma_queue_bounds(*layout, queue_size);
    }
    let end: usize = avail_offset(layout, queue_size) + 6 + queue_size as usize * 2;
    wire::pages_for(end) * 4096
}

/// Pages of a queue.
pub fn vring_pages(layout: &Layout, queue_size: u16) -> (pages: usize)
    requires
        layout.wf(),
    ensures
        pages == layout.pages(queue_size),
{
    proof {
        lemma_queue_bounds(*layout, queue_size);
    }
    let end: usize = used_offset(layout, queue_size) + 6 + queue_size as usize * 8;
    wire::pages_for(end)
}

/// A little-endian write of `width` bytes.
#[derive(Clone, Copy, Debug, PartialEq, Eq, Structural)]
pub struct Write {
    pub offset: usize,
    pub width: u8,
    pub value: u64,
}

/// A write.
pub open spec fn write_of(offset: int, width: u8, value: u64) -> Write {
    Write { offset: offset as usize, width, value }
}

fn write(offset: usize, width: u8, value: u64) -> (write: Write)
    ensures
        write == write_of(offset as int, width, value),
{
    Write { offset, width, value }
}

/// The two halves of a 64-bit register, written one after the other.
pub open spec fn address_writes(offset: int, address: u64) -> Seq<Write> {
    seq![
        write_of(offset, 4, (address % 0x1_0000_0000) as u64),
        write_of(offset + 4, 4, (address / 0x1_0000_0000) as u64),
    ]
}

/// How far a device's bring-up has come.
#[derive(Clone, Copy, Debug, PartialEq, Eq, Structural)]
pub enum OpenStage {
    /// Waiting for the device's features.
    Features,
    /// Waiting for the status after the features were accepted.
    Status,
    /// Waiting for the queue's memory.
    Memory,
    /// Waiting for the largest queue size that the device takes.
    QueueSize { ring: u64 },
    /// Waiting for the queue's notification offset.
    Notify,
    Ready,
    Failed,
}

/// What a device's bring-up wants next, after the writes.
#[derive(Clone, Copy, Debug, PartialEq, Eq, Structural)]
pub enum Want {
    /// Read the device features.
    Features,
    /// Read the device status.
    Status,
    /// Allocate and zero the queue and the buffers.
    Memory,
    /// Read the queue size.
    QueueSize,
    /// Read the notification offset.
    Notify,
    /// The device serves requests; kick it at this offset.
    Ready { notify: usize },
    /// The device cannot be used.
    Fail { reason: OpenError },
}

/// Why a device cannot be used.
#[derive(Clone, Copy, Debug, PartialEq, Eq, Structural)]
pub enum OpenError {
    /// A required feature is missing.
    FeaturesMissing,
    /// The device did not accept the features.
    FeaturesRefused,
    /// There is no memory for the queue.
    NoMemory,
    /// The device's queue is too small.
    QueueTooSmall,
    /// The bring-up was driven out of order.
    OutOfOrder,
}

/// What was read back, or allocated.
#[derive(Clone, Copy, Debug, PartialEq, Eq, Structural)]
pub enum OpenEvent {
    Features { bits: u32 },
    Status { bits: u8 },
    /// The device address of the queue.
    Memory { ring: Option<u64> },
    QueueSize { largest: u16 },
    Notify { offset: u16 },
}

/// The writes that reset a device and ask for its features.
pub open spec fn reset_writes(layout: Layout) -> Seq<Write> {
    seq![
        write_of(layout.device_status as int, 1, 0),
        write_of(layout.device_status as int, 1, layout.status_acknowledge as u64),
        write_of(
            layout.device_status as int,
            1,
            (layout.status_acknowledge | layout.status_driver) as u64,
        ),
        write_of(layout.device_feature_select as int, 4, 1),
    ]
}

/// The writes that accept the required features.
pub open spec fn accept_writes(layout: Layout) -> Seq<Write> {
    seq![
        write_of(layout.driver_feature_select as int, 4, 1),
        write_of(layout.driver_feature as int, 4, layout.required() as u64),
        write_of(
            layout.device_status as int,
            1,
            (layout.status_acknowledge | layout.status_driver | layout.status_features_ok) as u64,
        ),
    ]
}

/// The writes that place the queue at device address `ring` and start the
/// device. `vector` is the queue's interrupt vector.
pub open spec fn queue_writes(layout: Layout, ring: u64, vector: u16) -> Seq<Write> {
    seq![
        write_of(layout.queue_vector as int, 2, vector as u64),
        write_of(layout.queue_size as int, 2, QUEUE_SIZE as u64),
    ] + address_writes(layout.queue_desc as int, ring) + address_writes(
        layout.queue_driver as int,
        (ring + layout.avail(QUEUE_SIZE)) as u64,
    ) + address_writes(
        layout.queue_device as int,
        (ring + layout.used(QUEUE_SIZE)) as u64,
    ) + seq![
        write_of(layout.queue_enable as int, 2, 1),
        write_of(
            layout.device_status as int,
            1,
            (layout.status_acknowledge | layout.status_driver | layout.status_features_ok
                | layout.status_driver_ok) as u64,
        ),
    ]
}

/// The bring-up after an event: its stage, the writes to perform and what it
/// wants next.
pub open spec fn open_next(stage: OpenStage, event: OpenEvent, layout: Layout, vector: u16) -> (
    OpenStage,
    Seq<Write>,
    Want,
) {
    match (stage, event) {
        (OpenStage::Features, OpenEvent::Features { bits }) => if bits & layout.required()
            == layout.required() {
            (OpenStage::Status, accept_writes(layout), Want::Status)
        } else {
            (
                OpenStage::Failed,
                Seq::empty(),
                Want::Fail { reason: OpenError::FeaturesMissing },
            )
        },
        (OpenStage::Status, OpenEvent::Status { bits }) => if bits & layout.status_features_ok
            == 0 {
            (
                OpenStage::Failed,
                Seq::empty(),
                Want::Fail { reason: OpenError::FeaturesRefused },
            )
        } else {
            (OpenStage::Memory, Seq::empty(), Want::Memory)
        },
        (OpenStage::Memory, OpenEvent::Memory { ring }) => match ring {
            Some(ring) => (
                OpenStage::QueueSize { ring },
                seq![write_of(layout.queue_select as int, 2, 0)],
                Want::QueueSize,
            ),
            None => (
                OpenStage::Failed,
                Seq::empty(),
                Want::Fail { reason: OpenError::NoMemory },
            ),
        },
        (OpenStage::QueueSize { ring }, OpenEvent::QueueSize { largest }) => if largest
            < QUEUE_SIZE {
            (
                OpenStage::Failed,
                Seq::empty(),
                Want::Fail { reason: OpenError::QueueTooSmall },
            )
        } else {
            (OpenStage::Notify, queue_writes(layout, ring, vector), Want::Notify)
        },
        (OpenStage::Notify, OpenEvent::Notify { offset }) => (
            OpenStage::Ready,
            Seq::empty(),
            Want::Ready {
                notify: (layout.notify_base + offset * layout.notify_multiplier) as usize,
            },
        ),
        _ => (OpenStage::Failed, Seq::empty(), Want::Fail { reason: OpenError::OutOfOrder }),
    }
}

/// What to do next in a bring-up.
pub struct OpenStep {
    pub writes: Vec<Write>,
    pub want: Want,
}

/// Start a device's bring-up: reset it and ask for its features.
pub fn open_start(layout: &Layout) -> (start: (OpenStage, OpenStep))
    ensures
        start.0 == OpenStage::Features,
        start.1.writes@ == reset_writes(*layout),
        start.1.want == Want::Features,
{
    let mut writes: Vec<Write> = Vec::new();
    writes.push(write(layout.device_status, 1, 0));
    writes.push(write(layout.device_status, 1, layout.status_acknowledge as u64));
    writes.push(
        write(
            layout.device_status,
            1,
            (layout.status_acknowledge | layout.status_driver) as u64,
        ),
    );
    writes.push(write(layout.device_feature_select, 4, 1));
    assert(writes@ =~= reset_writes(*layout));
    (OpenStage::Features, OpenStep { writes, want: Want::Features })
}

fn push_address(writes: &mut Vec<Write>, offset: usize, address: u64)
    requires
        offset <= 0xffff,
    ensures
        final(writes)@ == old(writes)@ + address_writes(offset as int, address),
{
    let ghost before = writes@;
    writes.push(write(offset, 4, address % 0x1_0000_0000));
    writes.push(write(offset + 4, 4, address / 0x1_0000_0000));
    assert(writes@ =~= before + address_writes(offset as int, address));
}

/// The ring addresses of a queue at device address `ring` do not overflow.
pub open spec fn ring_fits(ring: u64) -> bool {
    ring <= u64::MAX - 0x1ff_ffff
}

fn place_queue(layout: &Layout, ring: u64, vector: u16) -> (writes: Vec<Write>)
    requires
        layout.wf(),
        ring_fits(ring),
    ensures
        writes@ == queue_writes(*layout, ring, vector),
{
    proof {
        lemma_queue_bounds(*layout, QUEUE_SIZE);
    }
    let mut writes: Vec<Write> = Vec::new();
    writes.push(write(layout.queue_vector, 2, vector as u64));
    writes.push(write(layout.queue_size, 2, QUEUE_SIZE as u64));
    let avail: u64 = ring + avail_offset(layout, QUEUE_SIZE) as u64;
    let used: u64 = ring + used_offset(layout, QUEUE_SIZE) as u64;
    push_address(&mut writes, layout.queue_desc, ring);
    push_address(&mut writes, layout.queue_driver, avail);
    push_address(&mut writes, layout.queue_device, used);
    writes.push(write(layout.queue_enable, 2, 1));
    writes.push(
        write(
            layout.device_status,
            1,
            (layout.status_acknowledge | layout.status_driver | layout.status_features_ok
                | layout.status_driver_ok) as u64,
        ),
    );
    assert(writes@ =~= queue_writes(*layout, ring, vector));
    writes
}

/// Move a device's bring-up along.
pub fn open_step(stage: OpenStage, event: OpenEvent, layout: &Layout, vector: u16) -> (next: (
    OpenStage,
    OpenStep,
))
    requires
        layout.wf(),
        stage matches OpenStage::QueueSize { ring } ==> ring_fits(ring),
    ensures
        (next.0, next.1.writes@, next.1.want) == open_next(stage, event, *layout, vector),
{
    let mut writes: Vec<Write> = Vec::new();
    let mut stage_after: OpenStage = OpenStage::Failed;
    let want: Want = match (stage, event) {
        (OpenStage::Features, OpenEvent::Features { bits }) => {
            let required: u32 = layout.feature_version_1 | layout.feature_access_platform;
            if bits & required == required {
                writes.push(write(layout.driver_feature_select, 4, 1));
                writes.push(write(layout.driver_feature, 4, required as u64));
                writes.push(
                    write(
                        layout.device_status,
                        1,
                        (layout.status_acknowledge | layout.status_driver
                            | layout.status_features_ok) as u64,
                    ),
                );
                assert(writes@ =~= accept_writes(*layout));
                stage_after = OpenStage::Status;
                Want::Status
            } else {
                Want::Fail { reason: OpenError::FeaturesMissing }
            }
        },
        (OpenStage::Status, OpenEvent::Status { bits }) => {
            if bits & layout.status_features_ok == 0 {
                Want::Fail { reason: OpenError::FeaturesRefused }
            } else {
                stage_after = OpenStage::Memory;
                Want::Memory
            }
        },
        (OpenStage::Memory, OpenEvent::Memory { ring }) => match ring {
            Some(ring) => {
                writes.push(write(layout.queue_select, 2, 0));
                assert(writes@ =~= seq![write_of(layout.queue_select as int, 2, 0)]);
                stage_after = OpenStage::QueueSize { ring };
                Want::QueueSize
            },
            None => Want::Fail { reason: OpenError::NoMemory },
        },
        (OpenStage::QueueSize { ring }, OpenEvent::QueueSize { largest }) => {
            if largest < QUEUE_SIZE {
                Want::Fail { reason: OpenError::QueueTooSmall }
            } else {
                writes = place_queue(layout, ring, vector);
                stage_after = OpenStage::Notify;
                Want::Notify
            }
        },
        (OpenStage::Notify, OpenEvent::Notify { offset }) => {
            proof {
                assert(offset * layout.notify_multiplier <= 0xffff * 0xff) by (nonlinear_arith)
                    requires
                        offset <= 0xffff,
                        layout.notify_multiplier <= 0xff,
                ;
            }
            stage_after = OpenStage::Ready;
            Want::Ready {
                notify: layout.notify_base + offset as usize * layout.notify_multiplier,
            }
        },
        _ => Want::Fail { reason: OpenError::OutOfOrder },
    };
    (stage_after, OpenStep { writes, want })
}

/// The ring writes that give the entropy device one buffer of `capacity` bytes
/// to fill. No interrupt is asked for.
pub open spec fn entropy_writes(layout: Layout, buffer: u64, capacity: u32) -> Seq<Write> {
    seq![
        write_of(layout.desc_addr as int, 8, buffer),
        write_of(layout.desc_length as int, 4, capacity as u64),
        write_of(layout.desc_flags as int, 2, layout.flag_write as u64),
        write_of(layout.avail(QUEUE_SIZE) + layout.avail_flags, 2, 1),
    ]
}

/// Describe the entropy device's buffer.
pub fn entropy_setup(layout: &Layout, buffer: u64, capacity: u32) -> (writes: Vec<Write>)
    requires
        layout.wf(),
    ensures
        writes@ == entropy_writes(*layout, buffer, capacity),
{
    proof {
        lemma_queue_bounds(*layout, QUEUE_SIZE);
    }
    let mut writes: Vec<Write> = Vec::new();
    writes.push(write(layout.desc_addr, 8, buffer));
    writes.push(write(layout.desc_length, 4, capacity as u64));
    writes.push(write(layout.desc_flags, 2, layout.flag_write as u64));
    writes.push(write(avail_offset(layout, QUEUE_SIZE) + layout.avail_flags, 2, 1));
    assert(writes@ =~= entropy_writes(*layout, buffer, capacity));
    writes
}

/// A request for entropy under way.
#[derive(Clone, Copy, Debug, PartialEq, Eq, Structural)]
pub struct Fill {
    pub wanted: usize,
    pub filled: usize,
}

/// Offers a descriptor chain to the device.
pub struct Offer {
    /// Ring writes before the chain is offered.
    pub writes: Vec<Write>,
    /// The write that offers the chain. A release fence goes before it.
    pub publish: Write,
    /// The chain has been used once the used index equals this.
    pub until: u16,
}

/// The write that hands the device what was put at `position` of the ring.
pub open spec fn published(layout: Layout, position: u16) -> Write {
    write_of(
        layout.avail(QUEUE_SIZE) + layout.avail_idx,
        2,
        position.wrapping_add(1) as u64,
    )
}

/// Where the device says how many bytes it wrote for `position` of the ring.
pub open spec fn used_length_at(layout: Layout, position: u16) -> int {
    layout.used(QUEUE_SIZE) + layout.used_ring + position % QUEUE_SIZE * 8 + 4
}

/// The ring writes that ask for `len` bytes at available position `position`.
pub open spec fn fill_writes(layout: Layout, position: u16, len: u64) -> Seq<Write> {
    seq![
        write_of(layout.desc_length as int, 4, len),
        write_of(
            layout.avail(QUEUE_SIZE) + layout.avail_ring + position % QUEUE_SIZE * 2,
            2,
            0,
        ),
    ]
}

impl Fill {
    /// A request that begins.
    pub open spec fn begun(len: usize, max_request: usize) -> Option<Fill> {
        if len == 0 || len > max_request {
            None
        } else {
            Some(Fill { wanted: len, filled: 0 })
        }
    }

    /// The request once the device wrote `used` bytes, and where they belong.
    pub open spec fn after_use(self, used: u32) -> (Fill, Option<usize>) {
        if used == 0 || used > self.wanted - self.filled {
            (self, None)
        } else {
            (Fill { filled: (self.filled + used) as usize, ..self }, Some(self.filled))
        }
    }

    pub open spec fn wf(self, max_request: usize) -> bool {
        0 < self.wanted <= max_request && self.filled <= self.wanted
    }

    /// Accept a request for `len` bytes, unless it is empty or too large.
    pub fn begin(len: usize, max_request: usize) -> (fill: Option<Fill>)
        ensures
            fill == Fill::begun(len, max_request),
    {
        if len == 0 || len > max_request {
            None
        } else {
            Some(Fill { wanted: len, filled: 0 })
        }
    }

    /// Ask the device for the rest. `position` is the next available position.
    pub fn request(&self, layout: &Layout, position: u16) -> (offer: Offer)
        requires
            layout.wf(),
            self.filled < self.wanted <= u32::MAX,
        ensures
            offer.writes@ == fill_writes(*layout, position, (self.wanted - self.filled) as u64),
            offer.publish == published(*layout, position),
            offer.until == position.wrapping_add(1),
    {
        proof {
            lemma_queue_bounds(*layout, QUEUE_SIZE);
        }
        let avail: usize = avail_offset(layout, QUEUE_SIZE);
        let slot: usize = (position % QUEUE_SIZE) as usize;
        let until: u16 = position.wrapping_add(1);
        let mut writes: Vec<Write> = Vec::new();
        writes.push(write(layout.desc_length, 4, (self.wanted - self.filled) as u64));
        writes.push(write(avail + layout.avail_ring + slot * 2, 2, 0));
        assert(writes@ =~= fill_writes(
            *layout,
            position,
            (self.wanted - self.filled) as u64,
        ));
        Offer { writes, publish: write(avail + layout.avail_idx, 2, until as u64), until }
    }

    /// The device says that it wrote `used` bytes. Returns where they go, or
    /// `None` if it cannot have written that many.
    pub fn accept(&mut self, used: u32) -> (at: Option<usize>)
        requires
            old(self).filled < old(self).wanted,
        ensures
            (*final(self), at) == old(self).after_use(used),
    {
        let rest: usize = self.wanted - self.filled;
        if used == 0 || used as usize > rest {
            return None;
        }
        let at: usize = self.filled;
        self.filled = self.filled + used as usize;
        Some(at)
    }

    /// Whether all of the request is there.
    pub fn is_complete(&self) -> (complete: bool)
        ensures
            complete == (self.filled >= self.wanted),
    {
        self.filled >= self.wanted
    }
}

/// Where the used length of the chain at `position` stands in the ring.
pub fn used_length_offset(layout: &Layout, position: u16) -> (offset: usize)
    requires
        layout.wf(),
    ensures
        offset == used_length_at(*layout, position),
{
    proof {
        lemma_queue_bounds(*layout, QUEUE_SIZE);
    }
    used_offset(layout, QUEUE_SIZE) + layout.used_ring + (position % QUEUE_SIZE) as usize * 8 + 4
}

/// Every accepted answer of the entropy device adds at least one byte and never
/// more than was asked for, so that a request is filled after at most as many
/// answers as it has bytes.
pub proof fn law_fill_makes_progress(before: Fill, used: u32, after: Fill, max_request: usize)
    requires
        before.wf(max_request),
        before.filled < before.wanted,
        0 < used <= before.wanted - before.filled,
        after == (Fill { filled: (before.filled + used) as usize, ..before }),
    ensures
        after.wf(max_request),
        after.wanted - after.filled < before.wanted - before.filled,
        after.filled == before.filled + used,
{
}

/// What a block request does.
#[derive(Clone, Copy, Debug, PartialEq, Eq, Structural)]
pub enum BlockKind {
    Read,
    Write,
    Flush,
}

/// The request type that the device knows.
pub open spec fn block_type(kind: BlockKind) -> u32 {
    match kind {
        BlockKind::Read => 0,
        BlockKind::Write => 1,
        BlockKind::Flush => 4,
    }
}

fn type_of(kind: BlockKind) -> (code: u32)
    ensures
        code == block_type(kind),
{
    match kind {
        BlockKind::Read => 0,
        BlockKind::Write => 1,
        BlockKind::Flush => 4,
    }
}

/// The blocks of a device that can be addressed.
pub open spec fn blocks_of(capacity: u64) -> Option<u32> {
    if capacity == 0 {
        None
    } else if capacity > u32::MAX {
        Some(u32::MAX)
    } else {
        Some(capacity as u32)
    }
}

/// A block device's size in blocks, where it has any. Larger devices are used
/// up to the largest block count that the protocol can say.
pub fn usable_blocks(capacity: u64) -> (blocks: Option<u32>)
    ensures
        blocks == blocks_of(capacity),
{
    if capacity == 0 {
        None
    } else if capacity > 0xffff_ffff {
        Some(u32::MAX)
    } else {
        Some(capacity as u32)
    }
}

/// The bytes that a read or write of `count` blocks from `lba` on moves, where
/// the blocks exist and the attached memory of `memory` bytes holds them.
pub open spec fn block_transfer(blocks: u32, lba: u64, count: u32, memory: Option<usize>) -> Option<
    u32,
> {
    let bytes = count * BLOCK_SIZE;
    if count == 0 || bytes > u32::MAX || memory is None || bytes > memory->0 || lba + count
        > blocks {
        None
    } else {
        Some(bytes as u32)
    }
}

/// Check a read or write. `None` is an invalid range.
pub fn check_block_transfer(blocks: u32, lba: u64, count: u32, memory: Option<usize>) -> (bytes:
    Option<u32>)
    ensures
        bytes == block_transfer(blocks, lba, count, memory),
{
    let bytes: u64 = count as u64 * 512;
    assert(BLOCK_SIZE == 512);
    let room: usize = match memory {
        Some(room) => room,
        None => {
            return None;
        },
    };
    if count == 0 || bytes > 0xffff_ffff || bytes > room as u64 || lba > u64::MAX - count as u64
        || lba + count as u64 > blocks as u64 {
        return None;
    }
    Some(bytes as u32)
}

/// The ring writes that build the header and status descriptors once. The
/// request page at device address `request` holds the 16-byte header and,
/// behind it, the status byte.
pub open spec fn chain_writes(layout: Layout, request: u64) -> Seq<Write> {
    let last = 2 * layout.desc_size;
    address_writes(layout.desc_addr as int, request) + seq![
        write_of(layout.desc_length as int, 4, 16),
        write_of(layout.desc_flags as int, 2, layout.flag_next as u64),
        write_of(layout.desc_next as int, 2, 1),
    ] + address_writes(last + layout.desc_addr, (request + 16) as u64) + seq![
        write_of(last + layout.desc_length, 4, 1),
        write_of(last + layout.desc_flags, 2, layout.flag_write as u64),
        write_of(last + layout.desc_next, 2, 0),
    ]
}

/// Build the descriptor chain of a block device: header, data, status.
pub fn block_setup(layout: &Layout, request: u64) -> (writes: Vec<Write>)
    requires
        layout.wf(),
        request <= u64::MAX - 16,
    ensures
        writes@ == chain_writes(*layout, request),
{
    let mut writes: Vec<Write> = Vec::new();
    let last: usize = 2 * layout.desc_size;
    push_address(&mut writes, layout.desc_addr, request);
    writes.push(write(layout.desc_length, 4, 16));
    writes.push(write(layout.desc_flags, 2, layout.flag_next as u64));
    writes.push(write(layout.desc_next, 2, 1));
    push_address(&mut writes, last + layout.desc_addr, request + 16);
    writes.push(write(last + layout.desc_length, 4, 1));
    writes.push(write(last + layout.desc_flags, 2, layout.flag_write as u64));
    writes.push(write(last + layout.desc_next, 2, 0));
    assert(writes@ =~= chain_writes(*layout, request));
    writes
}

/// The writes to the request page: the header, and a status that only the
/// device can clear.
pub open spec fn header_writes(kind: BlockKind, sector: u64) -> Seq<Write> {
    seq![write_of(0, 4, block_type(kind) as u64), write_of(4, 4, 0)] + address_writes(8, sector)
        + seq![write_of(16, 1, 0xff)]
}

/// The ring writes of a request. Without data the header chains straight to the
/// status byte.
pub open spec fn request_writes(
    layout: Layout,
    kind: BlockKind,
    data: u64,
    len: u32,
    position: u16,
) -> Seq<Write> {
    let middle = layout.desc_size as int;
    let slot = write_of(
        layout.avail(QUEUE_SIZE) + layout.avail_ring + position % QUEUE_SIZE * 2,
        2,
        0,
    );
    if len == 0 {
        seq![write_of(layout.desc_next as int, 2, 2), slot]
    } else {
        seq![write_of(layout.desc_next as int, 2, 1)] + address_writes(
            middle + layout.desc_addr,
            data,
        ) + seq![
            write_of(middle + layout.desc_length, 4, len as u64),
            write_of(
                middle + layout.desc_flags,
                2,
                if kind == BlockKind::Read {
                    (layout.flag_next | layout.flag_write) as u64
                } else {
                    layout.flag_next as u64
                },
            ),
            write_of(middle + layout.desc_next, 2, 2),
            slot,
        ]
    }
}

/// A block request that is ready to go.
pub struct BlockRequest {
    /// Writes to the request page.
    pub header: Vec<Write>,
    pub offer: Offer,
}

/// Build a request. `data` and `len` say where the device finds or puts the
/// blocks; `position` is the next available position.
pub fn block_request(
    layout: &Layout,
    kind: BlockKind,
    sector: u64,
    data: u64,
    len: u32,
    position: u16,
) -> (request: BlockRequest)
    requires
        layout.wf(),
    ensures
        request.header@ == header_writes(kind, sector),
        request.offer.writes@ == request_writes(*layout, kind, data, len, position),
        request.offer.publish == published(*layout, position),
        request.offer.until == position.wrapping_add(1),
{
    proof {
        lemma_queue_bounds(*layout, QUEUE_SIZE);
    }
    let mut header: Vec<Write> = Vec::new();
    header.push(write(0, 4, type_of(kind) as u64));
    header.push(write(4, 4, 0));
    push_address(&mut header, 8, sector);
    header.push(write(16, 1, 0xff));
    assert(header@ =~= header_writes(kind, sector));
    let avail: usize = avail_offset(layout, QUEUE_SIZE);
    let slot: usize = (position % QUEUE_SIZE) as usize;
    let until: u16 = position.wrapping_add(1);
    let mut writes: Vec<Write> = Vec::new();
    if len == 0 {
        writes.push(write(layout.desc_next, 2, 2));
    } else {
        let middle: usize = layout.desc_size;
        let flags: u64 = match kind {
            BlockKind::Read => (layout.flag_next | layout.flag_write) as u64,
            _ => layout.flag_next as u64,
        };
        writes.push(write(layout.desc_next, 2, 1));
        push_address(&mut writes, middle + layout.desc_addr, data);
        writes.push(write(middle + layout.desc_length, 4, len as u64));
        writes.push(write(middle + layout.desc_flags, 2, flags));
        writes.push(write(middle + layout.desc_next, 2, 2));
    }
    writes.push(write(avail + layout.avail_ring + slot * 2, 2, 0));
    assert(writes@ =~= request_writes(*layout, kind, data, len, position));
    BlockRequest {
        header,
        offer: Offer { writes, publish: write(avail + layout.avail_idx, 2, until as u64), until },
    }
}

/// Whether a request succeeded: the device used the chain in time and cleared
/// the status byte.
pub fn block_succeeded(used: bool, status: u8) -> (ok: bool)
    ensures
        ok == (used && status == 0),
{
    used && status == 0
}

/// The parts of a ring follow each other without overlap: descriptors, what the
/// driver offers, and, from the next page on, what the device used, within the pages
/// that the ring is given; none of it is given more than it needs.
pub proof fn law_ring_parts_do_not_overlap(layout: Layout, queue_size: u16)
    requires
        layout.wf(),
        queue_size > 0,
    ensures
        layout.avail(queue_size) == queue_size * layout.desc_size,
        layout.avail(queue_size) + 6 + 2 * queue_size <= layout.used(queue_size),
        layout.used(queue_size) < layout.avail(queue_size) + 6 + 2 * queue_size + 4096,
        layout.used(queue_size) % 4096 == 0,
        layout.used(queue_size) + 6 + 8 * queue_size <= 4096 * layout.pages(queue_size),
        4096 * layout.pages(queue_size) < layout.used(queue_size) + 6 + 8 * queue_size + 4096,
{
    assert(layout.avail(queue_size) >= 0) by (nonlinear_arith)
        requires
            layout.avail(queue_size) == queue_size * layout.desc_size,
    ;
}

/// An address goes out in two halves, the low one first, that make it up again.
pub proof fn law_address_goes_out_in_halves(offset: int, address: u64)
    requires
        0 <= offset <= 0xffff_ffff - 4,
    ensures
        ({
            let writes = address_writes(offset, address);
            &&& writes.len() == 2
            &&& writes[0].offset == offset && writes[1].offset == offset + 4
            &&& writes[0].width == 4 && writes[1].width == 4
            &&& writes[1].value * 0x1_0000_0000 + writes[0].value == address
            &&& writes[0].value <= 0xffff_ffff
        }),
{
}

/// A device is opened step by step: it is reset and told of its driver, its features
/// are taken only with the two that are needed, it must agree to them, have memory
/// for its ring and room for eight descriptors, and is then ready.
pub proof fn law_device_is_opened_step_by_step(
    layout: Layout,
    vector: u16,
    bits: u32,
    status: u8,
    ring: u64,
    largest: u16,
    offset: u16,
)
    requires
        layout.wf(),
        ring_fits(ring),
    ensures
        ({
            let features = open_next(
                OpenStage::Features,
                OpenEvent::Features { bits },
                layout,
                vector,
            );
            let both = layout.feature_version_1 | layout.feature_access_platform;
            &&& bits & both == both ==> features.0 == OpenStage::Status && features.2
                == Want::Status
            &&& bits & both != both ==> features.2 == (Want::Fail {
                reason: OpenError::FeaturesMissing,
            })
        }),
        ({
            let agreed = open_next(OpenStage::Status, OpenEvent::Status { bits: status }, layout, vector);
            &&& status & layout.status_features_ok != 0 ==> agreed.0 == OpenStage::Memory
                && agreed.2 == Want::Memory
            &&& status & layout.status_features_ok == 0 ==> agreed.2 == (Want::Fail {
                reason: OpenError::FeaturesRefused,
            })
        }),
        open_next(OpenStage::Memory, OpenEvent::Memory { ring: Some(ring) }, layout, vector) == (
            OpenStage::QueueSize { ring },
            seq![Write { offset: layout.queue_select, width: 2, value: 0 }],
            Want::QueueSize,
        ),
        open_next(OpenStage::Memory, OpenEvent::Memory { ring: None }, layout, vector).2 == (
        Want::Fail { reason: OpenError::NoMemory }),
        ({
            let sized = open_next(
                OpenStage::QueueSize { ring },
                OpenEvent::QueueSize { largest },
                layout,
                vector,
            );
            &&& largest >= 8 ==> sized.0 == OpenStage::Notify && sized.2 == Want::Notify
            &&& largest < 8 ==> sized.2 == (Want::Fail { reason: OpenError::QueueTooSmall })
                && sized.1.len() == 0
        }),
        open_next(OpenStage::Notify, OpenEvent::Notify { offset }, layout, vector).0
            == OpenStage::Ready,
        open_next(OpenStage::Notify, OpenEvent::Notify { offset }, layout, vector).2 == (
        Want::Ready {
            notify: (layout.notify_base + offset * layout.notify_multiplier) as usize,
        }),
        open_next(OpenStage::Ready, OpenEvent::Features { bits }, layout, vector).2 == (
        Want::Fail { reason: OpenError::OutOfOrder }),
{
}

/// What is written on the way: a reset, then the driver's standing bit by bit, the
/// upper features, and the ring of eight descriptors where it lies.
pub proof fn law_opening_writes(layout: Layout, ring: u64, vector: u16)
    requires
        layout.wf(),
        ring_fits(ring),
    ensures
        ({
            let first = reset_writes(layout);
            let known = layout.status_acknowledge | layout.status_driver;
            &&& first.len() == 4
            &&& first[0] == (Write { offset: layout.device_status, width: 1, value: 0 })
            &&& first[1] == (Write {
                offset: layout.device_status,
                width: 1,
                value: layout.status_acknowledge as u64,
            })
            &&& first[2] == (Write { offset: layout.device_status, width: 1, value: known as u64 })
            &&& first[3] == (Write { offset: layout.device_feature_select, width: 4, value: 1 })
        }),
        ({
            let accept = accept_writes(layout);
            let known = layout.status_acknowledge | layout.status_driver
                | layout.status_features_ok;
            let both = layout.feature_version_1 | layout.feature_access_platform;
            &&& accept.len() == 3
            &&& accept[0] == (Write { offset: layout.driver_feature_select, width: 4, value: 1 })
            &&& accept[1] == (Write { offset: layout.driver_feature, width: 4, value: both as u64 })
            &&& accept[2] == (Write { offset: layout.device_status, width: 1, value: known as u64 })
        }),
        ({
            let queue = queue_writes(layout, ring, vector);
            let ready = layout.status_acknowledge | layout.status_driver
                | layout.status_features_ok | layout.status_driver_ok;
            &&& queue.len() == 10
            &&& queue[0] == (Write { offset: layout.queue_vector, width: 2, value: vector as u64 })
            &&& queue[1] == (Write { offset: layout.queue_size, width: 2, value: 8 })
            &&& queue.subrange(2, 4) == address_writes(layout.queue_desc as int, ring)
            &&& queue.subrange(4, 6) == address_writes(
                layout.queue_driver as int,
                (ring + 8 * layout.desc_size) as u64,
            )
            &&& queue.subrange(6, 8) == address_writes(
                layout.queue_device as int,
                (ring + layout.used(8)) as u64,
            )
            &&& queue[8] == (Write { offset: layout.queue_enable, width: 2, value: 1 })
            &&& queue[9] == (Write { offset: layout.device_status, width: 1, value: ready as u64 })
        }),
{
    let queue = queue_writes(layout, ring, vector);
    assert(queue.subrange(2, 4) =~= address_writes(layout.queue_desc as int, ring));
    assert(queue.subrange(4, 6) =~= address_writes(
        layout.queue_driver as int,
        (ring + layout.avail(8)) as u64,
    ));
    assert(queue.subrange(6, 8) =~= address_writes(
        layout.queue_device as int,
        (ring + layout.used(8)) as u64,
    ));
}

/// A transfer is admitted exactly where it has blocks, ends on the device, and its
/// memory holds its 512 bytes for each block.
pub proof fn law_block_transfers_are_refused_only_for_a_reason(
    blocks: u32,
    lba: u64,
    count: u32,
    memory: Option<usize>,
)
    ensures
        block_transfer(blocks, lba, count, memory) is Some <==> count > 0 && count * 512
            <= 0xffff_ffff && memory is Some && count * 512 <= memory->0 && lba + count <= blocks,
        block_transfer(blocks, lba, count, memory) matches Some(bytes) ==> bytes == count * 512,
{
}

/// A block request's header has its type, its sector in two halves and, for the
/// device to overwrite, a status that is no success.
pub proof fn law_block_header_by_its_fields(kind: BlockKind, sector: u64)
    ensures
        ({
            let writes = header_writes(kind, sector);
            &&& writes.len() == 5
            &&& writes[0] == (Write {
                offset: 0,
                width: 4,
                value: if kind == BlockKind::Read {
                    0
                } else if kind == BlockKind::Write {
                    1
                } else {
                    4
                },
            })
            &&& writes[1] == (Write { offset: 4, width: 4, value: 0 })
            &&& writes[2].offset == 8 && writes[3].offset == 12
            &&& writes[3].value * 0x1_0000_0000 + writes[2].value == sector
            &&& writes[2].value <= 0xffff_ffff
            &&& writes[4] == (Write { offset: 16, width: 1, value: 0xff })
        }),
{
}

/// The descriptors of a request lead from its header over its data to its status;
/// without data from the header to the status. The device may write the data only
/// where it is read, and the status always.
pub proof fn law_descriptors_lead_to_the_status(
    layout: Layout,
    request: u64,
    kind: BlockKind,
    data: u64,
    len: u32,
    position: u16,
)
    requires
        layout.wf(),
        request <= u64::MAX - 16,
    ensures
        ({
            let chain = chain_writes(layout, request);
            let last = 2 * layout.desc_size as int;
            &&& chain.len() == 10
            &&& chain.subrange(0, 2) == address_writes(layout.desc_addr as int, request)
            &&& chain[2] == write_of(layout.desc_length as int, 4, 16)
            &&& chain[3] == write_of(layout.desc_flags as int, 2, layout.flag_next as u64)
            &&& chain[4] == write_of(layout.desc_next as int, 2, 1)
            &&& chain.subrange(5, 7) == address_writes(
                last + layout.desc_addr,
                (request + 16) as u64,
            )
            &&& chain[7] == write_of(last + layout.desc_length, 4, 1)
            &&& chain[8] == write_of(last + layout.desc_flags, 2, layout.flag_write as u64)
            &&& chain[9] == write_of(last + layout.desc_next, 2, 0)
        }),
        ({
            let writes = request_writes(layout, kind, data, len, position);
            let at = layout.desc_size as int;
            let flags = if kind == BlockKind::Read {
                layout.flag_next | layout.flag_write
            } else {
                layout.flag_next
            };
            let slot = write_of(
                8 * layout.desc_size + layout.avail_ring + 2 * (position as int % 8),
                2,
                0,
            );
            if len == 0 {
                &&& writes.len() == 2
                &&& writes[0] == write_of(layout.desc_next as int, 2, 2)
                &&& writes[1] == slot
            } else {
                &&& writes.len() == 7
                &&& writes[0] == write_of(layout.desc_next as int, 2, 1)
                &&& writes.subrange(1, 3) == address_writes(at + layout.desc_addr, data)
                &&& writes[3] == write_of(at + layout.desc_length, 4, len as u64)
                &&& writes[4] == write_of(at + layout.desc_flags, 2, flags as u64)
                &&& writes[5] == write_of(at + layout.desc_next, 2, 2)
                &&& writes[6] == slot
            }
        }),
{
    let chain = chain_writes(layout, request);
    assert(chain.subrange(0, 2) =~= address_writes(layout.desc_addr as int, request));
    assert(chain.subrange(5, 7) =~= address_writes(
        2 * layout.desc_size + layout.desc_addr,
        (request + 16) as u64,
    ));
    let writes = request_writes(layout, kind, data, len, position);
    if len != 0 {
        assert(writes.subrange(1, 3) =~= address_writes(
            layout.desc_size + layout.desc_addr,
            data,
        ));
    }
}

/// The places of the ring are used in turn, eight of them, and each is published by
/// the number of the one that follows.
pub proof fn law_ring_places_are_used_in_turn(layout: Layout, position: u16, len: u64)
    requires
        layout.wf(),
        position < u16::MAX,
    ensures
        published(layout, position).value == position + 1,
        published(layout, position).width == 2,
        published(layout, position).offset == 8 * layout.desc_size + layout.avail_idx,
        used_length_at(layout, position) == layout.used(8) + layout.used_ring + 8 * (
        position as int % 8) + 4,
        position < u16::MAX - 8 ==> used_length_at(layout, (position + 8) as u16)
            == used_length_at(layout, position),
        ({
            let writes = fill_writes(layout, position, len);
            &&& writes.len() == 2
            &&& writes[0] == write_of(layout.desc_length as int, 4, len)
            &&& writes[1] == write_of(
                8 * layout.desc_size + layout.avail_ring + 2 * (position as int % 8),
                2,
                0,
            )
        }),
{
}

/// The entropy device's one descriptor is the buffer, which it writes; it is asked not
/// to interrupt.
pub proof fn law_entropy_buffer_is_described(layout: Layout, buffer: u64, capacity: u32)
    requires
        layout.wf(),
    ensures
        entropy_writes(layout, buffer, capacity) == seq![
            Write { offset: layout.desc_addr, width: 8, value: buffer },
            Write { offset: layout.desc_length, width: 4, value: capacity as u64 },
            Write { offset: layout.desc_flags, width: 2, value: layout.flag_write as u64 },
            Write {
                offset: (8 * layout.desc_size + layout.avail_flags) as usize,
                width: 2,
                value: 1,
            },
        ],
{
}

/// A request for entropy is taken up from one byte to the most that is allowed, and is
/// filled from its start on, each answer behind the one before it.
pub proof fn law_fill_goes_on_behind_itself(len: usize, max_request: usize, fill: Fill, used: u32)
    requires
        fill.filled < fill.wanted,
    ensures
        Fill::begun(len, max_request) is Some <==> 0 < len <= max_request,
        Fill::begun(len, max_request) matches Some(begun) ==> begun.wanted == len && begun.filled
            == 0,
        ({
            let (after, at) = fill.after_use(used);
            &&& at is Some <==> 0 < used <= fill.wanted - fill.filled
            &&& at is Some ==> at->0 == fill.filled && after.filled == fill.filled + used
                && after.wanted == fill.wanted
            &&& at is None ==> after == fill
        }),
{
}

/// A device has as many blocks as it says, as far as they can be addressed; one
/// without any is not used.
pub proof fn law_device_blocks_are_addressable(capacity: u64)
    ensures
        blocks_of(capacity) is None <==> capacity == 0,
        0 < capacity <= 0xffff_ffff ==> blocks_of(capacity)->0 == capacity,
        capacity > 0xffff_ffff ==> blocks_of(capacity)->0 == 0xffff_ffff,
{
}

} // verus!
