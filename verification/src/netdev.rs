//! The network device driver: frames in and out of a virtio network device
//! behind the legacy transport. It knows nothing of IP.
//!
//! The caller maps registers and memory, performs the writes that this module
//! lists, in order, and reports what it reads back. Register offsets, status
//! bits and descriptor offsets come from the caller.
use vstd::prelude::*;

use crate::virtio::Write;
use crate::wire;

verus! {

/// Bytes that each buffer of the device holds.
pub const BUFFER_BYTES: u64 = 2048;

/// Bytes that a received frame is copied as.
pub const RECEIVED_BYTES: usize = 64;

/// Where the receive buffers are mapped, counted from their descriptor page.
pub const BUFFER_DISTANCE: usize = 0x2000;

/// The registers of the device, its status bits, and the layout of a descriptor
/// page.
#[derive(Clone, Copy, Debug, PartialEq, Eq)]
pub struct LegacyLayout {
    pub device_status: usize,
    pub queue_select: usize,
    pub queue_size: usize,
    pub queue_address: usize,
    pub queue_notify: usize,
    pub status_acknowledge: u8,
    pub status_driver: u8,
    pub status_features_ok: u8,
    pub status_driver_ok: u8,
    pub transmit_queue: u16,
    pub desc_size: usize,
    pub desc_addr: usize,
    pub desc_length: usize,
    pub desc_flags: usize,
    pub flag_write: u16,
    pub avail_idx: usize,
    pub avail_ring: usize,
}

impl LegacyLayout {
    /// The offsets are small, as the transport's are.
    pub open spec fn wf(self) -> bool {
        &&& self.desc_size <= 0xff
        &&& self.desc_addr <= 0xff
        &&& self.desc_length <= 0xff
        &&& self.desc_flags <= 0xff
        &&& self.avail_idx <= 0xff_ffff
        &&& self.avail_ring <= 0xff_ffff
    }

    /// Whether the offsets are usable.
    pub fn is_wf(&self) -> (ok: bool)
        ensures
            ok == self.wf(),
    {
        self.desc_size <= 0xff && self.desc_addr <= 0xff && self.desc_length <= 0xff
            && self.desc_flags <= 0xff && self.avail_idx <= 0xff_ffff
            && self.avail_ring <= 0xff_ffff
    }
}

/// A write.
pub open spec fn put(offset: int, width: u8, value: u64) -> Write {
    Write { offset: offset as usize, width, value }
}

/// The device is reset and told that a driver has found it.
pub open spec fn start_writes(layout: LegacyLayout) -> Seq<Write> {
    seq![
        put(layout.device_status as int, 1, 0),
        put(layout.device_status as int, 1, layout.status_acknowledge as u64),
        put(
            layout.device_status as int,
            1,
            (layout.status_acknowledge | layout.status_driver) as u64,
        ),
    ]
}

/// List the writes that reset the device.
pub fn start(layout: &LegacyLayout) -> (writes: Vec<Write>)
    ensures
        writes@ == start_writes(*layout),
{
    let mut writes: Vec<Write> = Vec::new();
    writes.push(Write { offset: layout.device_status, width: 1, value: 0 });
    writes.push(
        Write { offset: layout.device_status, width: 1, value: layout.status_acknowledge as u64 },
    );
    writes.push(
        Write {
            offset: layout.device_status,
            width: 1,
            value: (layout.status_acknowledge | layout.status_driver) as u64,
        },
    );
    assert(writes@ =~= start_writes(*layout));
    writes
}

/// The write that accepts the device's features as they are.
pub fn accept_features(layout: &LegacyLayout) -> (write: Write)
    ensures
        write == put(
            layout.device_status as int,
            1,
            (layout.status_acknowledge | layout.status_driver | layout.status_features_ok) as u64,
        ),
{
    Write {
        offset: layout.device_status,
        width: 1,
        value: (layout.status_acknowledge | layout.status_driver | layout.status_features_ok)
            as u64,
    }
}

/// The write that goes on without negotiated features, for a device that shows
/// by its status that it has refused them.
pub fn features_refused(layout: &LegacyLayout, status: u8) -> (write: Option<Write>)
    ensures
        write == (if status & layout.status_features_ok == 0 {
            Some(
                put(
                    layout.device_status as int,
                    1,
                    (layout.status_acknowledge | layout.status_driver) as u64,
                ),
            )
        } else {
            None
        }),
{
    if status & layout.status_features_ok == 0 {
        Some(
            Write {
                offset: layout.device_status,
                width: 1,
                value: (layout.status_acknowledge | layout.status_driver) as u64,
            },
        )
    } else {
        None
    }
}

/// The page number of a physical address, as the device takes it.
pub fn page_number(address: u64) -> (number: u32)
    ensures
        number == (address / 4096) % 0x1_0000_0000,
{
    #[verifier::truncate]
    let number: u32 = (address / 4096) as u32;
    proof {
        let pages = address / 4096;
        assert(pages as u32 == pages % 0x1_0000_0000) by (bit_vector);
    }
    number
}

/// The descriptor of a receive buffer: a buffer that the device writes.
pub open spec fn slot_writes(layout: LegacyLayout, page: usize, slot: u16) -> Seq<Write> {
    let at = slot * layout.desc_size;
    seq![
        put(at + layout.desc_addr, 4, ((page + BUFFER_DISTANCE) % 0x1_0000_0000) as u64),
        put(at + layout.desc_length, 4, BUFFER_BYTES),
        put(at + layout.desc_flags, 2, layout.flag_write as u64),
    ]
}

/// Describe a slot of a zeroed descriptor page that is mapped at `page`.
pub fn zero_vq(layout: &LegacyLayout, page: usize, slot: u16) -> (writes: Vec<Write>)
    requires
        layout.wf(),
        page + BUFFER_DISTANCE <= usize::MAX,
    ensures
        writes@ == slot_writes(*layout, page, slot),
{
    assert(slot * layout.desc_size <= 0xffff * 0xff) by (nonlinear_arith)
        requires
            slot <= 0xffff,
            layout.desc_size <= 0xff,
    ;
    let at: usize = slot as usize * layout.desc_size;
    let address: u64 = (page + BUFFER_DISTANCE) as u64 % 0x1_0000_0000;
    let mut writes: Vec<Write> = Vec::new();
    writes.push(Write { offset: at + layout.desc_addr, width: 4, value: address });
    writes.push(Write { offset: at + layout.desc_length, width: 4, value: BUFFER_BYTES });
    writes.push(
        Write { offset: at + layout.desc_flags, width: 2, value: layout.flag_write as u64 },
    );
    assert(writes@ =~= slot_writes(*layout, page, slot));
    writes
}

/// A slot is made available: it goes to the place that the ring's index names,
/// and the index goes on.
pub open spec fn available_writes(layout: LegacyLayout, slot: u16, index: u16) -> Seq<Write> {
    seq![
        put(layout.avail_ring + 2 * index, 2, slot as u64),
        put(layout.avail_idx as int, 2, index.wrapping_add(1) as u64),
    ]
}

/// Make a slot available, given the ring's index.
pub fn make_available(layout: &LegacyLayout, slot: u16, index: u16) -> (writes: Vec<Write>)
    requires
        layout.wf(),
    ensures
        writes@ == available_writes(*layout, slot, index),
{
    let mut writes: Vec<Write> = Vec::new();
    writes.push(
        Write { offset: layout.avail_ring + 2 * index as usize, width: 2, value: slot as u64 },
    );
    writes.push(
        Write { offset: layout.avail_idx, width: 2, value: index.wrapping_add(1) as u64 },
    );
    assert(writes@ =~= available_writes(*layout, slot, index));
    writes
}

/// The write that leaves a transmit slot without a frame.
pub fn clear_slot(layout: &LegacyLayout, slot: u16) -> (write: Write)
    requires
        layout.wf(),
    ensures
        write == put(slot * layout.desc_size + layout.desc_addr, 4, 0),
{
    assert(slot * layout.desc_size <= 0xffff * 0xff) by (nonlinear_arith)
        requires
            slot <= 0xffff,
            layout.desc_size <= 0xff,
    ;
    Write { offset: slot as usize * layout.desc_size + layout.desc_addr, width: 4, value: 0 }
}

/// A queue is selected, sized and placed.
pub open spec fn queue_writes(layout: LegacyLayout, queue: u16, size: u16, page: u32) -> Seq<Write> {
    seq![
        put(layout.queue_select as int, 2, queue as u64),
        put(layout.queue_size as int, 2, size as u64),
        put(layout.queue_address as int, 4, page as u64),
    ]
}

/// List the writes that place a queue.
pub fn cfg_vq(layout: &LegacyLayout, queue: u16, size: u16, page: u32) -> (writes: Vec<Write>)
    ensures
        writes@ == queue_writes(*layout, queue, size, page),
{
    let mut writes: Vec<Write> = Vec::new();
    writes.push(Write { offset: layout.queue_select, width: 2, value: queue as u64 });
    writes.push(Write { offset: layout.queue_size, width: 2, value: size as u64 });
    writes.push(Write { offset: layout.queue_address, width: 4, value: page as u64 });
    assert(writes@ =~= queue_writes(*layout, queue, size, page));
    writes
}

/// The write that starts the device.
pub fn ready(layout: &LegacyLayout) -> (write: Write)
    ensures
        write == put(
            layout.device_status as int,
            1,
            (layout.status_acknowledge | layout.status_driver | layout.status_driver_ok
                | layout.status_features_ok) as u64,
        ),
{
    Write {
        offset: layout.device_status,
        width: 1,
        value: (layout.status_acknowledge | layout.status_driver | layout.status_driver_ok
            | layout.status_features_ok) as u64,
    }
}

/// A request to the driver.
#[derive(Clone, Copy, Debug, PartialEq, Eq, Structural)]
pub enum Request {
    Status,
    /// Transmit the frame at this physical address, or zero.
    Send { frame: u64 },
    /// Wait for a frame.
    Receive,
    Shutdown,
    Unknown,
}

/// The numbers of the requests.
#[derive(Clone, Copy, Debug, PartialEq, Eq)]
pub struct Opcodes {
    pub status: u32,
    pub send: u32,
    pub receive: u32,
    pub shutdown: u32,
}

/// The request that a number stands for.
pub open spec fn request_for(codes: Opcodes, opcode: u32, frame: u64) -> Request {
    if opcode == codes.status {
        Request::Status
    } else if opcode == codes.send {
        Request::Send { frame }
    } else if opcode == codes.receive {
        Request::Receive
    } else if opcode == codes.shutdown {
        Request::Shutdown
    } else {
        Request::Unknown
    }
}

/// Tell a request by its number.
pub fn request_of(codes: &Opcodes, opcode: u32, frame: u64) -> (request: Request)
    ensures
        request == request_for(*codes, opcode, frame),
{
    if opcode == codes.status {
        Request::Status
    } else if opcode == codes.send {
        Request::Send { frame }
    } else if opcode == codes.receive {
        Request::Receive
    } else if opcode == codes.shutdown {
        Request::Shutdown
    } else {
        Request::Unknown
    }
}

/// What to do about a request.
#[derive(Clone, Copy, Debug, PartialEq, Eq, Structural)]
pub enum Action {
    /// Reply with the packed status of the device.
    ReplyStatus,
    /// Describe the frame in this slot, make the slot available and notify the
    /// device; then reply with success.
    Transmit { slot: u16, frame: u64 },
    /// Reply with success.
    Accept,
    /// Reply with an error.
    Refuse,
    /// Keep the reply until a frame comes.
    Wait,
    /// Do nothing.
    Ignore,
    /// Reply with success, release the device and stop.
    Stop,
}

/// What the driver remembers: the next transmit slot, and the reply of a client
/// that waits for a frame, or zero.
#[derive(Clone, Copy, Debug, PartialEq, Eq, Structural)]
pub struct Driver {
    pub next_slot: u16,
    pub pending_recv: u64,
}

/// A frame of this physical address stands in its slot.
pub open spec fn transmit_writes(layout: LegacyLayout, slot: u16, frame: u64) -> Seq<Write> {
    let at = slot * layout.desc_size;
    seq![
        put(at + layout.desc_addr, 4, (frame % 0x1_0000_0000) as u64),
        put(at + layout.desc_length, 4, BUFFER_BYTES),
        put(at + layout.desc_flags, 2, 0),
    ]
}

/// Describe a frame that the device reads.
pub fn describe_frame(layout: &LegacyLayout, slot: u16, frame: u64) -> (writes: Vec<Write>)
    requires
        layout.wf(),
    ensures
        writes@ == transmit_writes(*layout, slot, frame),
{
    assert(slot * layout.desc_size <= 0xffff * 0xff) by (nonlinear_arith)
        requires
            slot <= 0xffff,
            layout.desc_size <= 0xff,
    ;
    let at: usize = slot as usize * layout.desc_size;
    let mut writes: Vec<Write> = Vec::new();
    writes.push(Write { offset: at + layout.desc_addr, width: 4, value: frame % 0x1_0000_0000 });
    writes.push(Write { offset: at + layout.desc_length, width: 4, value: BUFFER_BYTES });
    writes.push(Write { offset: at + layout.desc_flags, width: 2, value: 0 });
    assert(writes@ =~= transmit_writes(*layout, slot, frame));
    writes
}

/// The write that tells the device of a transmitted frame.
pub fn notify_transmit(layout: &LegacyLayout) -> (write: Write)
    ensures
        write == put(layout.queue_notify as int, 2, layout.transmit_queue as u64),
{
    Write { offset: layout.queue_notify, width: 2, value: layout.transmit_queue as u64 }
}

/// The driver after a request, and what to do about the request.
pub open spec fn handled(driver: Driver, request: Request, reply: u64) -> (Driver, Action) {
    match request {
        Request::Status => (
            driver,
            if reply != 0 {
                Action::ReplyStatus
            } else {
                Action::Ignore
            },
        ),
        Request::Send { frame } => if frame != 0 {
            (
                Driver { next_slot: driver.next_slot.wrapping_add(1), ..driver },
                Action::Transmit { slot: driver.next_slot, frame },
            )
        } else {
            (driver, Action::Accept)
        },
        Request::Receive => if reply == 0 {
            (driver, Action::Ignore)
        } else if driver.pending_recv == 0 {
            (Driver { pending_recv: reply, ..driver }, Action::Wait)
        } else {
            (driver, Action::Refuse)
        },
        Request::Shutdown => (driver, Action::Stop),
        Request::Unknown => (driver, Action::Refuse),
    }
}

/// The driver after an interrupt, and the client whose wait it ends.
pub open spec fn interrupt_handled(driver: Driver, status: u8) -> (Driver, Option<u64>) {
    if status % 2 == 1 && driver.pending_recv != 0 {
        (Driver { pending_recv: 0, ..driver }, Some(driver.pending_recv))
    } else {
        (driver, None)
    }
}

impl Driver {
    pub fn new() -> (driver: Driver)
        ensures
            driver == (Driver { next_slot: 0, pending_recv: 0 }),
    {
        Driver { next_slot: 0, pending_recv: 0 }
    }

    /// Decide what to do about a request.
    pub fn handle(&mut self, request: Request, reply: u64) -> (action: Action)
        ensures
            (*final(self), action) == handled(*old(self), request, reply),
    {
        match request {
            Request::Status => if reply != 0 {
                Action::ReplyStatus
            } else {
                Action::Ignore
            },
            Request::Send { frame } => if frame != 0 {
                let slot: u16 = self.next_slot;
                self.next_slot = slot.wrapping_add(1);
                Action::Transmit { slot, frame }
            } else {
                Action::Accept
            },
            Request::Receive => if reply == 0 {
                Action::Ignore
            } else if self.pending_recv == 0 {
                self.pending_recv = reply;
                Action::Wait
            } else {
                Action::Refuse
            },
            Request::Shutdown => Action::Stop,
            Request::Unknown => Action::Refuse,
        }
    }

    /// The client to hand a frame to, given the interrupt status that was read.
    pub fn interrupted(&mut self, status: u8) -> (reply: Option<u64>)
        ensures
            (*final(self), reply) == interrupt_handled(*old(self), status),
    {
        if status % 2 == 1 && self.pending_recv != 0 {
            let reply: u64 = self.pending_recv;
            self.pending_recv = 0;
            Some(reply)
        } else {
            None
        }
    }
}

/// A client that waits is handed the next frame, and only one waits at a time.
pub proof fn law_one_receiver_waits(driver: Driver, first: u64, second: u64)
    requires
        first != 0,
        second != 0,
        driver.pending_recv == 0,
    ensures
        ({
            let (waiting, action) = handled(driver, Request::Receive, first);
            &&& action == Action::Wait
            &&& waiting.pending_recv == first
            &&& handled(waiting, Request::Receive, second) == (waiting, Action::Refuse)
        }),
{
}

/// Frames take the transmit slots in turn.
pub proof fn law_frames_take_slots_in_turn(driver: Driver, first: u64, second: u64, reply: u64)
    requires
        first != 0,
        second != 0,
    ensures
        ({
            let (after, action) = handled(driver, Request::Send { frame: first }, reply);
            let (_, next) = handled(after, Request::Send { frame: second }, reply);
            &&& action == (Action::Transmit { slot: driver.next_slot, frame: first })
            &&& next == (Action::Transmit {
                slot: driver.next_slot.wrapping_add(1),
                frame: second,
            })
        }),
{
}

/// A network device's status word: the link bit, and the hardware address from
/// the second byte on.
pub open spec fn network_status(link: u16, mac: Seq<u8>) -> u64 {
    (link % 2 + 256 * wire::le_value(mac)) as u64
}

/// Pack a network device's status.
pub fn pack_network_status(link: u16, mac: &[u8; 6]) -> (status: u64)
    ensures
        status == network_status(link, mac@),
        status == link % 2 + 256 * wire::le_value(mac@),
{
    proof {
        wire::lemma_le_value_inverse(mac@);
        wire::lemma_byte_capacities();
        assert(mac@.subrange(0, 6) =~= mac@);
    }
    let value: u64 = wire::read_le(mac.as_slice(), 0, 6);
    (link % 2) as u64 + 256 * value
}

/// The link bit and the address can be read back from a status word.
pub proof fn law_network_status_is_readable(link: u16, mac: Seq<u8>)
    requires
        mac.len() == 6,
    ensures
        network_status(link, mac) % 2 == link % 2,
        wire::le_bytes((network_status(link, mac) / 256) as nat, 6) == mac,
{
    wire::lemma_le_value_inverse(mac);
    wire::lemma_byte_capacities();
}

/// An interrupt that announces a frame ends the wait of the client that waits, once.
pub proof fn law_interrupt_ends_the_wait(driver: Driver, status: u8)
    ensures
        ({
            let (after, reply) = interrupt_handled(driver, status);
            &&& reply is Some <==> status & 1 != 0 && driver.pending_recv != 0
            &&& reply is Some ==> reply->0 == driver.pending_recv && after.pending_recv == 0
            &&& reply is None ==> after == driver
            &&& after.next_slot == driver.next_slot
            &&& interrupt_handled(after, status).1 is None || reply is None
        }),
{
    assert(status % 2 == 1 <==> status & 1 != 0) by (bit_vector);
}

/// A request is answered as asked: a frame goes out in the next slot, a status to
/// who can be answered, and nothing else changes the driver.
pub proof fn law_requests_are_answered_as_asked(driver: Driver, frame: u64, reply: u64)
    ensures
        frame != 0 ==> handled(driver, Request::Send { frame }, reply).1 == (Action::Transmit {
            slot: driver.next_slot,
            frame,
        }),
        frame == 0 ==> handled(driver, Request::Send { frame }, reply) == (driver, Action::Accept),
        handled(driver, Request::Status, reply) == (
            driver,
            if reply != 0 {
                Action::ReplyStatus
            } else {
                Action::Ignore
            },
        ),
        handled(driver, Request::Receive, 0) == (driver, Action::Ignore),
        reply != 0 && driver.pending_recv != 0 ==> handled(driver, Request::Receive, reply) == (
            driver,
            Action::Refuse,
        ),
        reply != 0 && driver.pending_recv == 0 ==> handled(driver, Request::Receive, reply) == (
            Driver { pending_recv: reply, ..driver },
            Action::Wait,
        ),
        handled(driver, Request::Shutdown, reply) == (driver, Action::Stop),
        handled(driver, Request::Unknown, reply) == (driver, Action::Refuse),
{
}

/// A request is read by its own number alone.
pub proof fn law_requests_by_their_number(codes: Opcodes, opcode: u32, frame: u64)
    ensures
        match request_for(codes, opcode, frame) {
            Request::Status => opcode == codes.status,
            Request::Send { frame: sent } => opcode == codes.send && sent == frame,
            Request::Receive => opcode == codes.receive,
            Request::Shutdown => opcode == codes.shutdown,
            Request::Unknown => opcode != codes.status && opcode != codes.send && opcode
                != codes.receive && opcode != codes.shutdown,
        },
{
}

/// A received frame's buffer lies two pages behind its queue's page and has 2048
/// bytes that the device may write; a frame that goes out lies where it is, and the
/// device does not write it. Every slot has its own descriptor.
pub proof fn law_buffers_are_described(
    layout: LegacyLayout,
    page: usize,
    slot: u16,
    frame: u64,
    index: u16,
)
    requires
        layout.wf(),
        page + 0x2000 <= 0xffff_ffff,
        frame <= 0xffff_ffff,
        index < u16::MAX,
    ensures
        ({
            let at = slot * layout.desc_size;
            let writes = slot_writes(layout, page, slot);
            let sent = transmit_writes(layout, slot, frame);
            let offered = available_writes(layout, slot, index);
            &&& writes == seq![
                put(at + layout.desc_addr, 4, (page + 0x2000) as u64),
                put(at + layout.desc_length, 4, 2048),
                put(at + layout.desc_flags, 2, layout.flag_write as u64),
            ]
            &&& sent == seq![
                put(at + layout.desc_addr, 4, frame),
                put(at + layout.desc_length, 4, 2048),
                put(at + layout.desc_flags, 2, 0),
            ]
            &&& offered == seq![
                put(layout.avail_ring + 2 * index, 2, slot as u64),
                put(layout.avail_idx as int, 2, (index + 1) as u64),
            ]
        }),
{
}

/// A device is started by a reset, an acknowledgement and the word of a driver; its
/// queue is selected before it is sized and placed.
pub proof fn law_device_is_started_in_order(layout: LegacyLayout, queue: u16, size: u16, page: u32)
    ensures
        start_writes(layout) == seq![
            put(layout.device_status as int, 1, 0),
            put(layout.device_status as int, 1, layout.status_acknowledge as u64),
            put(
                layout.device_status as int,
                1,
                (layout.status_acknowledge | layout.status_driver) as u64,
            ),
        ],
        queue_writes(layout, queue, size, page) == seq![
            put(layout.queue_select as int, 2, queue as u64),
            put(layout.queue_size as int, 2, size as u64),
            put(layout.queue_address as int, 4, page as u64),
        ],
{
}

} // verus!
