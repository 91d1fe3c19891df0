//! The serial console driver's requests.
//!
//! One reader at a time may wait for the next device interrupt. The caller
//! reads and writes the device's registers and sends the replies.
use vstd::prelude::*;

verus! {

/// The console's state.
#[derive(Clone, Copy, Debug, PartialEq, Eq, Structural)]
pub struct Console {
    /// Interrupts acknowledged so far.
    pub irq_count: u32,
    /// Write requests served so far.
    pub served: u32,
    /// The reply token of the waiting reader, or zero.
    pub pending_read: u64,
}

/// A request to the console.
#[derive(Clone, Copy, Debug, PartialEq, Eq, Structural)]
pub enum Request {
    Write { argument: u64 },
    Status,
    ReadDeferred,
    Shutdown,
    /// Stop without releasing anything.
    Crash,
    Unknown,
}

/// The numbers of the requests.
#[derive(Clone, Copy, Debug, PartialEq, Eq)]
pub struct Opcodes {
    pub write: u32,
    pub status: u32,
    pub read_deferred: u32,
    pub shutdown: u32,
    pub crash: u32,
}

/// The request that a number stands for.
pub open spec fn request_for(codes: Opcodes, opcode: u32, argument: u64) -> Request {
    if opcode == codes.write {
        Request::Write { argument }
    } else if opcode == codes.status {
        Request::Status
    } else if opcode == codes.read_deferred {
        Request::ReadDeferred
    } else if opcode == codes.shutdown {
        Request::Shutdown
    } else if opcode == codes.crash {
        Request::Crash
    } else {
        Request::Unknown
    }
}

/// Tell a request by its number.
pub fn request_of(codes: &Opcodes, opcode: u32, argument: u64) -> (request: Request)
    ensures
        request == request_for(*codes, opcode, argument),
{
    if opcode == codes.write {
        Request::Write { argument }
    } else if opcode == codes.status {
        Request::Status
    } else if opcode == codes.read_deferred {
        Request::ReadDeferred
    } else if opcode == codes.shutdown {
        Request::Shutdown
    } else if opcode == codes.crash {
        Request::Crash
    } else {
        Request::Unknown
    }
}

/// What a request asks of the caller. A reply goes to the request's token, if
/// it has one.
#[derive(Clone, Copy, Debug, PartialEq, Eq, Structural)]
pub enum Action {
    /// Write the byte to the device, then reply with zero.
    Put { byte: u8 },
    Reply { result: i64 },
    /// Reply with minus one.
    Refuse,
    /// Keep the token.
    Wait,
    /// Nothing: there is no token to keep.
    Ignore,
    /// Reply with zero, release the device and stop.
    Stop,
    /// Stop at once.
    Exit,
}

/// The sum, or the largest value.
pub open spec fn counted(count: u32, more: u32) -> u32 {
    if count + more > u32::MAX {
        u32::MAX
    } else {
        (count + more) as u32
    }
}

fn count_up(count: u32, more: u32) -> (sum: u32)
    ensures
        sum == counted(count, more),
{
    if count > u32::MAX - more {
        u32::MAX
    } else {
        count + more
    }
}

/// What a waiting reader is told: the byte, with the interrupt count above it
/// so that the reader can see that an interrupt completed the read.
pub open spec fn read_result(byte: Option<u8>, irq_count: u32) -> int {
    (match byte {
        Some(byte) => byte as int,
        None => 0,
    }) + 256 * irq_count
}

impl Console {
    /// The console after an interrupt, and whether it completes a read.
    pub open spec fn after_interrupt(self, acknowledged: bool, consumed: u64) -> (Console, bool) {
        if acknowledged && consumed > 0 {
            (
                Console {
                    irq_count: counted(self.irq_count, (consumed % 0x1_0000_0000) as u32),
                    ..self
                },
                self.pending_read != 0,
            )
        } else {
            (self, false)
        }
    }

    /// The console after a request, and what is done about it.
    pub open spec fn after_request(self, request: Request, reply: u64) -> (Console, Action) {
        match request {
            Request::Write { argument } => (
                Console { served: counted(self.served, 1), ..self },
                Action::Put { byte: (argument % 256) as u8 },
            ),
            Request::Status => (self, Action::Reply { result: self.irq_count as i64 }),
            Request::ReadDeferred => if reply == 0 {
                (self, Action::Ignore)
            } else if self.pending_read != 0 {
                (self, Action::Refuse)
            } else {
                (Console { pending_read: reply, ..self }, Action::Wait)
            },
            Request::Shutdown => (self, Action::Stop),
            Request::Crash => (self, Action::Exit),
            Request::Unknown => (self, Action::Refuse),
        }
    }

    pub fn new() -> (console: Console)
        ensures
            console == (Console { irq_count: 0, served: 0, pending_read: 0 }),
    {
        Console { irq_count: 0, served: 0, pending_read: 0 }
    }

    /// Count acknowledged interrupts. Returns whether a reader is to be answered
    /// with [`Console::complete_read`].
    pub fn interrupted(&mut self, acknowledged: bool, consumed: u64) -> (complete: bool)
        ensures
            (*final(self), complete) == old(self).after_interrupt(acknowledged, consumed),
    {
        if !acknowledged || consumed == 0 {
            return false;
        }
        self.irq_count = count_up(self.irq_count, (consumed % 0x1_0000_0000) as u32);
        self.pending_read != 0
    }

    /// Answer the waiting reader with what the device received. Returns the
    /// reader's token and the result.
    pub fn complete_read(&mut self, byte: Option<u8>) -> (reply: (u64, i64))
        ensures
            reply.0 == old(self).pending_read,
            reply.1 == read_result(byte, old(self).irq_count),
            *final(self) == (Console { pending_read: 0, ..*old(self) }),
    {
        let low: i64 = match byte {
            Some(byte) => byte as i64,
            None => 0,
        };
        let token: u64 = self.pending_read;
        self.pending_read = 0;
        (token, low + 256 * self.irq_count as i64)
    }

    /// Handle a request with reply token `reply`, or zero.
    pub fn handle(&mut self, request: Request, reply: u64) -> (action: Action)
        ensures
            (*final(self), action) == old(self).after_request(request, reply),
    {
        match request {
            Request::Write { argument } => {
                self.served = count_up(self.served, 1);
                Action::Put { byte: (argument % 256) as u8 }
            },
            Request::Status => Action::Reply { result: self.irq_count as i64 },
            Request::ReadDeferred => {
                if reply == 0 {
                    Action::Ignore
                } else if self.pending_read != 0 {
                    Action::Refuse
                } else {
                    self.pending_read = reply;
                    Action::Wait
                }
            },
            Request::Shutdown => Action::Stop,
            Request::Crash => Action::Exit,
            Request::Unknown => Action::Refuse,
        }
    }
}

/// The byte and the interrupt count can be read back from a reader's result.
pub proof fn law_read_result_is_readable(byte: u8, irq_count: u32)
    ensures
        read_result(Some(byte), irq_count) % 256 == byte,
        read_result(Some(byte), irq_count) / 256 == irq_count,
{
}

/// One reader waits at a time; the next interrupt that brought something completes
/// its read, and then another can wait.
pub proof fn law_interrupt_completes_the_read(
    console: Console,
    reader: u64,
    second: u64,
    consumed: u64,
)
    requires
        console.pending_read == 0,
        reader != 0,
        second != 0,
        0 < consumed,
        console.irq_count + consumed <= u32::MAX,
    ensures
        ({
            let (waiting, action) = console.after_request(Request::ReadDeferred, reader);
            &&& action == Action::Wait
            &&& waiting.pending_read == reader
            &&& waiting.after_request(Request::ReadDeferred, second) == (waiting, Action::Refuse)
            &&& waiting.after_interrupt(true, consumed).1
            &&& waiting.after_interrupt(true, consumed).0.irq_count == console.irq_count + consumed
            &&& waiting.after_interrupt(false, consumed) == (waiting, false)
            &&& waiting.after_interrupt(true, 0) == (waiting, false)
            &&& !console.after_interrupt(true, consumed).1
        }),
        console.after_request(Request::ReadDeferred, 0) == (console, Action::Ignore),
{
}

/// A byte that is written is put out and counted; a status tells the interrupts;
/// nothing else changes the console.
pub proof fn law_requests_are_served(console: Console, argument: u64, reply: u64)
    requires
        console.served < u32::MAX,
    ensures
        console.after_request(Request::Write { argument }, reply).1 == (Action::Put {
            byte: (argument % 256) as u8,
        }),
        console.after_request(Request::Write { argument }, reply).0 == (Console {
            served: (console.served + 1) as u32,
            ..console
        }),
        console.after_request(Request::Status, reply) == (
            console,
            Action::Reply { result: console.irq_count as i64 },
        ),
        console.after_request(Request::Shutdown, reply) == (console, Action::Stop),
        console.after_request(Request::Crash, reply) == (console, Action::Exit),
        console.after_request(Request::Unknown, reply) == (console, Action::Refuse),
{
}

/// A request is read by its own number alone.
pub proof fn law_requests_by_their_number(codes: Opcodes, opcode: u32, argument: u64)
    ensures
        match request_for(codes, opcode, argument) {
            Request::Write { argument: written } => opcode == codes.write && written == argument,
            Request::Status => opcode == codes.status,
            Request::ReadDeferred => opcode == codes.read_deferred,
            Request::Shutdown => opcode == codes.shutdown,
            Request::Crash => opcode == codes.crash,
            Request::Unknown => opcode != codes.write && opcode != codes.status && opcode
                != codes.read_deferred && opcode != codes.shutdown && opcode != codes.crash,
        },
{
}

} // verus!
