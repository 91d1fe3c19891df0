//! The clients that exercise the services end to end: what they send, what
//! they expect back, and how long they keep trying.
use vstd::prelude::*;

use crate::wire;

verus! {

/// How often something is tried, and the pause after each try that may be
/// repeated, in milliseconds.
#[derive(Clone, Copy, Debug, PartialEq, Eq)]
pub struct Patience {
    pub attempts: usize,
    pub pause_ms: u64,
}

/// What the clients keep trying.
#[derive(Clone, Copy, Debug, PartialEq, Eq, Structural)]
pub enum Task {
    /// A record until the brokers are ready.
    Produce,
    /// A record for the step.
    StepInput,
    /// An object until the clock and the network are ready.
    Put,
    /// A payload until the connection is there.
    Send,
    /// A request on a connection that survived, or did not.
    ProbeSend,
    /// A reply to such a request.
    ProbeReceive,
    /// A connection to accept.
    Accept,
    /// Connections to be established.
    Connect,
    /// Members to show up.
    Members,
}

/// How long a task is kept up.
pub open spec fn patience_for(task: Task) -> Patience {
    match task {
        Task::Produce => Patience { attempts: 120, pause_ms: 500 },
        Task::StepInput => Patience { attempts: 120, pause_ms: 100 },
        Task::Put => Patience { attempts: 240, pause_ms: 500 },
        Task::Send => Patience { attempts: 300, pause_ms: 100 },
        Task::ProbeSend => Patience { attempts: 20, pause_ms: 100 },
        Task::ProbeReceive => Patience { attempts: 50, pause_ms: 100 },
        Task::Accept => Patience { attempts: 600, pause_ms: 100 },
        Task::Connect => Patience { attempts: 300, pause_ms: 100 },
        Task::Members => Patience { attempts: 1_200, pause_ms: 100 },
    }
}

/// How long to keep up a task.
pub fn patience(task: Task) -> (patience: Patience)
    ensures
        patience == patience_for(task),
{
    match task {
        Task::Produce => Patience { attempts: 120, pause_ms: 500 },
        Task::StepInput => Patience { attempts: 120, pause_ms: 100 },
        Task::Put => Patience { attempts: 240, pause_ms: 500 },
        Task::Send => Patience { attempts: 300, pause_ms: 100 },
        Task::ProbeSend => Patience { attempts: 20, pause_ms: 100 },
        Task::ProbeReceive => Patience { attempts: 50, pause_ms: 100 },
        Task::Accept => Patience { attempts: 600, pause_ms: 100 },
        Task::Connect => Patience { attempts: 300, pause_ms: 100 },
        Task::Members => Patience { attempts: 1_200, pause_ms: 100 },
    }
}

/// What came of a try.
#[derive(Clone, Copy, Debug, PartialEq, Eq, Structural)]
pub enum Tried {
    Succeeded,
    /// It may succeed later.
    NotYet,
    Failed,
}

/// What to do after a try.
#[derive(Clone, Copy, Debug, PartialEq, Eq, Structural)]
pub enum RetryStep {
    Succeed,
    Fail,
    /// Pause, then try again.
    Again { ms: u64 },
    /// Pause, then give up.
    GiveUp { ms: u64 },
}

/// The step after try number `attempt`, counted from zero.
pub open spec fn retry_next(attempt: int, tried: Tried, patience: Patience) -> RetryStep {
    match tried {
        Tried::Succeeded => RetryStep::Succeed,
        Tried::Failed => RetryStep::Fail,
        Tried::NotYet => if attempt + 1 < patience.attempts {
            RetryStep::Again { ms: patience.pause_ms }
        } else {
            RetryStep::GiveUp { ms: patience.pause_ms }
        },
    }
}

/// Decide whether to try again.
pub fn retry_step(attempt: usize, tried: Tried, patience: &Patience) -> (step: RetryStep)
    ensures
        step == retry_next(attempt as int, tried, *patience),
{
    match tried {
        Tried::Succeeded => RetryStep::Succeed,
        Tried::Failed => RetryStep::Fail,
        Tried::NotYet => {
            if patience.attempts > 0 && attempt < patience.attempts - 1 {
                RetryStep::Again { ms: patience.pause_ms }
            } else {
                RetryStep::GiveUp { ms: patience.pause_ms }
            }
        },
    }
}

/// Nothing is tried more often than its patience lasts.
pub proof fn law_patience_ends(attempt: int, tried: Tried, patience: Patience)
    requires
        attempt + 1 >= patience.attempts,
    ensures
        !(retry_next(attempt, tried, patience) is Again),
{
}

/// What became of sending `len` bytes.
pub open spec fn send_judged(sent: Option<i64>, len: usize, would_block: i64) -> Tried {
    match sent {
        None => Tried::Failed,
        Some(count) => if count == len {
            Tried::Succeeded
        } else if count == would_block {
            Tried::NotYet
        } else {
            Tried::Failed
        },
    }
}

/// What came of sending a payload, given the service's answer.
pub fn judge_send(sent: Option<i64>, len: usize, would_block: i64) -> (tried: Tried)
    requires
        would_block < 0,
    ensures
        tried == send_judged(sent, len, would_block),
{
    match sent {
        None => Tried::Failed,
        Some(count) => {
            if count == would_block {
                Tried::NotYet
            } else if count >= 0 && count as u64 == len as u64 {
                Tried::Succeeded
            } else {
                Tried::Failed
            }
        },
    }
}

/// What became of accepting a connection.
pub open spec fn accept_judged(result: i64, would_block: i64) -> Tried {
    if result == 0 {
        Tried::Succeeded
    } else if result == would_block {
        Tried::NotYet
    } else {
        Tried::Failed
    }
}

/// What came of a look for a connection to accept.
pub fn judge_accept(result: i64, would_block: i64) -> (tried: Tried)
    ensures
        tried == accept_judged(result, would_block),
{
    if result == 0 {
        Tried::Succeeded
    } else if result == would_block {
        Tried::NotYet
    } else {
        Tried::Failed
    }
}

/// What came of putting an object, given the status that the store answered.
pub fn judge_put(status: u16) -> (stored: bool)
    ensures
        stored == (status == 200 || status == 201),
{
    status == 200 || status == 201
}

/// A byte of a test pattern.
pub open spec fn pattern(index: int, factor: u8, mask: u8) -> u8 {
    ((index % 256 * factor % 256) as u8) ^ mask
}

/// The patterns of the block device and of the object store.
pub const BLOCK_FACTOR: u8 = 37;

pub const BLOCK_MASK: u8 = 0xa5;

pub const OBJECT_FACTOR: u8 = 29;

pub const OBJECT_MASK: u8 = 0x6d;

/// How much is written to the object store: more than one extent of it.
pub const OBJECT_BYTES: usize = 2_101_248;

/// How much is written to the block device: three pages, so that its page list
/// has more than one entry.
pub const BLOCK_BYTES: usize = 12_288;

fn pattern_byte(index: usize, factor: u8, mask: u8) -> (byte: u8)
    ensures
        byte == pattern(index as int, factor, mask),
{
    let low: u32 = (index % 256) as u32;
    assert(low * factor <= 255 * 255) by (nonlinear_arith)
        requires
            low <= 255,
            factor <= 255,
    ;
    ((low * factor as u32 % 256) as u8) ^ mask
}

/// A test pattern of `len` bytes.
pub fn fill_pattern(len: usize, factor: u8, mask: u8) -> (bytes: Vec<u8>)
    ensures
        bytes@ == Seq::new(len as nat, |i: int| pattern(i, factor, mask)),
{
    let mut bytes: Vec<u8> = Vec::new();
    let mut index: usize = 0;
    while index < len
        invariant
            index <= len,
            bytes@ == Seq::new(index as nat, |i: int| pattern(i, factor, mask)),
        decreases len - index,
    {
        bytes.push(pattern_byte(index, factor, mask));
        index += 1;
        assert(bytes@ =~= Seq::new(index as nat, |i: int| pattern(i, factor, mask)));
    }
    bytes
}

/// The first place where bytes that were read differ from the pattern that was
/// written.
pub fn first_mismatch(bytes: &[u8], factor: u8, mask: u8) -> (place: Option<usize>)
    ensures
        match place {
            Some(place) => {
                &&& place < bytes@.len()
                &&& bytes@[place as int] != pattern(place as int, factor, mask)
                &&& forall|i: int| 0 <= i < place ==> bytes@[i] == pattern(i, factor, mask)
            },
            None => forall|i: int|
                0 <= i < bytes@.len() ==> bytes@[i] == pattern(i, factor, mask),
        },
{
    let mut index: usize = 0;
    while index < bytes.len()
        invariant
            index <= bytes@.len(),
            forall|i: int| 0 <= i < index ==> bytes@[i] == pattern(i, factor, mask),
        decreases bytes@.len() - index,
    {
        if bytes[index] != pattern_byte(index, factor, mask) {
            return Some(index);
        }
        index += 1;
    }
    None
}

/// How long the message between two nodes is: too long for a length of two
/// bytes.
pub const MESSAGE_BYTES: usize = 70_000;

/// A byte of the message between two nodes.
pub open spec fn message_byte(index: int) -> u8 {
    ((index % 256 * 31 + 7) % 256) as u8
}

/// The message between two nodes.
pub fn build_payload() -> (bytes: Vec<u8>)
    ensures
        bytes@ == Seq::new(MESSAGE_BYTES as nat, |i: int| message_byte(i)),
{
    let mut bytes: Vec<u8> = Vec::new();
    let mut index: usize = 0;
    while index < MESSAGE_BYTES
        invariant
            index <= MESSAGE_BYTES,
            bytes@ == Seq::new(index as nat, |i: int| message_byte(i)),
        decreases MESSAGE_BYTES - index,
    {
        bytes.push(((index % 256 * 31 + 7) % 256) as u8);
        index += 1;
        assert(bytes@ =~= Seq::new(index as nat, |i: int| message_byte(i)));
    }
    bytes
}

/// The other of two nodes, by the last byte of its hardware address.
pub fn peer_of(local: [u8; 6]) -> (peer: Option<[u8; 6]>)
    ensures
        match peer {
            Some(peer) => (local@[5] == 1 || local@[5] == 2) && peer@ == local@.update(
                5,
                (3 - local@[5]) as u8,
            ),
            None => local@[5] != 1 && local@[5] != 2,
        },
{
    if local[5] != 1 && local[5] != 2 {
        return None;
    }
    let peer: [u8; 6] = [local[0], local[1], local[2], local[3], local[4], 3 - local[5]];
    assert(peer@ =~= local@.update(5, (3 - local@[5]) as u8));
    Some(peer)
}

/// Where the block device is tested: its last blocks, which nothing else
/// overwrites.
pub open spec fn block_range(block_size: u32, total_blocks: u32) -> Option<(u64, u32)> {
    let count = BLOCK_BYTES as int / block_size as int;
    if !(512 <= block_size <= 4096) || total_blocks == 0 || count > total_blocks {
        None
    } else {
        Some(((total_blocks - count) as u64, count as u32))
    }
}

/// Where the block device is tested: the first block and how many.
pub fn test_range(block_size: u32, total_blocks: u32) -> (range: Option<(u64, u32)>)
    ensures
        range == block_range(block_size, total_blocks),
{
    if block_size < 512 || block_size > 4096 || total_blocks == 0 {
        return None;
    }
    let count: u32 = BLOCK_BYTES as u32 / block_size;
    proof {
        vstd::arithmetic::div_mod::lemma_div_pos_is_pos(BLOCK_BYTES as int, block_size as int);
    }
    if count > total_blocks {
        return None;
    }
    Some(((total_blocks - count) as u64, count))
}

/// The tested blocks are the last of the device, at least three of them, and
/// hold no more than the pattern.
pub proof fn law_tested_blocks_are_the_last(block_size: u32, total_blocks: u32)
    requires
        block_range(block_size, total_blocks) is Some,
    ensures
        match block_range(block_size, total_blocks) {
            Some((first, count)) => first + count == total_blocks && count >= 3 && count
                * block_size <= BLOCK_BYTES,
            None => false,
        },
{
    let count = BLOCK_BYTES as int / block_size as int;
    vstd::arithmetic::div_mod::lemma_div_is_ordered_by_denominator(
        BLOCK_BYTES as int,
        block_size as int,
        4096,
    );
    vstd::arithmetic::div_mod::lemma_fundamental_div_mod(BLOCK_BYTES as int, block_size as int);
    vstd::arithmetic::div_mod::lemma_mod_bound(BLOCK_BYTES as int, block_size as int);
    assert(count * block_size == block_size * count) by (nonlinear_arith);
}

/// Whether a frame from the network interface is passed on.
pub fn forwards(answered: bool, has_memory: bool, len: u64) -> (forwards: bool)
    ensures
        forwards == (answered && has_memory && len <= 4096),
{
    answered && has_memory && len <= 4096
}

/// A frame that the network interface sends to everyone: addresses, the type
/// of IPv4, and padding.
pub const TEST_FRAME: [u8; 64] = [
    0xff, 0xff, 0xff, 0xff, 0xff, 0xff, 0x52, 0x54, 0x00, 0x12, 0x34, 0x56, 0x08, 0x00, 0, 0, 0, 0,
    0, 0, 0, 0, 0, 0, 0, 0, 0, 0, 0, 0, 0, 0, 0, 0, 0, 0, 0, 0, 0, 0, 0, 0, 0, 0, 0, 0, 0, 0, 0, 0, 0,
    0, 0, 0, 0, 0, 0, 0, 0, 0, 0, 0, 0, 0,
];

/// The last bytes of this node's address and of its peer's.
pub fn ip_from_mac(mac: &[u8; 6]) -> (octets: (u8, u8))
    ensures
        octets.0 == 100 + mac@[5] % 100,
        octets.1 == 100 + (mac@[5] ^ 1) % 100,
{
    let last: u8 = mac[5];
    (100 + last % 100, 100 + (last ^ 1) % 100)
}

/// The node with the even address waits for the other one.
pub fn is_server(local_octet: u8) -> (server: bool)
    ensures
        server == (local_octet % 2 == 0),
{
    local_octet % 2 == 0
}

/// Of two nodes whose hardware addresses differ in the lowest bit only, one is
/// the server and the other is not, and each takes the other for its peer.
pub proof fn law_peers_take_opposite_parts(last: u8)
    ensures
        (100 + last % 100) % 2 == 0 <==> (100 + (last ^ 1) % 100) % 2 != 0,
        (last ^ 1) ^ 1 == last,
{
    let other = last ^ 1;
    assert(other ^ 1 == last && (last % 2 == 0 ==> other == last + 1) && (last % 2 != 0 ==> other
        == last - 1)) by (bit_vector)
        requires
            other == last ^ 1,
    ;
}

/// Where an address is published, if the manifest names one: four bytes and a
/// port.
pub fn virtual_address(address: Option<&[u8]>, port: Option<u64>) -> (target: Option<([u8; 4], u16)>)
    ensures
        match target {
            Some((bytes, number)) => {
                &&& address matches Some(address) && address@ == bytes@
                &&& port == Some(number as u64)
            },
            None => {
                ||| match address {
                    Some(address) => address@.len() != 4,
                    None => true,
                }
                ||| match port {
                    Some(port) => port > u16::MAX,
                    None => true,
                }
            },
        },
{
    match (address, port) {
        (Some(address), Some(port)) => {
            if address.len() != 4 || port > u16::MAX as u64 {
                return None;
            }
            let bytes: [u8; 4] = [address[0], address[1], address[2], address[3]];
            assert(bytes@ =~= address@);
            Some((bytes, port as u16))
        },
        _ => None,
    }
}

/// How many members are waited for.
pub open spec fn members_for(configured: Option<u64>) -> u32 {
    match configured {
        Some(count) => if count > u32::MAX {
            u32::MAX
        } else {
            count as u32
        },
        None => 1,
    }
}

/// How many members to wait for.
pub fn expected_members(configured: Option<u64>) -> (members: u32)
    ensures
        members == members_for(configured),
{
    match configured {
        Some(count) => if count > u32::MAX as u64 {
            u32::MAX
        } else {
            count as u32
        },
        None => 1,
    }
}

/// Where the frame router's status holds what the probe waits for.
#[derive(Clone, Copy, Debug, PartialEq, Eq)]
pub struct RouterLayout {
    pub words: u16,
    pub backends: u16,
    pub advertiser: u16,
}

/// Whether the members have shown up, and if so whether this node advertises
/// the address.
pub open spec fn members_seen(
    result: i64,
    status: Option<Seq<u8>>,
    layout: RouterLayout,
    expected: u32,
) -> Option<bool> {
    match status {
        Some(bytes) => if result < 4 * layout.words || bytes.len() < 4 * layout.backends + 4
            || bytes.len() < 4 * layout.advertiser + 4 || wire::field(bytes, 4 * layout.backends, 4)
            < expected {
            None
        } else {
            Some(wire::field(bytes, 4 * layout.advertiser, 4) != 0)
        },
        None => None,
    }
}

/// Look whether the members have shown up.
pub fn ingress_members(result: i64, status: Option<&[u8]>, layout: &RouterLayout, expected: u32) -> (seen:
    Option<bool>)
    ensures
        seen == members_seen(
            result,
            match status {
                Some(bytes) => Some(bytes@),
                None => None,
            },
            *layout,
            expected,
        ),
{
    let bytes: &[u8] = match status {
        Some(bytes) => bytes,
        None => return None,
    };
    let backends: usize = 4 * layout.backends as usize;
    let advertiser: usize = 4 * layout.advertiser as usize;
    if result < 4 * layout.words as i64 || bytes.len() < backends + 4 || bytes.len() < advertiser
        + 4 {
        return None;
    }
    if wire::read_le(bytes, backends, 4) < expected as u64 {
        return None;
    }
    Some(wire::read_le(bytes, advertiser, 4) != 0)
}

/// "HTTP/1.1 200"
pub const HTTP_OK: [u8; 12] = [72, 84, 84, 80, 47, 49, 46, 49, 32, 50, 48, 48];

/// A reply, cut to the length that it claims, starts as a good one does.
pub open spec fn starts_well(bytes: Seq<u8>, claimed: i64) -> bool {
    let len = if claimed < 0 || claimed > usize::MAX {
        0
    } else if claimed < bytes.len() {
        claimed as int
    } else {
        bytes.len() as int
    };
    len >= 12 && bytes.take(12) == HTTP_OK@
}

/// Whether a reply is a good one.
pub fn http_succeeded(bytes: &[u8], claimed: i64) -> (good: bool)
    ensures
        good == starts_well(bytes@, claimed),
{
    let len: usize = if claimed < 0 || claimed as u64 > usize::MAX as u64 {
        0
    } else if (claimed as u64) < bytes.len() as u64 {
        claimed as usize
    } else {
        bytes.len()
    };
    if len < 12 {
        return false;
    }
    let start: Vec<u8> = wire::copy_range(bytes, 0, 12);
    assert(start@ =~= bytes@.take(12));
    wire::bytes_equal(start.as_slice(), HTTP_OK.as_slice())
}

/// How many connections the probe opens.
pub const PROBE_FLOWS: usize = 8;

/// What a connection is.
#[derive(Clone, Copy, Debug, PartialEq, Eq, Structural)]
pub enum FlowState {
    Connecting,
    Established,
    Other,
}

/// Connections that are being established, and those that are.
pub struct Flows {
    pub connecting: Vec<u64>,
    pub established: Vec<u64>,
    /// The next of the connecting ones to look at.
    pub index: usize,
}

impl Flows {
    /// All connections of the probe.
    pub open spec fn all(self) -> vstd::multiset::Multiset<u64> {
        self.connecting@.to_multiset().add(self.established@.to_multiset())
    }

    pub fn new(sockets: Vec<u64>) -> (flows: Flows)
        ensures
            flows.connecting@ == sockets@,
            flows.established@ == Seq::<u64>::empty(),
            flows.index == 0,
    {
        Flows { connecting: sockets, established: Vec::new(), index: 0 }
    }

    /// The connection to look at, if the round is not over.
    pub fn current(&self) -> (socket: Option<u64>)
        ensures
            socket == if self.index < self.connecting@.len() {
                Some(self.connecting@[self.index as int])
            } else {
                None::<u64>
            },
    {
        if self.index < self.connecting.len() {
            Some(self.connecting[self.index])
        } else {
            None
        }
    }

    /// The connection was looked at: the one to close, if it came to nothing.
    /// The last of those being established takes the place of one that is no
    /// longer.
    pub fn observed(&mut self, state: FlowState) -> (close: Option<u64>)
        requires
            old(self).index < old(self).connecting@.len(),
        ensures
            ({
                let socket = old(self).connecting@[old(self).index as int];
                let rest = old(self).connecting@.update(
                    old(self).index as int,
                    old(self).connecting@.last(),
                ).drop_last();
                match state {
                    FlowState::Connecting => {
                        &&& close is None
                        &&& final(self).index == old(self).index + 1
                        &&& final(self).connecting@ == old(self).connecting@
                        &&& final(self).established@ == old(self).established@
                    },
                    FlowState::Established => {
                        &&& close is None
                        &&& final(self).index == old(self).index
                        &&& final(self).connecting@ == rest
                        &&& final(self).established@ == old(self).established@.push(socket)
                    },
                    FlowState::Other => {
                        &&& close == Some(socket)
                        &&& final(self).index == old(self).index
                        &&& final(self).connecting@ == rest
                        &&& final(self).established@ == old(self).established@
                    },
                }
            }),
            final(self).all() == match close {
                Some(socket) => old(self).all().remove(socket),
                None => old(self).all(),
            },
    {
        let ghost before = self.connecting@;
        let ghost established = self.established@;
        let ghost place = self.index as int;
        match state {
            FlowState::Connecting => {
                let total: usize = self.connecting.len();
                assert(self.index < total);
                self.index = self.index + 1;
                None
            },
            FlowState::Established => {
                let socket: u64 = self.connecting.swap_remove(self.index);
                self.established.push(socket);
                proof {
                    lemma_swap_remove(before, place);
                    established.to_multiset_ensures();
                    assert(self.all() =~= self.connecting@.to_multiset().add(
                        established.to_multiset().insert(socket),
                    ));
                    assert(before.to_multiset() =~= self.connecting@.to_multiset().insert(socket));
                    assert(self.all() =~= before.to_multiset().add(established.to_multiset()));
                }
                None
            },
            FlowState::Other => {
                let socket: u64 = self.connecting.swap_remove(self.index);
                proof {
                    lemma_swap_remove(before, place);
                    assert(before.to_multiset() =~= self.connecting@.to_multiset().insert(socket));
                    assert(self.all() =~= before.to_multiset().add(
                        established.to_multiset(),
                    ).remove(socket));
                }
                Some(socket)
            },
        }
    }

    /// Start another round with those still being established. True if there
    /// is none.
    pub fn restart(&mut self) -> (settled: bool)
        ensures
            settled == (old(self).connecting@.len() == 0),
            final(self).index == 0,
            final(self).connecting@ == old(self).connecting@,
            final(self).established@ == old(self).established@,
    {
        self.index = 0;
        self.connecting.len() == 0
    }
}

/// Taking an item out and putting the last one in its place removes just that
/// item.
proof fn lemma_swap_remove(items: Seq<u64>, place: int)
    requires
        0 <= place < items.len(),
    ensures
        items.update(place, items.last()).drop_last().to_multiset().insert(items[place])
            == items.to_multiset(),
{
    let last = items.last();
    let rest = items.drop_last();
    items.to_multiset_ensures();
    rest.to_multiset_ensures();
    assert(items =~= rest.push(last));
    if place == items.len() - 1 {
        assert(items.update(place, last).drop_last() =~= rest);
    } else {
        assert(items.update(place, last).drop_last() =~= rest.update(place, last));
        vstd::seq_lib::to_multiset_update(rest, place, last);
        assert(rest.to_multiset().count(items[place]) > 0) by {
            assert(rest[place] == items[place]);
            assert(rest.contains(items[place]));
        }
        assert(rest.update(place, last).to_multiset().insert(items[place])
            =~= rest.to_multiset().insert(last));
    }
}

/// A task that is not done is tried again after its pause, until its last attempt.
pub proof fn law_tasks_are_tried_again(attempt: int, patience: Patience)
    ensures
        retry_next(attempt, Tried::Succeeded, patience) == RetryStep::Succeed,
        retry_next(attempt, Tried::Failed, patience) == RetryStep::Fail,
        attempt < patience.attempts - 1 ==> retry_next(attempt, Tried::NotYet, patience) == (
        RetryStep::Again { ms: patience.pause_ms }),
        attempt >= patience.attempts - 1 ==> retry_next(attempt, Tried::NotYet, patience) == (
        RetryStep::GiveUp { ms: patience.pause_ms }),
{
}

/// A task is given a minute or less, but for a put, which is given two, as is the
/// wait for the members.
pub proof fn law_patience_is_a_minute_or_two(task: Task)
    ensures
        ({
            let patience = patience_for(task);
            let total = patience.attempts * patience.pause_ms;
            &&& patience.attempts > 0
            &&& patience.pause_ms == 100 || patience.pause_ms == 500
            &&& total <= 120_000
            &&& total == 120_000 <==> task == Task::Put || task == Task::Members
            &&& total == 60_000 <==> task == Task::Produce || task == Task::Accept
            &&& total == 30_000 <==> task == Task::Send || task == Task::Connect
            &&& total == 12_000 <==> task == Task::StepInput
            &&& total == 5_000 <==> task == Task::ProbeReceive
            &&& total == 2_000 <==> task == Task::ProbeSend
        }),
{
}

/// A send is done when all its bytes are out, and is tried again only where it would
/// have blocked.
pub proof fn law_sends_are_judged_by_their_bytes(sent: Option<i64>, len: usize, would_block: i64)
    requires
        would_block < 0,
    ensures
        send_judged(sent, len, would_block) == Tried::Succeeded <==> sent is Some && sent->0 == len,
        send_judged(sent, len, would_block) == Tried::NotYet <==> sent == Some(would_block),
        send_judged(None, len, would_block) == Tried::Failed,
{
}

/// A test pattern is told from one that is shifted: with an odd factor, places that
/// differ within 256 bytes have different bytes.
pub proof fn law_pattern_tells_places_apart(one: int, two: int, factor: u8, mask: u8)
    requires
        0 <= one < 256,
        0 <= two < 256,
        factor % 2 == 1,
        pattern(one, factor, mask) == pattern(two, factor, mask),
    ensures
        one == two,
        pattern(one + 256, factor, mask) == pattern(one, factor, mask),
{
    let a = one as u8;
    let b = two as u8;
    let x = (one * factor % 256) as u8;
    let y = (two * factor % 256) as u8;
    assert(one % 256 == one && two % 256 == two && (one + 256) % 256 == one);
    assert(x ^ mask == y ^ mask ==> x == y) by (bit_vector);
    assert((a as u16 * factor as u16) % 256 == (b as u16 * factor as u16) % 256 && factor % 2 == 1
        ==> a == b) by (bit_vector);
    assert(x == (a as int * factor as int) % 256);
    assert(y == (b as int * factor as int) % 256);
}

/// The members are there when the router counts as many as are expected; then it is
/// known whether it advertises.
pub proof fn law_members_are_counted(
    result: i64,
    bytes: Seq<u8>,
    layout: RouterLayout,
    expected: u32,
)
    requires
        result >= 4 * layout.words,
        bytes.len() >= 4 * layout.backends + 4,
        bytes.len() >= 4 * layout.advertiser + 4,
    ensures
        members_seen(result, Some(bytes), layout, expected) is Some <==> wire::field(
            bytes,
            4 * layout.backends,
            4,
        ) >= expected,
        members_seen(result, Some(bytes), layout, expected) matches Some(advertises) ==> (advertises
            <==> wire::field(bytes, 4 * layout.advertiser, 4) != 0),
        members_seen(result, None, layout, expected) is None,
{
}

/// A response succeeded when it starts with `HTTP/1.1 200`, within what it claims.
pub proof fn law_response_starts_with_success(bytes: Seq<u8>, claimed: i64)
    ensures
        starts_well(bytes, claimed) <==> claimed >= 12 && claimed <= usize::MAX && bytes.len() >= 12
            && bytes[0] == 72 && bytes[1] == 84 && bytes[2] == 84 && bytes[3] == 80 && bytes[4]
            == 47 && bytes[5] == 49 && bytes[6] == 46 && bytes[7] == 49 && bytes[8] == 32
            && bytes[9] == 50 && bytes[10] == 48 && bytes[11] == 48,
{
    if bytes.len() >= 12 {
        let first = bytes.take(12);
        assert(first[0] == bytes[0] && first[1] == bytes[1] && first[2] == bytes[2] && first[3]
            == bytes[3] && first[4] == bytes[4] && first[5] == bytes[5] && first[6] == bytes[6]
            && first[7] == bytes[7] && first[8] == bytes[8] && first[9] == bytes[9] && first[10]
            == bytes[10] && first[11] == bytes[11]);
        assert(HTTP_OK@[0] == 72 && HTTP_OK@[1] == 84 && HTTP_OK@[2] == 84 && HTTP_OK@[3] == 80
            && HTTP_OK@[4] == 47 && HTTP_OK@[5] == 49 && HTTP_OK@[6] == 46 && HTTP_OK@[7] == 49
            && HTTP_OK@[8] == 32 && HTTP_OK@[9] == 50 && HTTP_OK@[10] == 48 && HTTP_OK@[11] == 48);
        if bytes[0] == 72 && bytes[1] == 84 && bytes[2] == 84 && bytes[3] == 80 && bytes[4] == 47
            && bytes[5] == 49 && bytes[6] == 46 && bytes[7] == 49 && bytes[8] == 32 && bytes[9]
            == 50 && bytes[10] == 48 && bytes[11] == 48 {
            assert(first =~= HTTP_OK@);
        }
    }
}

/// The message's bytes start with 7, grow by 31 in turn, and repeat after 256.
pub proof fn law_message_bytes_grow_in_turn(index: int)
    requires
        0 <= index,
    ensures
        message_byte(0) == 7,
        message_byte(index + 1) as int == (message_byte(index) + 31) % 256,
        message_byte(index + 256) == message_byte(index),
{
    assert((index + 256) % 256 == index % 256);
    let place = index % 256;
    let grown = place * 31 + 7;
    lemma_grown(grown);
    if place < 255 {
        assert((index + 1) % 256 == place + 1);
        assert((place + 1) * 31 + 7 == grown + 31);
    } else {
        assert((index + 1) % 256 == 0);
        assert(grown == 7912);
    }
}

proof fn lemma_grown(value: int)
    ensures
        (value + 31) % 256 == (value % 256 + 31) % 256,
{
}

/// A connection is there, is not there yet, or failed; and one member is waited for
/// where nothing is configured.
pub proof fn law_probes_wait_for_what_is_configured(result: i64, would_block: i64, count: u64)
    requires
        would_block != 0,
    ensures
        accept_judged(result, would_block) == Tried::Succeeded <==> result == 0,
        accept_judged(result, would_block) == Tried::NotYet <==> result == would_block,
        members_for(None) == 1,
        count <= u32::MAX ==> members_for(Some(count)) == count,
        count > u32::MAX ==> members_for(Some(count)) == u32::MAX,
{
}

/// The blocks that are tested hold as much of 12288 bytes as whole blocks can, and are
/// the last of the device.
pub proof fn law_tested_blocks_hold_the_pattern(block_size: u32, total_blocks: u32)
    requires
        512 <= block_size <= 4096,
    ensures
        block_range(block_size, total_blocks) matches Some((start, count)) ==> {
            &&& start + count == total_blocks
            &&& count * block_size <= 12_288
            &&& 12_288 < (count + 1) * block_size
        },
{
    let count = 12_288int / block_size as int;
    let size = block_size as int;
    assert(count * size <= 12_288 && 12_288 < (count + 1) * size) by (nonlinear_arith)
        requires
            count == 12_288int / size,
            size > 0,
    ;
}

} // verus!
