//! The client side of a Kafka cluster: which destinations a profile
//! authorizes, how frames are cut out of a byte stream, where each route
//! leads, and how often a request is repeated.
//!
//! The caller opens sockets, sends requests and decodes replies; this module
//! decides what follows from each reply.
use std::collections::BTreeMap;
use vstd::prelude::*;
use vstd::std_specs::cmp::OrdSpec;
use vstd::std_specs::iter::IteratorSpec;

use crate::text;
use crate::wire;

verus! {

broadcast use vstd::std_specs::btree::group_btree_axioms;

/// Why a request failed.
#[derive(Clone, Copy, Debug, PartialEq, Eq, Structural)]
pub enum Error {
    Invalid,
    Denied,
    Busy,
    Transport,
    Timeout,
    Protocol,
    TooLarge,
    Unsupported,
    Broker,
    /// Another producer took over this one's identity.
    Fenced,
    TlsRequired,
    BadOpcode,
}

/// The numbers of the broker errors that are told apart.
#[derive(Clone, Copy, Debug, PartialEq, Eq)]
pub struct BrokerCodes {
    pub no_error: i16,
    pub producer_fenced: i16,
    pub invalid_producer_epoch: i16,
    pub transaction_coordinator_fenced: i16,
    pub request_timed_out: i16,
}

/// What a broker's error number means to a client.
pub open spec fn broker_error(code: i16, codes: BrokerCodes) -> Error {
    if code == codes.producer_fenced || code == codes.invalid_producer_epoch || code
        == codes.transaction_coordinator_fenced {
        Error::Fenced
    } else if code == codes.request_timed_out {
        Error::Timeout
    } else {
        Error::Broker
    }
}

/// The error that a broker's number stands for.
pub fn map_broker(code: i16, codes: &BrokerCodes) -> (error: Error)
    ensures
        error == broker_error(code, *codes),
{
    if code == codes.producer_fenced || code == codes.invalid_producer_epoch || code
        == codes.transaction_coordinator_fenced {
        Error::Fenced
    } else if code == codes.request_timed_out {
        Error::Timeout
    } else {
        Error::Broker
    }
}

/// How encoding a request or decoding a reply failed.
#[derive(Clone, Copy, Debug, PartialEq, Eq, Structural)]
pub enum CodecError {
    TooLarge,
    UnsupportedVersion,
    Broker { code: i16 },
    Incomplete,
    Invalid,
    Correlation,
    Checksum,
}

/// What a codec's failure means to a client.
pub open spec fn codec_error(error: CodecError, codes: BrokerCodes) -> Error {
    match error {
        CodecError::TooLarge => Error::TooLarge,
        CodecError::UnsupportedVersion => Error::Unsupported,
        CodecError::Broker { code } => broker_error(code, codes),
        CodecError::Incomplete => Error::Protocol,
        CodecError::Invalid => Error::Protocol,
        CodecError::Correlation => Error::Protocol,
        CodecError::Checksum => Error::Protocol,
    }
}

/// The error that a codec's failure stands for.
pub fn map_wire(error: CodecError, codes: &BrokerCodes) -> (mapped: Error)
    ensures
        mapped == codec_error(error, *codes),
{
    match error {
        CodecError::TooLarge => Error::TooLarge,
        CodecError::UnsupportedVersion => Error::Unsupported,
        CodecError::Broker { code } => map_broker(code, codes),
        CodecError::Incomplete => Error::Protocol,
        CodecError::Invalid => Error::Protocol,
        CodecError::Correlation => Error::Protocol,
        CodecError::Checksum => Error::Protocol,
    }
}

/// The route that leads to a profile's own topic and partition.
pub const DEFAULT_ROUTE: u16 = 0;

/// A broker that a profile authorizes.
pub struct BrokerDestination {
    pub ip: [u8; 4],
    pub host: Vec<u8>,
    pub port: u16,
}

pub struct TopicPartition {
    pub topic: Vec<u8>,
    pub partition: i32,
}

#[verifier::ext_equal]
pub struct DestinationView {
    pub ip: Seq<u8>,
    pub host: Seq<u8>,
    pub port: u16,
}

#[verifier::ext_equal]
pub struct TopicPartitionView {
    pub topic: Seq<u8>,
    pub partition: i32,
}

impl View for BrokerDestination {
    type V = DestinationView;

    open spec fn view(&self) -> DestinationView {
        DestinationView { ip: self.ip@, host: self.host@, port: self.port }
    }
}

impl View for TopicPartition {
    type V = TopicPartitionView;

    open spec fn view(&self) -> TopicPartitionView {
        TopicPartitionView { topic: self.topic@, partition: self.partition }
    }
}

/// What an application may do, and where.
pub struct Profile {
    /// The destination to start from, then the other authorized ones.
    pub destinations: Vec<BrokerDestination>,
    pub topic: Vec<u8>,
    pub partition: i32,
    pub produce_routes: Vec<TopicPartition>,
    pub rights: u64,
    pub transaction_timeout_ms: i32,
}

pub open spec fn destination_views(destinations: Seq<BrokerDestination>) -> Seq<DestinationView> {
    Seq::new(destinations.len(), |i: int| destinations[i]@)
}

pub open spec fn route_views(routes: Seq<TopicPartition>) -> Seq<TopicPartitionView> {
    Seq::new(routes.len(), |i: int| routes[i]@)
}

#[verifier::ext_equal]
pub struct ProfileView {
    pub destinations: Seq<DestinationView>,
    pub topic: Seq<u8>,
    pub partition: i32,
    pub produce_routes: Seq<TopicPartitionView>,
    pub rights: u64,
    pub transaction_timeout_ms: i32,
}

impl View for Profile {
    type V = ProfileView;

    open spec fn view(&self) -> ProfileView {
        ProfileView {
            destinations: destination_views(self.destinations@),
            topic: self.topic@,
            partition: self.partition,
            produce_routes: route_views(self.produce_routes@),
            rights: self.rights,
            transaction_timeout_ms: self.transaction_timeout_ms,
        }
    }
}

impl ProfileView {
    /// Where records of the route number `index` go.
    pub open spec fn target(self, index: int) -> Option<TopicPartitionView> {
        if index == DEFAULT_ROUTE {
            Some(TopicPartitionView { topic: self.topic, partition: self.partition })
        } else if 1 <= index <= self.produce_routes.len() {
            Some(self.produce_routes[index - 1])
        } else {
            None
        }
    }

    /// The destination number `index` listens on `port` of `host`.
    pub open spec fn listens(self, index: int, host: Seq<u8>, port: i32) -> bool {
        self.destinations[index].host == host && self.destinations[index].port == port
    }

    /// `index` is the first destination that listens on `port` of `host`.
    pub open spec fn is_destination(self, host: Seq<u8>, port: i32, index: int) -> bool {
        &&& 0 <= index < self.destinations.len()
        &&& self.listens(index, host, port)
        &&& forall|i: int| 0 <= i < index ==> !#[trigger] self.listens(i, host, port)
    }

    /// The profile authorizes no destination on `port` of `host`.
    pub open spec fn unauthorized(self, host: Seq<u8>, port: i32) -> bool {
        forall|i: int|
            0 <= i < self.destinations.len() ==> !#[trigger] self.listens(i, host, port)
    }

    /// The first destination that listens on `port` of `host`.
    pub open spec fn destination(self, host: Seq<u8>, port: i32) -> Option<int> {
        if self.unauthorized(host, port) {
            None
        } else {
            Some(choose|index: int| self.is_destination(host, port, index))
        }
    }
}

/// At most one destination is the first.
proof fn lemma_destination_unique(profile: ProfileView, host: Seq<u8>, port: i32, index: int)
    requires
        profile.is_destination(host, port, index),
    ensures
        profile.destination(host, port) == Some(index),
{
    assert(profile.listens(index, host, port));
    let chosen = choose|i: int| profile.is_destination(host, port, i);
    assert(profile.is_destination(host, port, chosen));
    if chosen < index {
        assert(!profile.listens(chosen, host, port));
    } else if index < chosen {
        assert(!profile.listens(index, host, port));
    }
}

/// The hosts of all destinations are text, and the timeout is in range.
pub open spec fn profile_admissible(
    destinations: Seq<DestinationView>,
    transaction_timeout_ms: u32,
) -> bool {
    &&& transaction_timeout_ms <= i32::MAX
    &&& forall|i: int|
        0 <= i < destinations.len() ==> vstd::utf8::valid_utf8(#[trigger] destinations[i].host)
}

impl Profile {
    /// A profile, if every host name is text and the timeout is in range.
    pub fn new(
        destinations: Vec<BrokerDestination>,
        topic: Vec<u8>,
        partition: i32,
        produce_routes: Vec<TopicPartition>,
        rights: u64,
        transaction_timeout_ms: u32,
    ) -> (profile: Option<Profile>)
        ensures
            profile is Some == profile_admissible(
                destination_views(destinations@),
                transaction_timeout_ms,
            ),
            profile matches Some(made) ==> made@ == (ProfileView {
                destinations: destination_views(destinations@),
                topic: topic@,
                partition,
                produce_routes: route_views(produce_routes@),
                rights,
                transaction_timeout_ms: transaction_timeout_ms as i32,
            }),
    {
        if transaction_timeout_ms > i32::MAX as u32 {
            return None;
        }
        let ghost views = destination_views(destinations@);
        let mut index: usize = 0;
        while index < destinations.len()
            invariant
                index <= destinations@.len(),
                views == destination_views(destinations@),
                forall|i: int| 0 <= i < index ==> vstd::utf8::valid_utf8(#[trigger] views[i].host),
            decreases destinations@.len() - index,
        {
            if !text::is_utf8(destinations[index].host.as_slice()) {
                assert(!vstd::utf8::valid_utf8(views[index as int].host));
                return None;
            }
            index += 1;
        }
        Some(
            Profile {
                destinations,
                topic,
                partition,
                produce_routes,
                rights,
                transaction_timeout_ms: transaction_timeout_ms as i32,
            },
        )
    }

    /// Whether the profile holds one of the bits of `right`.
    pub fn has(&self, right: u64) -> (held: bool)
        ensures
            held == (self@.rights & right != 0),
    {
        self.rights & right != 0
    }

    /// The topic and partition of a route.
    pub fn route(&self, index: u16) -> (target: Option<(&Vec<u8>, i32)>)
        ensures
            match target {
                Some((topic, partition)) => self@.target(index as int) == Some(
                    TopicPartitionView { topic: topic@, partition },
                ),
                None => self@.target(index as int) is None,
            },
    {
        if index == DEFAULT_ROUTE {
            return Some((&self.topic, self.partition));
        }
        let place: usize = index as usize - 1;
        if place < self.produce_routes.len() {
            let route = &self.produce_routes[place];
            Some((&route.topic, route.partition))
        } else {
            None
        }
    }

    /// The number of the destination that listens on `port` of `host`.
    pub fn broker_destination(&self, host: &[u8], port: i32) -> (index: Option<usize>)
        ensures
            match index {
                Some(index) => self@.is_destination(host@, port, index as int),
                None => self@.unauthorized(host@, port),
            },
            index matches Some(index) ==> self@.destination(host@, port) == Some(index as int),
            index is None ==> self@.destination(host@, port) is None,
    {
        let mut index: usize = 0;
        while index < self.destinations.len()
            invariant
                index <= self.destinations@.len(),
                forall|i: int| 0 <= i < index ==> !#[trigger] self@.listens(i, host@, port),
            decreases self.destinations@.len() - index,
        {
            let destination = &self.destinations[index];
            assert(self@.destinations[index as int] == destination@);
            if wire::bytes_equal(destination.host.as_slice(), host) && destination.port as i32
                == port {
                proof {
                    assert(self@.listens(index as int, host@, port));
                    lemma_destination_unique(self@, host@, port, index as int);
                }
                return Some(index);
            }
            index += 1;
        }
        None
    }
}

/// The time in milliseconds since 1970, if the clock has one.
pub open spec fn clock_millis(unix_seconds: i64, nanosecond: u32) -> Option<i64> {
    let millis = unix_seconds * 1_000 + nanosecond / 1_000_000;
    if unix_seconds <= 0 || millis > i64::MAX {
        None
    } else {
        Some(millis as i64)
    }
}

/// The time in milliseconds since 1970.
pub fn unix_millis(unix_seconds: i64, nanosecond: u32) -> (millis: Option<i64>)
    ensures
        millis == clock_millis(unix_seconds, nanosecond),
{
    if unix_seconds <= 0 {
        return None;
    }
    match unix_seconds.checked_mul(1_000) {
        Some(millis) => millis.checked_add((nanosecond / 1_000_000) as i64),
        None => None,
    }
}

/// The time that certificates are checked against: that of a synchronized
/// clock.
pub fn tls_unix_seconds(synchronized: bool, unix_seconds: i64) -> (seconds: Option<u64>)
    ensures
        seconds == if synchronized && unix_seconds > 0 {
            Some(unix_seconds as u64)
        } else {
            None::<u64>
        },
{
    if synchronized && unix_seconds > 0 {
        Some(unix_seconds as u64)
    } else {
        None
    }
}

/// A network status reply shows an address other than zero in its first word.
pub open spec fn shows_address(result: i64, status: Option<Seq<u8>>) -> bool {
    &&& result >= 4
    &&& status matches Some(bytes) && bytes.len() >= 4 && wire::le_value(bytes.take(4)) != 0
}

/// Whether the network has an IPv4 address.
pub fn tcpip_has_ipv4(result: i64, status: Option<&[u8]>) -> (has: bool)
    ensures
        has == shows_address(
            result,
            match status {
                Some(bytes) => Some(bytes@),
                None => None::<Seq<u8>>,
            },
        ),
{
    match status {
        Some(bytes) => {
            if result < 4 || bytes.len() < 4 {
                return false;
            }
            assert(bytes@.subrange(0, 4) =~= bytes@.take(4));
            wire::read_le(bytes, 0, 4) != 0
        },
        None => false,
    }
}


/// What a connection to a broker is in the middle of.
pub struct BrokerTransport {
    pub connected: bool,
    pub received: Vec<u8>,
}

#[verifier::ext_equal]
pub struct TransportView {
    pub connected: bool,
    pub received: Seq<u8>,
}

impl View for BrokerTransport {
    type V = TransportView;

    open spec fn view(&self) -> TransportView {
        TransportView { connected: self.connected, received: self.received@ }
    }
}

/// What to do next in an exchange of a request for a reply.
pub enum Exchange {
    Connect,
    Send,
    Receive,
    /// The exchange is over: this frame is the reply.
    Reply { frame: Vec<u8> },
    /// The exchange is over without a reply.
    Failed { error: Error },
}

#[verifier::ext_equal]
pub enum ExchangeView {
    Connect,
    Send,
    Receive,
    Reply { frame: Seq<u8> },
    Failed { error: Error },
}

impl View for Exchange {
    type V = ExchangeView;

    open spec fn view(&self) -> ExchangeView {
        match *self {
            Exchange::Connect => ExchangeView::Connect,
            Exchange::Send => ExchangeView::Send,
            Exchange::Receive => ExchangeView::Receive,
            Exchange::Reply { frame } => ExchangeView::Reply { frame: frame@ },
            Exchange::Failed { error } => ExchangeView::Failed { error },
        }
    }
}

/// The length that a frame announces in its first four bytes.
pub open spec fn announced(received: Seq<u8>) -> int {
    wire::be_value(received.take(4)) as int
}

/// A frame may announce this length.
pub open spec fn length_allowed(length: int, max_frame_len: int) -> bool {
    4 <= length <= i32::MAX && length <= max_frame_len
}

/// A transport that starts over.
pub open spec fn disconnected() -> TransportView {
    TransportView { connected: false, received: Seq::empty() }
}

/// What the bytes received so far amount to.
pub open spec fn after_look(received: Seq<u8>, max_frame_len: int) -> (TransportView, ExchangeView) {
    let waiting = (TransportView { connected: true, received }, ExchangeView::Receive);
    if received.len() < 4 {
        waiting
    } else if !length_allowed(announced(received), max_frame_len) {
        (disconnected(), ExchangeView::Failed { error: Error::Protocol })
    } else if received.len() < announced(received) + 4 {
        waiting
    } else {
        let end = announced(received) + 4;
        (
            TransportView { connected: true, received: received.skip(end) },
            ExchangeView::Reply { frame: received.take(end) },
        )
    }
}

/// What a chunk, or the lack of one, amounts to.
pub open spec fn after_receive(
    received: Seq<u8>,
    chunk: Result<Seq<u8>, Error>,
    max_frame_len: int,
) -> (TransportView, ExchangeView) {
    match chunk {
        Err(error) => (disconnected(), ExchangeView::Failed { error }),
        Ok(bytes) => if received.len() + bytes.len() > max_frame_len + 4 {
            (disconnected(), ExchangeView::Failed { error: Error::TooLarge })
        } else {
            after_look(received + bytes, max_frame_len)
        },
    }
}

/// The transport once a connection was opened, or could not be.
pub open spec fn after_open(transport: TransportView, outcome: Result<(), Error>) -> (
    TransportView,
    ExchangeView,
) {
    match outcome {
        Ok(_) => (
            TransportView { connected: true, received: Seq::empty() },
            ExchangeView::Send,
        ),
        Err(error) => (transport, ExchangeView::Failed { error }),
    }
}

impl BrokerTransport {
    pub fn new() -> (transport: BrokerTransport)
        ensures
            transport@ == disconnected(),
    {
        BrokerTransport { connected: false, received: Vec::new() }
    }

    /// Begin an exchange.
    pub fn start(&self) -> (next: Exchange)
        ensures
            next@ == if self@.connected {
                ExchangeView::Send
            } else {
                ExchangeView::Connect
            },
    {
        if self.connected {
            Exchange::Send
        } else {
            Exchange::Connect
        }
    }

    /// The connection was opened, or could not be.
    pub fn opened(&mut self, outcome: Result<(), Error>) -> (next: Exchange)
        ensures
            (final(self)@, next@) == after_open(old(self)@, outcome),
    {
        match outcome {
            Ok(_) => {
                self.connected = true;
                self.received = Vec::new();
                Exchange::Send
            },
            Err(error) => Exchange::Failed { error },
        }
    }

    fn disconnect(&mut self)
        ensures
            final(self)@ == disconnected(),
    {
        self.connected = false;
        self.received = Vec::new();
    }

    fn look(&mut self, max_frame_len: usize) -> (next: Exchange)
        requires
            old(self)@.connected,
        ensures
            (final(self)@, next@) == after_look(old(self)@.received, max_frame_len as int),
    {
        let ghost before = self.received@;
        if self.received.len() < 4 {
            return Exchange::Receive;
        }
        let payload: u64 = wire::read_be(self.received.as_slice(), 0, 4);
        assert(before.subrange(0, 4) =~= before.take(4));
        if payload < 4 || payload > i32::MAX as u64 || payload > max_frame_len as u64 {
            self.disconnect();
            return Exchange::Failed { error: Error::Protocol };
        }
        let length: usize = payload as usize;
        if self.received.len() - 4 < length {
            return Exchange::Receive;
        }
        let end: usize = length + 4;
        let frame: Vec<u8> = wire::copy_range(self.received.as_slice(), 0, end);
        let rest: Vec<u8> = wire::copy_range(
            self.received.as_slice(),
            end,
            self.received.len() - end,
        );
        self.received = rest;
        proof {
            assert(frame@ =~= before.take(end as int));
            assert(self.received@ =~= before.skip(end as int));
        }
        Exchange::Reply { frame }
    }

    /// The request was sent, or could not be.
    pub fn sent(&mut self, complete: bool, max_frame_len: usize) -> (next: Exchange)
        requires
            old(self)@.connected,
        ensures
            (final(self)@, next@) == if complete {
                after_look(old(self)@.received, max_frame_len as int)
            } else {
                (
                    TransportView { connected: false, ..old(self)@ },
                    ExchangeView::Failed { error: Error::Transport },
                )
            },
    {
        if complete {
            self.look(max_frame_len)
        } else {
            self.connected = false;
            Exchange::Failed { error: Error::Transport }
        }
    }

    /// Bytes arrived, or did not.
    pub fn receive(&mut self, chunk: Result<Vec<u8>, Error>, max_frame_len: usize) -> (next:
        Exchange)
        requires
            old(self)@.connected,
        ensures
            (final(self)@, next@) == after_receive(
                old(self)@.received,
                match chunk {
                    Ok(bytes) => Ok(bytes@),
                    Err(error) => Err::<Seq<u8>, Error>(error),
                },
                max_frame_len as int,
            ),
    {
        match chunk {
            Err(error) => {
                self.disconnect();
                Exchange::Failed { error }
            },
            Ok(bytes) => {
                wire::push_all(&mut self.received, bytes.as_slice());
                if self.received.len() >= 4 && self.received.len() - 4 > max_frame_len {
                    self.disconnect();
                    return Exchange::Failed { error: Error::TooLarge };
                }
                self.look(max_frame_len)
            },
        }
    }
}

/// A frame: the length of its payload, then the payload.
pub open spec fn framed(payload: Seq<u8>) -> Seq<u8> {
    wire::be_bytes(payload.len(), 4) + payload
}

/// A frame is cut out of the stream at its end, and not before: whatever
/// follows it stays for the next exchange.
pub proof fn law_frames_are_cut_at_their_ends(
    payload: Seq<u8>,
    rest: Seq<u8>,
    max_frame_len: int,
    part: int,
)
    requires
        length_allowed(payload.len() as int, max_frame_len),
        0 <= part < framed(payload).len(),
    ensures
        after_look(framed(payload) + rest, max_frame_len) == (
            TransportView { connected: true, received: rest },
            ExchangeView::Reply { frame: framed(payload) },
        ),
        after_look(framed(payload).take(part), max_frame_len) == (
            TransportView { connected: true, received: framed(payload).take(part) },
            ExchangeView::Receive,
        ),
{
    let length = payload.len();
    reveal_with_fuel(wire::byte_capacity, 5);
    wire::lemma_be_bytes_len(length, 4);
    wire::lemma_be_round_trip(length, 4);
    let whole = framed(payload) + rest;
    assert(whole.take(4) =~= wire::be_bytes(length, 4));
    assert(whole.take(length as int + 4) =~= framed(payload));
    assert(whole.skip(length as int + 4) =~= rest);
    let some = framed(payload).take(part);
    if part >= 4 {
        assert(some.take(4) =~= wire::be_bytes(length, 4));
    }
}

/// An exchange that ends without a reply leaves nothing behind that a later
/// exchange could take for its own reply: the next one connects first, and
/// starts with no bytes received.
pub proof fn law_failed_exchange_leaves_no_reply(
    received: Seq<u8>,
    chunk: Result<Seq<u8>, Error>,
    max_frame_len: int,
)
    ensures
        match after_receive(received, chunk, max_frame_len) {
            (transport, ExchangeView::Failed { .. }) => transport == disconnected(),
            _ => true,
        },
        match after_look(received, max_frame_len) {
            (transport, ExchangeView::Failed { .. }) => transport == disconnected(),
            _ => true,
        },
{
}


/// Where a broker of the cluster says it is.
pub struct BrokerAddress {
    pub node_id: i32,
    pub host: Vec<u8>,
    pub port: i32,
}

/// Who leads a partition.
#[derive(Clone, Copy, Debug, PartialEq, Eq)]
pub struct PartitionLeader {
    pub partition: i32,
    pub error: i16,
    pub leader: i32,
}

pub struct TopicMetadata {
    pub topic: Vec<u8>,
    pub error: i16,
    pub partitions: Vec<PartitionLeader>,
}

/// What the cluster says about itself.
pub struct ClusterMetadata {
    pub brokers: Vec<BrokerAddress>,
    pub topics: Vec<TopicMetadata>,
}

#[verifier::ext_equal]
pub struct AddressView {
    pub node_id: i32,
    pub host: Seq<u8>,
    pub port: i32,
}

#[verifier::ext_equal]
pub struct TopicView {
    pub topic: Seq<u8>,
    pub error: i16,
    pub partitions: Seq<PartitionLeader>,
}

#[verifier::ext_equal]
pub struct MetadataView {
    pub brokers: Seq<AddressView>,
    pub topics: Seq<TopicView>,
}

impl View for BrokerAddress {
    type V = AddressView;

    open spec fn view(&self) -> AddressView {
        AddressView { node_id: self.node_id, host: self.host@, port: self.port }
    }
}

impl View for TopicMetadata {
    type V = TopicView;

    open spec fn view(&self) -> TopicView {
        TopicView { topic: self.topic@, error: self.error, partitions: self.partitions@ }
    }
}

impl View for ClusterMetadata {
    type V = MetadataView;

    open spec fn view(&self) -> MetadataView {
        MetadataView {
            brokers: Seq::new(self.brokers@.len(), |i: int| self.brokers@[i]@),
            topics: Seq::new(self.topics@.len(), |i: int| self.topics@[i]@),
        }
    }
}

/// The views of a list of byte strings.
pub open spec fn strings(list: Seq<Vec<u8>>) -> Seq<Seq<u8>> {
    Seq::new(list.len(), |i: int| list[i]@)
}

/// The topics of the default route and of the first `count` other routes,
/// each once, in the order of the routes.
pub open spec fn distinct_topics(profile: ProfileView, count: nat) -> Seq<Seq<u8>>
    decreases count,
{
    if count == 0 {
        seq![profile.topic]
    } else {
        let before = distinct_topics(profile, (count - 1) as nat);
        let topic = profile.produce_routes[count - 1].topic;
        if before.contains(topic) {
            before
        } else {
            before.push(topic)
        }
    }
}

/// The brokers that are where the profile authorizes one, each with the number
/// of its destination. Of two entries for a node the later one counts.
pub open spec fn known_brokers(profile: ProfileView, brokers: Seq<AddressView>) -> Map<i32, usize>
    decreases brokers.len(),
{
    if brokers.len() == 0 {
        Map::empty()
    } else {
        let before = known_brokers(profile, brokers.drop_last());
        let broker = brokers.last();
        match profile.destination(broker.host, broker.port) {
            Some(index) => before.insert(broker.node_id, index as usize),
            None => before,
        }
    }
}

/// The first entry about a topic.
pub open spec fn topic_entry(topics: Seq<TopicView>, topic: Seq<u8>) -> Option<TopicView>
    decreases topics.len(),
{
    if topics.len() == 0 {
        None
    } else if topics[0].topic == topic {
        Some(topics[0])
    } else {
        topic_entry(topics.skip(1), topic)
    }
}

/// The first entry about a partition.
pub open spec fn partition_entry(partitions: Seq<PartitionLeader>, partition: i32) -> Option<
    PartitionLeader,
>
    decreases partitions.len(),
{
    if partitions.len() == 0 {
        None
    } else if partitions[0].partition == partition {
        Some(partitions[0])
    } else {
        partition_entry(partitions.skip(1), partition)
    }
}

/// The node that leads a partition, if the cluster names one and the profile
/// authorizes it.
pub open spec fn leader_of(
    topics: Seq<TopicView>,
    known: Map<i32, usize>,
    target: TopicPartitionView,
    codes: BrokerCodes,
) -> Result<i32, Error> {
    match topic_entry(topics, target.topic) {
        None => Err(Error::Broker),
        Some(entry) => if entry.error != codes.no_error {
            Err(Error::Broker)
        } else {
            match partition_entry(entry.partitions, target.partition) {
                None => Err(Error::Unsupported),
                Some(leader) => if leader.error != codes.no_error {
                    Err(broker_error(leader.error, codes))
                } else if !known.contains_key(leader.leader) {
                    Err(Error::Denied)
                } else {
                    Ok(leader.leader)
                },
            }
        },
    }
}

/// The nodes that lead the first `count` routes, or what is wrong with the
/// first route that has none.
pub open spec fn leaders(
    profile: ProfileView,
    topics: Seq<TopicView>,
    known: Map<i32, usize>,
    codes: BrokerCodes,
    count: nat,
) -> Result<Seq<i32>, Error>
    decreases count,
{
    if count == 0 {
        Ok(Seq::empty())
    } else {
        match leaders(profile, topics, known, codes, (count - 1) as nat) {
            Err(error) => Err(error),
            Ok(before) => match leader_of(topics, known, profile.target(count - 1)->0, codes) {
                Err(error) => Err(error),
                Ok(node) => Ok(before.push(node)),
            },
        }
    }
}

/// The number of the request that follows.
pub open spec fn correlation_after(correlation: i32) -> i32 {
    if 0 < correlation < i32::MAX {
        (correlation + 1) as i32
    } else {
        1
    }
}

/// What a session knows of the cluster.
pub struct BrokerSession {
    /// The destination of each known broker.
    pub brokers: BTreeMap<i32, usize>,
    /// The node that leads each route.
    pub route_nodes: Vec<i32>,
    pub group_coordinator: Option<i32>,
    pub transaction_coordinator: Option<i32>,
    pub correlation: i32,
}

#[verifier::ext_equal]
pub struct SessionView {
    pub brokers: Map<i32, usize>,
    pub route_nodes: Seq<i32>,
    pub group_coordinator: Option<i32>,
    pub transaction_coordinator: Option<i32>,
    pub correlation: i32,
}

impl View for BrokerSession {
    type V = SessionView;

    open spec fn view(&self) -> SessionView {
        SessionView {
            brokers: self.brokers@,
            route_nodes: self.route_nodes@,
            group_coordinator: self.group_coordinator,
            transaction_coordinator: self.transaction_coordinator,
            correlation: self.correlation,
        }
    }
}

/// Whether a topic is in a list.
fn has_topic(topics: &Vec<Vec<u8>>, topic: &Vec<u8>) -> (found: bool)
    ensures
        found == strings(topics@).contains(topic@),
{
    let mut index: usize = 0;
    while index < topics.len()
        invariant
            index <= topics@.len(),
            forall|i: int| 0 <= i < index ==> strings(topics@)[i] != topic@,
        decreases topics@.len() - index,
    {
        if wire::bytes_equal(topics[index].as_slice(), topic.as_slice()) {
            assert(strings(topics@)[index as int] == topic@);
            return true;
        }
        index += 1;
    }
    false
}

impl Profile {
    /// The topics to ask the cluster about.
    pub fn metadata_topics(&self) -> (topics: Vec<Vec<u8>>)
        ensures
            strings(topics@) == distinct_topics(self@, self@.produce_routes.len()),
    {
        let mut topics: Vec<Vec<u8>> = Vec::new();
        topics.push(wire::copy_range(self.topic.as_slice(), 0, self.topic.len()));
        assert(self.topic@.subrange(0, self.topic@.len() as int) =~= self.topic@);
        assert(strings(topics@) =~= seq![self@.topic]);
        let mut index: usize = 0;
        while index < self.produce_routes.len()
            invariant
                index <= self.produce_routes@.len(),
                strings(topics@) == distinct_topics(self@, index as nat),
            decreases self.produce_routes@.len() - index,
        {
            let topic = &self.produce_routes[index].topic;
            assert(self@.produce_routes[index as int].topic == topic@);
            if !has_topic(&topics, topic) {
                let ghost before = topics@;
                topics.push(wire::copy_range(topic.as_slice(), 0, topic.len()));
                assert(topic@.subrange(0, topic@.len() as int) =~= topic@);
                assert(strings(topics@) =~= strings(before).push(topic@));
            }
            index += 1;
        }
        topics
    }
}

/// The topics asked about hold every route's topic, and none twice.
pub proof fn law_every_topic_is_asked_about_once(profile: ProfileView, route: int)
    requires
        0 <= route <= profile.produce_routes.len(),
    ensures
        distinct_topics(profile, profile.produce_routes.len()).contains(
            profile.target(route)->0.topic,
        ),
        distinct_topics(profile, profile.produce_routes.len()).no_duplicates(),
{
    lemma_distinct_topics(profile, profile.produce_routes.len(), route);
}

proof fn lemma_distinct_topics(profile: ProfileView, count: nat, route: int)
    requires
        0 <= route <= count <= profile.produce_routes.len(),
    ensures
        distinct_topics(profile, count).contains(profile.target(route)->0.topic),
        distinct_topics(profile, count).no_duplicates(),
    decreases count,
{
    let topics = distinct_topics(profile, count);
    if count == 0 {
        assert(topics[0] == profile.topic);
    } else {
        let before = distinct_topics(profile, (count - 1) as nat);
        let topic = profile.produce_routes[count - 1].topic;
        lemma_distinct_topics(profile, (count - 1) as nat, if route == count {
            0
        } else {
            route
        });
        if !before.contains(topic) {
            assert(topics[before.len() as int] == topic);
            assert forall|t: Seq<u8>| before.contains(t) implies topics.contains(t) by {
                let i = choose|i: int| 0 <= i < before.len() && before[i] == t;
                assert(topics[i] == t);
            }
        }
    }
}

fn find_topic<'a>(topics: &'a Vec<TopicMetadata>, topic: &Vec<u8>) -> (entry: Option<
    &'a TopicMetadata,
>)
    ensures
        topic_entry(Seq::new(topics@.len(), |i: int| topics@[i]@), topic@) == match entry {
            Some(entry) => Some(entry@),
            None => None::<TopicView>,
        },
{
    let ghost views = Seq::new(topics@.len(), |i: int| topics@[i]@);
    let mut index: usize = 0;
    assert(views.skip(0) =~= views);
    while index < topics.len()
        invariant
            index <= topics@.len(),
            views == Seq::new(topics@.len(), |i: int| topics@[i]@),
            topic_entry(views, topic@) == topic_entry(views.skip(index as int), topic@),
        decreases topics@.len() - index,
    {
        assert(views.skip(index as int)[0] == topics@[index as int]@);
        assert(views.skip(index as int).skip(1) =~= views.skip(index + 1));
        if wire::bytes_equal(topics[index].topic.as_slice(), topic.as_slice()) {
            return Some(&topics[index]);
        }
        index += 1;
    }
    None
}

fn find_partition(partitions: &Vec<PartitionLeader>, partition: i32) -> (entry: Option<
    PartitionLeader,
>)
    ensures
        entry == partition_entry(partitions@, partition),
{
    let mut index: usize = 0;
    assert(partitions@.skip(0) =~= partitions@);
    while index < partitions.len()
        invariant
            index <= partitions@.len(),
            partition_entry(partitions@, partition) == partition_entry(
                partitions@.skip(index as int),
                partition,
            ),
        decreases partitions@.len() - index,
    {
        assert(partitions@.skip(index as int)[0] == partitions@[index as int]);
        assert(partitions@.skip(index as int).skip(1) =~= partitions@.skip(index + 1));
        if partitions[index].partition == partition {
            return Some(partitions[index]);
        }
        index += 1;
    }
    None
}

/// The node that leads a partition.
fn find_leader(
    metadata: &ClusterMetadata,
    known: &BTreeMap<i32, usize>,
    topic: &Vec<u8>,
    partition: i32,
    codes: &BrokerCodes,
) -> (leader: Result<i32, Error>)
    ensures
        leader == leader_of(
            metadata@.topics,
            known@,
            TopicPartitionView { topic: topic@, partition },
            *codes,
        ),
{
    match find_topic(&metadata.topics, topic) {
        None => Err(Error::Broker),
        Some(entry) => {
            if entry.error != codes.no_error {
                return Err(Error::Broker);
            }
            match find_partition(&entry.partitions, partition) {
                None => Err(Error::Unsupported),
                Some(leader) => {
                    if leader.error != codes.no_error {
                        Err(map_broker(leader.error, codes))
                    } else if !known.contains_key(&leader.leader) {
                        Err(Error::Denied)
                    } else {
                        Ok(leader.leader)
                    }
                },
            }
        },
    }
}

/// The brokers that are where the profile authorizes one.
fn find_brokers(profile: &Profile, brokers: &Vec<BrokerAddress>) -> (known: BTreeMap<i32, usize>)
    ensures
        known@ == known_brokers(profile@, Seq::new(brokers@.len(), |i: int| brokers@[i]@)),
{
    let ghost views = Seq::new(brokers@.len(), |i: int| brokers@[i]@);
    let mut known: BTreeMap<i32, usize> = BTreeMap::new();
    let mut index: usize = 0;
    assert(views.take(0) =~= Seq::empty());
    while index < brokers.len()
        invariant
            index <= brokers@.len(),
            views == Seq::new(brokers@.len(), |i: int| brokers@[i]@),
            known@ == known_brokers(profile@, views.take(index as int)),
        decreases brokers@.len() - index,
    {
        let broker = &brokers[index];
        assert(views.take(index + 1).drop_last() =~= views.take(index as int));
        assert(views.take(index + 1).last() == broker@);
        match profile.broker_destination(broker.host.as_slice(), broker.port) {
            Some(destination) => {
                known.insert(broker.node_id, destination);
            },
            None => {},
        }
        index += 1;
    }
    assert(views.take(index as int) =~= views);
    known
}

impl BrokerSession {
    pub fn new() -> (session: BrokerSession)
        ensures
            session@ == (SessionView {
                brokers: Map::empty(),
                route_nodes: Seq::empty(),
                group_coordinator: None,
                transaction_coordinator: None,
                correlation: 1,
            }),
    {
        BrokerSession {
            brokers: BTreeMap::new(),
            route_nodes: Vec::new(),
            group_coordinator: None,
            transaction_coordinator: None,
            correlation: 1,
        }
    }

    /// The number that ties the next request to its reply.
    pub fn next(&mut self) -> (correlation: i32)
        ensures
            correlation == old(self)@.correlation,
            final(self)@ == (SessionView {
                correlation: correlation_after(old(self)@.correlation),
                ..old(self)@
            }),
    {
        let value: i32 = self.correlation;
        self.correlation = if value > 0 && value < i32::MAX {
            value + 1
        } else {
            1
        };
        value
    }

    /// Learn where each route leads. A refusal changes nothing.
    pub fn refresh_routes(
        &mut self,
        profile: &Profile,
        metadata: &ClusterMetadata,
        codes: &BrokerCodes,
    ) -> (result: Result<(), Error>)
        requires
            profile@.produce_routes.len() <= u16::MAX,
        ensures
            match leaders(
                profile@,
                metadata@.topics,
                known_brokers(profile@, metadata@.brokers),
                *codes,
                profile@.produce_routes.len() + 1,
            ) {
                Ok(nodes) => result is Ok && final(self)@ == (SessionView {
                    brokers: known_brokers(profile@, metadata@.brokers),
                    route_nodes: nodes,
                    ..old(self)@
                }),
                Err(error) => result == Err::<(), Error>(error) && final(self)@ == old(self)@,
            },
    {
        let known: BTreeMap<i32, usize> = find_brokers(profile, &metadata.brokers);
        let mut nodes: Vec<i32> = Vec::new();
        let count: usize = profile.produce_routes.len();
        let mut index: usize = 0;
        while index <= count
            invariant
                index <= count + 1,
                count == profile@.produce_routes.len() <= u16::MAX,
                known@ == known_brokers(profile@, metadata@.brokers),
                self@ == old(self)@,
                leaders(profile@, metadata@.topics, known@, *codes, index as nat) == Ok::<
                    Seq<i32>,
                    Error,
                >(nodes@),
            decreases count + 1 - index,
        {
            let target = profile.route(index as u16);
            match target {
                None => {
                    assert(false);
                    return Err(Error::Denied);
                },
                Some((topic, partition)) => {
                    match find_leader(metadata, &known, topic, partition, codes) {
                        Err(error) => {
                            proof {
                                lemma_leaders_fail(
                                    profile@,
                                    metadata@.topics,
                                    known@,
                                    *codes,
                                    index as nat + 1,
                                    count as nat + 1,
                                    error,
                                );
                            }
                            return Err(error);
                        },
                        Ok(node) => {
                            nodes.push(node);
                        },
                    }
                },
            }
            index += 1;
        }
        self.brokers = known;
        self.route_nodes = nodes;
        Ok(())
    }
}

/// The first route without a leader decides for all longer lists of routes.
proof fn lemma_leaders_fail(
    profile: ProfileView,
    topics: Seq<TopicView>,
    known: Map<i32, usize>,
    codes: BrokerCodes,
    count: nat,
    total: nat,
    error: Error,
)
    requires
        count <= total,
        leaders(profile, topics, known, codes, count) == Err::<Seq<i32>, Error>(error),
    ensures
        leaders(profile, topics, known, codes, total) == Err::<Seq<i32>, Error>(error),
    decreases total - count,
{
    if count < total {
        lemma_leaders_fail(profile, topics, known, codes, count, (total - 1) as nat, error);
    }
}

/// Every known broker is one that the cluster named, at a destination that the
/// profile authorizes.
proof fn lemma_known_brokers(profile: ProfileView, brokers: Seq<AddressView>, node: i32) -> (place:
    int)
    requires
        profile.destinations.len() <= usize::MAX,
        known_brokers(profile, brokers).contains_key(node),
    ensures
        0 <= place < brokers.len(),
        brokers[place].node_id == node,
        profile.is_destination(
            brokers[place].host,
            brokers[place].port,
            known_brokers(profile, brokers)[node] as int,
        ),
    decreases brokers.len(),
{
    let before = known_brokers(profile, brokers.drop_last());
    let broker = brokers.last();
    match profile.destination(broker.host, broker.port) {
        Some(index) => {
            if broker.node_id == node {
                lemma_destination_exists(profile, broker.host, broker.port);
                brokers.len() - 1
            } else {
                lemma_known_brokers(profile, brokers.drop_last(), node)
            }
        },
        None => lemma_known_brokers(profile, brokers.drop_last(), node),
    }
}

/// An authorized address has a first destination.
proof fn lemma_destination_exists(profile: ProfileView, host: Seq<u8>, port: i32)
    requires
        profile.destination(host, port) is Some,
    ensures
        profile.is_destination(host, port, profile.destination(host, port)->0),
{
    let some = choose|i: int|
        0 <= i < profile.destinations.len() && #[trigger] profile.listens(i, host, port);
    let first = lemma_first_listening(profile, host, port, some);
    lemma_destination_unique(profile, host, port, first);
}

proof fn lemma_first_listening(profile: ProfileView, host: Seq<u8>, port: i32, some: int) -> (first:
    int)
    requires
        0 <= some < profile.destinations.len(),
        profile.listens(some, host, port),
    ensures
        profile.is_destination(host, port, first),
    decreases some,
{
    if exists|i: int| 0 <= i < some && #[trigger] profile.listens(i, host, port) {
        let earlier = choose|i: int| 0 <= i < some && #[trigger] profile.listens(i, host, port);
        lemma_first_listening(profile, host, port, earlier)
    } else {
        some
    }
}

/// What the cluster says about itself gives no authority: every route leads to
/// a node that the cluster placed at a destination of the profile.
pub proof fn law_routes_lead_to_authorized_brokers(
    profile: ProfileView,
    metadata: MetadataView,
    codes: BrokerCodes,
    count: nat,
    route: int,
)
    requires
        profile.destinations.len() <= usize::MAX,
        leaders(
            profile,
            metadata.topics,
            known_brokers(profile, metadata.brokers),
            codes,
            count,
        ) is Ok,
        0 <= route < count,
    ensures
        ({
            let known = known_brokers(profile, metadata.brokers);
            let nodes = leaders(profile, metadata.topics, known, codes, count)->Ok_0;
            &&& nodes.len() == count
            &&& known.contains_key(nodes[route])
            &&& exists|place: int|
                0 <= place < metadata.brokers.len() && metadata.brokers[place].node_id
                    == nodes[route] && #[trigger] profile.is_destination(
                    metadata.brokers[place].host,
                    metadata.brokers[place].port,
                    known[nodes[route]] as int,
                )
        }),
    decreases count,
{
    let known = known_brokers(profile, metadata.brokers);
    let nodes = leaders(profile, metadata.topics, known, codes, count)->Ok_0;
    if route < count - 1 {
        law_routes_lead_to_authorized_brokers(profile, metadata, codes, (count - 1) as nat, route);
    } else {
        if count > 1 {
            law_routes_lead_to_authorized_brokers(profile, metadata, codes, (count - 1) as nat, 0);
        }
        let place = lemma_known_brokers(profile, metadata.brokers, nodes[route]);
    }
}

/// How often a request to a coordinator is made.
pub const COORDINATOR_ATTEMPTS: usize = 120;

/// The pause between two requests to a coordinator, in milliseconds.
pub const COORDINATOR_RETRY_MS: u64 = 250;

/// How often a request to the leader of a route is made.
pub const ROUTING_ATTEMPTS: usize = 3;

/// What a coordinator replied.
#[derive(Clone, Copy, Debug, PartialEq, Eq, Structural)]
pub enum CoordinatorReply {
    Accepted,
    /// A broker error that may pass.
    Retriable,
    Failed { error: Error },
}

/// What to do after a request to a coordinator.
#[derive(Clone, Copy, Debug, PartialEq, Eq, Structural)]
pub enum CoordinatorStep {
    Accept,
    Fail { error: Error },
    /// Pause, then ask again.
    Again { ms: u64 },
    /// Pause, then fail with a timeout.
    GiveUp { ms: u64 },
}

/// The step after attempt number `attempt`, counted from zero.
pub open spec fn coordinator_next(attempt: int, reply: CoordinatorReply) -> CoordinatorStep {
    match reply {
        CoordinatorReply::Accepted => CoordinatorStep::Accept,
        CoordinatorReply::Failed { error } => CoordinatorStep::Fail { error },
        CoordinatorReply::Retriable => if attempt + 1 < COORDINATOR_ATTEMPTS {
            CoordinatorStep::Again { ms: COORDINATOR_RETRY_MS }
        } else {
            CoordinatorStep::GiveUp { ms: COORDINATOR_RETRY_MS }
        },
    }
}

/// Decide what follows a coordinator's reply to attempt number `attempt`.
pub fn coordinator_step(attempt: usize, reply: CoordinatorReply) -> (step: CoordinatorStep)
    ensures
        step == coordinator_next(attempt as int, reply),
{
    match reply {
        CoordinatorReply::Accepted => CoordinatorStep::Accept,
        CoordinatorReply::Failed { error } => CoordinatorStep::Fail { error },
        CoordinatorReply::Retriable => {
            if attempt < COORDINATOR_ATTEMPTS - 1 {
                CoordinatorStep::Again { ms: COORDINATOR_RETRY_MS }
            } else {
                CoordinatorStep::GiveUp { ms: COORDINATOR_RETRY_MS }
            }
        },
    }
}

/// What the leader of a route replied.
#[derive(Clone, Copy, Debug, PartialEq, Eq, Structural)]
pub enum LeaderReply {
    Accepted,
    Refused { code: i16, retriable: bool },
    Failed { error: Error },
}

/// What to do after a request to the leader of a route.
#[derive(Clone, Copy, Debug, PartialEq, Eq, Structural)]
pub enum LeaderStep {
    Accept,
    Fail { error: Error },
    /// Learn anew where the routes lead, then ask again.
    Refresh,
}

/// The step after attempt number `attempt` to produce or fetch.
pub open spec fn leader_next(attempt: int, reply: LeaderReply, codes: BrokerCodes) -> LeaderStep {
    let more = attempt + 1 < ROUTING_ATTEMPTS;
    match reply {
        LeaderReply::Accepted => LeaderStep::Accept,
        LeaderReply::Refused { code, retriable } => if more && retriable {
            LeaderStep::Refresh
        } else {
            LeaderStep::Fail { error: broker_error(code, codes) }
        },
        LeaderReply::Failed { error } => if more && (error == Error::Transport || error
            == Error::Timeout) {
            LeaderStep::Refresh
        } else {
            LeaderStep::Fail { error }
        },
    }
}

/// Decide what follows a leader's reply to attempt number `attempt` to produce
/// or fetch.
pub fn leader_step(attempt: usize, reply: LeaderReply, codes: &BrokerCodes) -> (step: LeaderStep)
    ensures
        step == leader_next(attempt as int, reply, *codes),
{
    let more: bool = attempt < ROUTING_ATTEMPTS - 1;
    match reply {
        LeaderReply::Accepted => LeaderStep::Accept,
        LeaderReply::Refused { code, retriable } => {
            if more && retriable {
                LeaderStep::Refresh
            } else {
                LeaderStep::Fail { error: map_broker(code, codes) }
            }
        },
        LeaderReply::Failed { error } => {
            if more && (error == Error::Transport || error == Error::Timeout) {
                LeaderStep::Refresh
            } else {
                LeaderStep::Fail { error }
            }
        },
    }
}

/// The step after attempt number `attempt` to list offsets failed.
pub open spec fn listing_next(attempt: int, error: Error) -> LeaderStep {
    if attempt + 1 < ROUTING_ATTEMPTS && (error == Error::Broker || error == Error::Transport
        || error == Error::Timeout) {
        LeaderStep::Refresh
    } else {
        LeaderStep::Fail { error }
    }
}

/// Decide what follows a failed attempt to list offsets.
pub fn listing_step(attempt: usize, error: Error) -> (step: LeaderStep)
    ensures
        step == listing_next(attempt as int, error),
{
    if attempt < ROUTING_ATTEMPTS - 1 && (error == Error::Broker || error == Error::Transport
        || error == Error::Timeout) {
        LeaderStep::Refresh
    } else {
        LeaderStep::Fail { error }
    }
}

/// Attempts are bounded: a coordinator is asked at most as often as
/// `COORDINATOR_ATTEMPTS` says, the leader of a route at most as often as
/// `ROUTING_ATTEMPTS` says.
pub proof fn law_attempts_are_bounded(
    attempt: int,
    coordinator: CoordinatorReply,
    leader: LeaderReply,
    error: Error,
    codes: BrokerCodes,
)
    ensures
        attempt >= COORDINATOR_ATTEMPTS - 1 ==> !(coordinator_next(attempt, coordinator) is Again),
        attempt >= ROUTING_ATTEMPTS - 1 ==> leader_next(attempt, leader, codes)
            != LeaderStep::Refresh,
        attempt >= ROUTING_ATTEMPTS - 1 ==> listing_next(attempt, error) != LeaderStep::Refresh,
{
}

/// A place to send a request that any broker can answer.
#[derive(Clone, Copy, Debug, PartialEq, Eq, Structural)]
pub enum Target {
    Destination { index: usize },
    Node { node: i32 },
}

/// `targets` are the profile's destinations in order, then the nodes in order.
pub open spec fn in_trial_order(targets: Seq<Target>, destinations: int, nodes: Set<i32>) -> bool {
    &&& targets.len() == destinations + nodes.len()
    &&& forall|i: int|
        0 <= i < destinations ==> #[trigger] targets[i] == (Target::Destination {
            index: i as usize,
        })
    &&& forall|i: int|
        destinations <= i < targets.len() ==> (#[trigger] targets[i] matches Target::Node { node }
            && nodes.contains(node))
    &&& forall|i: int, j: int|
        destinations <= i < j < targets.len() ==> (#[trigger] targets[i])->node < (
        #[trigger] targets[j])->node
}

/// What to do after a broker did not answer.
#[derive(Clone, Copy, Debug, PartialEq, Eq, Structural)]
pub enum TrialStep {
    Try { position: usize },
    Fail { error: Error },
}

/// What follows a target that failed.
pub open spec fn trial_next(position: int, targets: int, error: Error) -> TrialStep {
    if position + 1 < targets {
        TrialStep::Try { position: (position + 1) as usize }
    } else {
        TrialStep::Fail { error }
    }
}

/// Decide what follows when the target at `position` failed: the next target,
/// or the last target's error.
pub fn trial_step(position: usize, targets: usize, error: Error) -> (step: TrialStep)
    ensures
        step == trial_next(position as int, targets as int, error),
{
    if targets > 0 && position < targets - 1 {
        TrialStep::Try { position: position + 1 }
    } else {
        TrialStep::Fail { error }
    }
}

/// Where a coordinator is, or why there is none.
pub struct CoordinatorPlace {
    pub error: i16,
    pub retriable: bool,
    pub node_id: i32,
    pub host: Vec<u8>,
    pub port: i32,
}

/// What the answer about a coordinator means.
pub open spec fn coordinator_reply(
    profile: ProfileView,
    place: CoordinatorPlace,
    codes: BrokerCodes,
) -> CoordinatorReply {
    if place.error == codes.no_error {
        if profile.destination(place.host@, place.port) is Some {
            CoordinatorReply::Accepted
        } else {
            CoordinatorReply::Failed { error: Error::Denied }
        }
    } else if place.retriable {
        CoordinatorReply::Retriable
    } else {
        CoordinatorReply::Failed { error: broker_error(place.error, codes) }
    }
}

/// The keys of an ordered map ascend.
proof fn lemma_nodes_ascend(nodes: Seq<&i32>)
    requires
        vstd::std_specs::btree::increasing_seq(nodes),
    ensures
        forall|i: int, j: int| 0 <= i < j < nodes.len() ==> *nodes[i] < *nodes[j],
{
    reveal(vstd::laws_eq::obeys_eq_spec_properties);
    reveal(vstd::laws_cmp::obeys_partial_cmp_spec_properties);
    reveal(vstd::laws_cmp::obeys_cmp_partial_ord);
    reveal(vstd::laws_cmp::obeys_cmp_ord);
    assert(vstd::laws_cmp::obeys_cmp::<&i32>());
    assert forall|i: int, j: int| 0 <= i < j < nodes.len() implies *nodes[i] < *nodes[j] by {
        assert(OrdSpec::cmp_spec(&nodes[i], &nodes[j]) is Less);
        assert((*nodes[i]).cmp_spec(nodes[j]) is Less);
    }
}

impl BrokerSession {
    /// The places to try, in order, with a request that any broker can answer.
    pub fn trial_targets(&self, destinations: usize) -> (targets: Vec<Target>)
        ensures
            in_trial_order(targets@, destinations as int, self@.brokers.dom()),
    {
        let mut targets: Vec<Target> = Vec::new();
        let mut index: usize = 0;
        while index < destinations
            invariant
                index <= destinations,
                targets@.len() == index,
                forall|i: int|
                    0 <= i < index ==> #[trigger] targets@[i] == (Target::Destination {
                        index: i as usize,
                    }),
            decreases destinations - index,
        {
            targets.push(Target::Destination { index });
            index += 1;
        }
        let ghost nodes = self.brokers.keys().remaining();
        for node in iter: self.brokers.keys()
            invariant
                iter.seq() == nodes,
                targets@.len() == destinations + iter.index(),
                forall|i: int|
                    0 <= i < destinations ==> #[trigger] targets@[i] == (Target::Destination {
                        index: i as usize,
                    }),
                forall|i: int|
                    destinations <= i < targets@.len() ==> #[trigger] targets@[i] == (
                    Target::Node { node: *nodes[i - destinations] }),
        {
            targets.push(Target::Node { node: *node });
        }
        proof {
            assert(nodes.len() == self@.brokers.dom().len());
            assert(targets@.len() == destinations + nodes.len());
            assert forall|i: int| 0 <= i < nodes.len() implies self@.brokers.dom().contains(
                *#[trigger] nodes[i],
            ) by {
                assert(nodes.unref()[i] == *nodes[i]);
                assert(nodes.unref().to_set().contains(*nodes[i]));
            }
            lemma_nodes_ascend(nodes);
        }
        targets
    }

    /// The node that leads a route.
    pub fn route_node(&self, route: u16) -> (node: Result<i32, Error>)
        ensures
            node == if route < self@.route_nodes.len() {
                Ok::<i32, Error>(self@.route_nodes[route as int])
            } else {
                Err(Error::Denied)
            },
    {
        if (route as usize) < self.route_nodes.len() {
            Ok(self.route_nodes[route as usize])
        } else {
            Err(Error::Denied)
        }
    }

    /// The destination of a node.
    pub fn node_destination(&self, node: i32) -> (destination: Result<usize, Error>)
        ensures
            destination == if self@.brokers.contains_key(node) {
                Ok::<usize, Error>(self@.brokers[node])
            } else {
                Err(Error::Denied)
            },
    {
        match self.brokers.get(&node) {
            Some(destination) => Ok(*destination),
            None => Err(Error::Denied),
        }
    }

    /// The node that keeps the group's offsets.
    pub fn group_node(&self) -> (node: Result<i32, Error>)
        ensures
            node == match self@.group_coordinator {
                Some(node) => Ok::<i32, Error>(node),
                None => Err(Error::Broker),
            },
    {
        match self.group_coordinator {
            Some(node) => Ok(node),
            None => Err(Error::Broker),
        }
    }

    /// The node that runs the application's transactions.
    pub fn transaction_node(&self) -> (node: Result<i32, Error>)
        ensures
            node == match self@.transaction_coordinator {
                Some(node) => Ok::<i32, Error>(node),
                None => Err(Error::Broker),
            },
    {
        match self.transaction_coordinator {
            Some(node) => Ok(node),
            None => Err(Error::Broker),
        }
    }

    /// A reply to the question where a coordinator is. A coordinator that the
    /// profile does not authorize is refused; one that was not known before is
    /// known from now on, and one that was stays where it was.
    pub fn coordinator_found(
        &mut self,
        profile: &Profile,
        place: &CoordinatorPlace,
        codes: &BrokerCodes,
        attempt: usize,
    ) -> (step: CoordinatorStep)
        ensures
            step == coordinator_next(attempt as int, coordinator_reply(profile@, *place, *codes)),
            final(self)@ == if step == CoordinatorStep::Accept && !old(
                self,
            )@.brokers.contains_key(place.node_id) {
                SessionView {
                    brokers: old(self)@.brokers.insert(
                        place.node_id,
                        profile@.destination(place.host@, place.port)->0 as usize,
                    ),
                    ..old(self)@
                }
            } else {
                old(self)@
            },
    {
        if place.error == codes.no_error {
            match profile.broker_destination(place.host.as_slice(), place.port) {
                Some(destination) => {
                    if !self.brokers.contains_key(&place.node_id) {
                        self.brokers.insert(place.node_id, destination);
                    }
                    CoordinatorStep::Accept
                },
                None => CoordinatorStep::Fail { error: Error::Denied },
            }
        } else if place.retriable {
            coordinator_step(attempt, CoordinatorReply::Retriable)
        } else {
            CoordinatorStep::Fail { error: map_broker(place.error, codes) }
        }
    }
}


/// Whether a broker speaks every version that is needed, given whether it
/// speaks each.
pub fn check_versions(supported: &[bool]) -> (result: Result<(), Error>)
    ensures
        result == if forall|i: int| 0 <= i < supported@.len() ==> supported@[i] {
            Ok::<(), Error>(())
        } else {
            Err(Error::Unsupported)
        },
{
    let mut index: usize = 0;
    while index < supported.len()
        invariant
            index <= supported@.len(),
            forall|i: int| 0 <= i < index ==> supported@[i],
        decreases supported@.len() - index,
    {
        if !supported[index] {
            assert(!supported@[index as int]);
            return Err(Error::Unsupported);
        }
        index += 1;
    }
    Ok(())
}

/// A broker's error is fenced, timed out or the broker's; an error of the codec that
/// is none of the broker's says what went wrong with the frame.
pub proof fn law_errors_have_their_meaning(code: i16, codes: BrokerCodes, error: CodecError)
    ensures
        broker_error(code, codes) == Error::Fenced <==> code == codes.producer_fenced || code
            == codes.invalid_producer_epoch || code == codes.transaction_coordinator_fenced,
        broker_error(code, codes) == Error::Timeout ==> code == codes.request_timed_out,
        code == codes.request_timed_out ==> broker_error(code, codes) == Error::Timeout
            || broker_error(code, codes) == Error::Fenced,
        broker_error(code, codes) == Error::Fenced || broker_error(code, codes) == Error::Timeout
            || broker_error(code, codes) == Error::Broker,
        error is Broker ==> codec_error(error, codes) == broker_error(error->code, codes),
        codec_error(error, codes) == Error::TooLarge <==> error is TooLarge,
        codec_error(error, codes) == Error::Unsupported <==> error is UnsupportedVersion,
        codec_error(error, codes) == Error::Protocol <==> error is Incomplete || error is Invalid
            || error is Correlation || error is Checksum,
{
}

/// The default route leads to the profile's own topic, the others to its list in
/// order, and no further.
pub proof fn law_routes_are_numbered(profile: ProfileView, index: int)
    ensures
        profile.target(0) == Some(
            TopicPartitionView { topic: profile.topic, partition: profile.partition },
        ),
        0 <= index < profile.produce_routes.len() ==> profile.target(index + 1) == Some(
            profile.produce_routes[index],
        ),
        profile.target(index) is Some <==> 0 <= index <= profile.produce_routes.len(),
{
}

/// A time in milliseconds is the seconds and the whole milliseconds of the rest; a
/// clock that is not set tells none.
pub proof fn law_millis_of_the_clock(unix_seconds: i64, nanosecond: u32)
    requires
        nanosecond < 1_000_000_000,
        unix_seconds < 9_223_372_036_854_775,
    ensures
        clock_millis(unix_seconds, nanosecond) is Some <==> unix_seconds > 0,
        clock_millis(unix_seconds, nanosecond) matches Some(millis) ==> {
            &&& millis / 1000 == unix_seconds
            &&& (millis % 1000) * 1_000_000 <= nanosecond < (millis % 1000 + 1) * 1_000_000
        },
{
}

/// An address is there as soon as any of its four bytes is not zero.
pub proof fn law_address_shows(result: i64, bytes: Seq<u8>)
    requires
        bytes.len() >= 4,
    ensures
        shows_address(result, Some(bytes)) <==> result >= 4 && (bytes[0] != 0 || bytes[1] != 0
            || bytes[2] != 0 || bytes[3] != 0),
        !shows_address(result, None),
{
    reveal_with_fuel(wire::le_value, 5);
    let first = bytes.take(4);
    assert(first[0] == bytes[0]);
    assert(first.drop_first()[0] == bytes[1]);
    assert(first.drop_first().drop_first()[0] == bytes[2]);
    assert(first.drop_first().drop_first().drop_first()[0] == bytes[3]);
    assert(first.skip(1)[0] == bytes[1]);
    assert(first.skip(1).skip(1)[0] == bytes[2]);
    assert(first.skip(1).skip(1).skip(1)[0] == bytes[3]);
}

/// What comes in is a frame once its announced bytes and the four of their number
/// are there; a length under four or over the limit breaks the connection off.
pub proof fn law_frames_by_their_length(received: Seq<u8>, max_frame_len: int)
    requires
        received.len() >= 4,
    ensures
        ({
            let length = received[0] * 0x100_0000 + received[1] * 0x1_0000 + received[2] * 0x100
                + received[3];
            let (after, next) = after_look(received, max_frame_len);
            if length < 4 || length > 0x7fff_ffff || length > max_frame_len {
                &&& next == (ExchangeView::Failed { error: Error::Protocol })
                &&& !after.connected && after.received.len() == 0
            } else if received.len() < length + 4 {
                &&& next == ExchangeView::Receive
                &&& after.connected && after.received == received
            } else {
                &&& next is Reply
                &&& next->frame.len() == length + 4
                &&& next->frame + after.received == received
                &&& after.connected
            }
        }),
{
    reveal_with_fuel(wire::be_value, 5);
    let first = received.take(4);
    assert(first.last() == received[3]);
    assert(first.drop_last().last() == received[2]);
    assert(first.drop_last().drop_last().last() == received[1]);
    assert(first.drop_last().drop_last().drop_last().last() == received[0]);
    assert(first.drop_last().drop_last().drop_last().drop_last().len() == 0);
    let (after, next) = after_look(received, max_frame_len);
    if next is Reply {
        assert(next->frame + after.received =~= received);
    }
}

/// Bytes add to what came before, as long as no more than one whole frame of the
/// largest size waits.
pub proof fn law_received_bytes_are_bounded(
    received: Seq<u8>,
    bytes: Seq<u8>,
    error: Error,
    max_frame_len: int,
)
    requires
        max_frame_len >= 0,
    ensures
        after_receive(received, Err(error), max_frame_len).1 == (ExchangeView::Failed { error }),
        !after_receive(received, Err(error), max_frame_len).0.connected,
        received.len() + bytes.len() > max_frame_len + 4 ==> after_receive(
            received,
            Ok(bytes),
            max_frame_len,
        ).1 == (ExchangeView::Failed { error: Error::TooLarge }),
        received.len() + bytes.len() <= max_frame_len + 4 ==> after_receive(
            received,
            Ok(bytes),
            max_frame_len,
        ) == after_look(received + bytes, max_frame_len),
        after_receive(received, Ok(bytes), max_frame_len).0.received.len() <= max_frame_len + 4,
{
}

/// A request's number is followed by another positive one.
pub proof fn law_correlations_stay_positive(correlation: i32)
    ensures
        correlation_after(correlation) > 0,
        0 < correlation < i32::MAX ==> correlation_after(correlation) == correlation + 1,
{
}

/// A coordinator is asked again, a quarter of a second later, for up to 120 attempts,
/// and is taken only at a destination of the profile.
pub proof fn law_coordinator_is_asked_again(
    attempt: int,
    error: Error,
    profile: ProfileView,
    place: CoordinatorPlace,
    codes: BrokerCodes,
)
    ensures
        coordinator_next(attempt, CoordinatorReply::Accepted) == CoordinatorStep::Accept,
        coordinator_next(attempt, CoordinatorReply::Failed { error }) == (CoordinatorStep::Fail {
            error,
        }),
        attempt < 119 ==> coordinator_next(attempt, CoordinatorReply::Retriable) == (
        CoordinatorStep::Again { ms: 250 }),
        attempt >= 119 ==> coordinator_next(attempt, CoordinatorReply::Retriable) == (
        CoordinatorStep::GiveUp { ms: 250 }),
        coordinator_reply(profile, place, codes) == CoordinatorReply::Accepted <==> place.error
            == codes.no_error && !profile.unauthorized(place.host@, place.port),
        place.error == codes.no_error && profile.unauthorized(place.host@, place.port)
            ==> coordinator_reply(profile, place, codes) == (CoordinatorReply::Failed {
            error: Error::Denied,
        }),
        place.error != codes.no_error ==> (coordinator_reply(profile, place, codes)
            == CoordinatorReply::Retriable <==> place.retriable),
{
}

/// A leader is looked for again for up to three attempts: where it says that it may
/// have moved, or could not be reached.
pub proof fn law_leader_is_looked_for_again(
    attempt: int,
    code: i16,
    retriable: bool,
    error: Error,
    codes: BrokerCodes,
)
    ensures
        leader_next(attempt, LeaderReply::Accepted, codes) == LeaderStep::Accept,
        leader_next(attempt, LeaderReply::Refused { code, retriable }, codes)
            == LeaderStep::Refresh <==> attempt < 2 && retriable,
        leader_next(attempt, LeaderReply::Failed { error }, codes) == LeaderStep::Refresh
            <==> attempt < 2 && (error == Error::Transport || error == Error::Timeout),
        listing_next(attempt, error) == LeaderStep::Refresh <==> attempt < 2 && (error
            == Error::Broker || error == Error::Transport || error == Error::Timeout),
        listing_next(attempt, error) != LeaderStep::Refresh ==> listing_next(attempt, error) == (
        LeaderStep::Fail { error }),
        leader_next(attempt, LeaderReply::Failed { error }, codes) != LeaderStep::Refresh
            ==> leader_next(attempt, LeaderReply::Failed { error }, codes) == (LeaderStep::Fail {
            error,
        }),
{
}

/// A route's leader is the one that the cluster names for its topic and partition;
/// every reason not to take it is its own error.
pub proof fn law_leader_is_the_one_named(
    topics: Seq<TopicView>,
    known: Map<i32, usize>,
    target: TopicPartitionView,
    codes: BrokerCodes,
    topic: int,
    partition: int,
)
    requires
        0 <= topic < topics.len(),
        topics[topic].topic == target.topic,
        forall|i: int| 0 <= i < topic ==> (#[trigger] topics[i]).topic != target.topic,
        topics[topic].error == codes.no_error,
        0 <= partition < topics[topic].partitions.len(),
        topics[topic].partitions[partition].partition == target.partition,
        forall|i: int|
            0 <= i < partition ==> (#[trigger] topics[topic].partitions[i]).partition
                != target.partition,
    ensures
        ({
            let named = topics[topic].partitions[partition];
            &&& named.error == codes.no_error && known.contains_key(named.leader) ==> leader_of(
                topics,
                known,
                target,
                codes,
            ) == Ok::<i32, Error>(named.leader)
            &&& named.error == codes.no_error && !known.contains_key(named.leader) ==> leader_of(
                topics,
                known,
                target,
                codes,
            ) == Err::<i32, Error>(Error::Denied)
            &&& named.error != codes.no_error ==> leader_of(topics, known, target, codes) == Err::<
                i32,
                Error,
            >(broker_error(named.error, codes))
        }),
{
    lemma_topic_entry(topics, target.topic, topic);
    lemma_partition_entry(topics[topic].partitions, target.partition, partition);
}

proof fn lemma_topic_entry(topics: Seq<TopicView>, topic: Seq<u8>, index: int)
    requires
        0 <= index < topics.len(),
        topics[index].topic == topic,
        forall|i: int| 0 <= i < index ==> (#[trigger] topics[i]).topic != topic,
    ensures
        topic_entry(topics, topic) == Some(topics[index]),
    decreases index,
{
    if index > 0 {
        assert(topics[0].topic != topic);
        assert forall|i: int| 0 <= i < index - 1 implies (#[trigger] topics.skip(1)[i]).topic
            != topic by {
            assert(topics[i + 1].topic != topic);
        }
        lemma_topic_entry(topics.skip(1), topic, index - 1);
    }
}

proof fn lemma_partition_entry(partitions: Seq<PartitionLeader>, partition: i32, index: int)
    requires
        0 <= index < partitions.len(),
        partitions[index].partition == partition,
        forall|i: int| 0 <= i < index ==> (#[trigger] partitions[i]).partition != partition,
    ensures
        partition_entry(partitions, partition) == Some(partitions[index]),
    decreases index,
{
    if index > 0 {
        assert(partitions[0].partition != partition);
        assert forall|i: int| 0 <= i < index - 1 implies (
        #[trigger] partitions.skip(1)[i]).partition != partition by {
            assert(partitions[i + 1].partition != partition);
        }
        lemma_partition_entry(partitions.skip(1), partition, index - 1);
    }
}

/// The destinations of the profile are tried first, in order, and then every known
/// node once.
pub proof fn law_destinations_are_tried_first(
    targets: Seq<Target>,
    destinations: int,
    nodes: Set<i32>,
    index: int,
    other: int,
)
    requires
        0 <= destinations <= usize::MAX,
        in_trial_order(targets, destinations, nodes),
        0 <= index < other < targets.len(),
    ensures
        index < destinations ==> targets[index] == (Target::Destination { index: index as usize }),
        index >= destinations ==> targets[index] is Node && nodes.contains(targets[index]->node),
        targets[index] != targets[other],
        targets.len() == destinations + nodes.len(),
{
}

/// A profile is admitted where its timeout fits and its hosts are text.
pub proof fn law_profiles_are_admitted(
    destinations: Seq<DestinationView>,
    transaction_timeout_ms: u32,
    index: int,
)
    requires
        profile_admissible(destinations, transaction_timeout_ms),
        0 <= index < destinations.len(),
    ensures
        transaction_timeout_ms <= 0x7fff_ffff,
        vstd::utf8::valid_utf8(destinations[index].host),
{
}

/// A connection that was opened starts with nothing received, and its request is sent;
/// a target that failed is followed by the next, up to the last.
pub proof fn law_targets_are_tried_in_turn(
    transport: TransportView,
    error: Error,
    position: int,
    targets: int,
)
    requires
        0 <= position < targets <= usize::MAX,
    ensures
        after_open(transport, Ok(())).1 == ExchangeView::Send,
        after_open(transport, Ok(())).0.connected,
        after_open(transport, Ok(())).0.received.len() == 0,
        after_open(transport, Err(error)) == (transport, ExchangeView::Failed { error }),
        position < targets - 1 ==> trial_next(position, targets, error) is Try && trial_next(
            position,
            targets,
            error,
        )->position == position + 1,
        position == targets - 1 ==> trial_next(position, targets, error) == (TrialStep::Fail {
            error,
        }),
{
}

} // verus!
