//! The socket service on top of an IP stack: its addresses, its sockets and
//! the answers to its clients.
//!
//! The stack itself sends and receives; the caller reports what the stack's
//! sockets say and does what is decided here.
use std::collections::BTreeMap;
use vstd::prelude::*;

use crate::wire;

verus! {

broadcast use vstd::std_specs::btree::group_btree_axioms;

/// The first of the ports for outgoing connections.
pub const FIRST_EPHEMERAL_PORT: u16 = 49_152;

/// The longest payload of one request.
pub const MAX_PAYLOAD: usize = 4096;

/// The shortest frame: addresses and type.
pub const MIN_FRAME: usize = 14;

pub const MAX_FRAME: usize = 4096;

/// How many sockets one round removes, and how many receives it completes.
pub const ROUND_LIMIT: usize = 8;

/// The time that one tick of the stack's clock stands for, in milliseconds.
pub const CLOCK_TICK_MS: u64 = 100;

pub const MTU: u32 = 1500;

#[derive(Clone, Copy, Debug, PartialEq, Eq, Structural)]
pub enum SocketKind {
    Tcp,
    Udp,
}

/// An address, most significant byte first, and a port.
#[derive(Clone, Copy, Debug, PartialEq, Eq, Structural)]
pub struct Endpoint {
    pub address: u32,
    pub port: u16,
}

/// Why a request is refused.
#[derive(Clone, Copy, Debug, PartialEq, Eq, Structural)]
pub enum SocketError {
    BadDomain,
    TooManySockets,
    BadSocket,
    BadOpcode,
    ConnectionRefused,
    WouldBlock,
    NotConnected,
}

#[derive(Clone, Copy, Debug, PartialEq, Eq, Structural)]
pub struct SocketEntry {
    pub kind: SocketKind,
    /// The peer that datagrams go to and are accepted from.
    pub udp_remote: Option<Endpoint>,
    /// The receive that waits for data.
    pub recv_pending: Option<u64>,
    /// The socket goes once the stack is done with it.
    pub closing: bool,
}

pub struct TcpipState {
    pub sockets: BTreeMap<u64, SocketEntry>,
    pub next_sock_id: u64,
    pub next_ephemeral: u16,
    pub rx_total: u32,
    pub tx_ok: u32,
    pub tx_err: u32,
}

#[verifier::ext_equal]
pub struct StateView {
    pub sockets: Map<u64, SocketEntry>,
    pub next_sock_id: u64,
    pub next_ephemeral: u16,
    pub rx_total: u32,
    pub tx_ok: u32,
    pub tx_err: u32,
}

impl View for TcpipState {
    type V = StateView;

    open spec fn view(&self) -> StateView {
        StateView {
            sockets: self.sockets@,
            next_sock_id: self.next_sock_id,
            next_ephemeral: self.next_ephemeral,
            rx_total: self.rx_total,
            tx_ok: self.tx_ok,
            tx_err: self.tx_err,
        }
    }
}

/// The number after a socket's number; zero is no number.
pub open spec fn id_after(id: u64) -> u64 {
    if id == u64::MAX {
        1
    } else {
        (id + 1) as u64
    }
}

/// The port after a port for outgoing connections.
pub open spec fn port_after(port: u16) -> u16 {
    if port == u16::MAX {
        FIRST_EPHEMERAL_PORT
    } else {
        (port + 1) as u16
    }
}

impl StateView {
    /// The state, and the answer, once bytes were handed to the stack, or were not.
    pub open spec fn after_send(self, kind: SocketKind, taken: Option<usize>) -> (
        StateView,
        Result<usize, SocketError>,
    ) {
        (
            if taken is Some && taken->0 > 0 {
                StateView { tx_ok: self.tx_ok.wrapping_add(1), ..self }
            } else {
                StateView { tx_err: self.tx_err.wrapping_add(1), ..self }
            },
            match taken {
                Some(len) => Ok(len),
                None => match kind {
                    SocketKind::Tcp => Err(SocketError::WouldBlock),
                    SocketKind::Udp => Err(SocketError::NotConnected),
                },
            },
        )
    }

    /// Sockets are numbered from one, and outgoing ports are in their range.
    pub open spec fn wf(self) -> bool {
        &&& self.next_sock_id >= 1
        &&& self.next_ephemeral >= FIRST_EPHEMERAL_PORT
        &&& !self.sockets.contains_key(0)
        &&& self.sockets.dom().finite()
    }

    /// The state, and the answer, once a socket was asked for.
    pub open spec fn opened(self, kind: Option<SocketKind>, max_sockets: usize) -> (
        StateView,
        Result<u64, SocketError>,
    ) {
        match kind {
            None => (self, Err(SocketError::BadDomain)),
            Some(kind) => if self.sockets.dom().len() >= max_sockets {
                (self, Err(SocketError::TooManySockets))
            } else {
                let id = self.next_sock_id;
                (
                    StateView {
                        next_sock_id: id_after(id),
                        sockets: self.sockets.insert(
                            id,
                            SocketEntry {
                                kind,
                                udp_remote: None,
                                recv_pending: None,
                                closing: false,
                            },
                        ),
                        ..self
                    },
                    Ok(id),
                )
            },
        }
    }

    /// How the socket is connected to what `target` names.
    pub open spec fn connect_plan(self, id: u64, target: Seq<u8>) -> Result<
        ConnectPlan,
        SocketError,
    > {
        if self.sockets.contains_key(id) {
            Ok(
                ConnectPlan {
                    kind: self.sockets[id].kind,
                    remote: Endpoint {
                        address: wire::be_value(target.subrange(0, 4)) as u32,
                        port: wire::field(target, 4, 2) as u16,
                    },
                    local_port: self.next_ephemeral,
                },
            )
        } else {
            Err(SocketError::BadSocket)
        }
    }

    /// The state once a connection was tried.
    pub open spec fn after_connect(self, id: u64, remote: Endpoint, success: bool) -> StateView {
        if success && self.sockets[id].kind == SocketKind::Udp {
            self.with_entry(id, SocketEntry { udp_remote: Some(remote), ..self.sockets[id] })
        } else {
            self
        }
    }

    /// Which port a socket is to listen on.
    pub open spec fn listen_plan(
        self,
        id: u64,
        stream_only: bool,
        has_memory: bool,
        port: u16,
    ) -> Result<(SocketKind, u16), SocketError> {
        if !self.sockets.contains_key(id) || (stream_only && self.sockets[id].kind
            != SocketKind::Tcp) {
            Err(SocketError::BadSocket)
        } else if !has_memory {
            Err(SocketError::BadOpcode)
        } else {
            Ok((self.sockets[id].kind, port))
        }
    }

    /// Whether a listening socket has a connection.
    pub open spec fn accepting(self, id: u64, listening: bool, open: bool) -> Result<
        (),
        SocketError,
    > {
        if !self.sockets.contains_key(id) || self.sockets[id].kind != SocketKind::Tcp {
            Err(SocketError::BadSocket)
        } else if listening {
            Err(SocketError::WouldBlock)
        } else if open {
            Ok(())
        } else {
            Err(SocketError::ConnectionRefused)
        }
    }

    /// What is sent where: the argument has the length above the socket's number.
    pub open spec fn send_plan(self, arg: u64, has_memory: bool) -> SendPlan {
        let id = (arg % 0x1_0000_0000) as u64;
        let len = arg / 0x1_0000_0000;
        if !self.sockets.contains_key(id) {
            SendPlan::Refuse { error: SocketError::BadSocket }
        } else if !has_memory {
            SendPlan::Nothing
        } else if !(1 <= len <= MAX_PAYLOAD) {
            SendPlan::Refuse { error: SocketError::BadOpcode }
        } else {
            SendPlan::Send {
                id,
                kind: self.sockets[id].kind,
                remote: self.sockets[id].udp_remote,
                len: len as usize,
            }
        }
    }

    /// The state, and the answer, once a client wants to receive.
    pub open spec fn receiving(self, id: u64, token: u64) -> (
        StateView,
        Result<(), SocketError>,
    ) {
        if !self.sockets.contains_key(id) {
            (self, Err(SocketError::BadSocket))
        } else if self.sockets[id].recv_pending is Some {
            (self, Err(SocketError::WouldBlock))
        } else {
            (
                self.with_entry(
                    id,
                    SocketEntry { recv_pending: Some(token), ..self.sockets[id] },
                ),
                Ok(()),
            )
        }
    }

    /// The state once a socket was closed.
    pub open spec fn closed(self, id: u64) -> StateView {
        if self.sockets.contains_key(id) {
            self.with_entry(
                id,
                SocketEntry { recv_pending: None, closing: true, ..self.sockets[id] },
            )
        } else {
            self
        }
    }

    /// Whether bytes that came in are for the socket's client: a datagram is so from
    /// the endpoint that the socket is connected to.
    pub open spec fn delivers(self, id: u64, len: usize, source: Option<Endpoint>) -> bool {
        len > 0 && (self.sockets[id].kind == SocketKind::Tcp || (source is Some
            && self.sockets[id].udp_remote == source))
    }

    /// The state once the first sockets of `answered` had their answers.
    pub open spec fn completed(self, answered: Seq<u64>) -> StateView {
        StateView {
            sockets: received(
                self.sockets,
                answered,
                if answered.len() < ROUND_LIMIT {
                    answered.len()
                } else {
                    ROUND_LIMIT as nat
                },
            ),
            ..self
        }
    }

    /// The numbers of a status.
    pub open spec fn status_fields(self, address: u32, magic: u32, dhcp: bool, gateway: u32) -> Seq<
        (u64, usize),
    > {
        seq![
            (address as u64, 4usize),
            (self.rx_total as u64, 4usize),
            (self.tx_ok as u64, 4usize),
            ((self.sockets.dom().len() as u32) as u64, 4usize),
            (magic as u64, 4usize),
            (self.tx_err as u64, 4usize),
            (if dhcp {
                1u64
            } else {
                0
            }, 4usize),
            (gateway as u64, 4usize),
            (MTU as u64, 4usize),
        ]
    }

    /// The state with a socket's entry replaced.
    pub open spec fn with_entry(self, id: u64, entry: SocketEntry) -> StateView {
        StateView { sockets: self.sockets.insert(id, entry), ..self }
    }
}

/// Whether a frame of `len` bytes is taken in.
pub open spec fn frame_fits(len: int) -> bool {
    MIN_FRAME <= len <= MAX_FRAME
}

/// What to ask the stack for to connect a socket.
#[derive(Clone, Copy, Debug, PartialEq, Eq, Structural)]
pub struct ConnectPlan {
    pub kind: SocketKind,
    pub remote: Endpoint,
    pub local_port: u16,
}

/// What to do about a request to send.
#[derive(Clone, Copy, Debug, PartialEq, Eq, Structural)]
pub enum SendPlan {
    /// Nothing was handed over: answer that nothing was sent.
    Nothing,
    Refuse { error: SocketError },
    /// Hand the payload to the stack: a datagram to its peer, if it has one.
    Send { id: u64, kind: SocketKind, remote: Option<Endpoint>, len: usize },
}

/// An address that is configured: four bytes.
pub open spec fn address_of(configured: Option<Seq<u8>>) -> Option<Seq<u8>> {
    match configured {
        Some(bytes) => if bytes.len() == 4 {
            Some(bytes)
        } else {
            None
        },
        None => None,
    }
}

/// An address that is configured.
pub fn configured_address(configured: Option<&[u8]>) -> (address: Option<[u8; 4]>)
    ensures
        ({
            let expected = address_of(
                match configured {
                    Some(bytes) => Some(bytes@),
                    None => None,
                },
            );
            match address {
                Some(address) => expected == Some(address@),
                None => expected is None,
            }
        }),
{
    match configured {
        Some(bytes) => {
            if bytes.len() != 4 {
                return None;
            }
            let address: [u8; 4] = [bytes[0], bytes[1], bytes[2], bytes[3]];
            assert(address@ =~= bytes@);
            Some(address)
        },
        None => None,
    }
}

/// The address that this node starts with: none where it asks for one, else the one
/// that is configured, else one made of its hardware address.
pub open spec fn own_address(dhcp: bool, configured: Option<Seq<u8>>, mac: [u8; 6]) -> Seq<u8> {
    if dhcp {
        seq![0u8, 0u8, 0u8, 0u8]
    } else {
        match address_of(configured) {
            Some(address) => address,
            None => seq![10u8, 0u8, 0u8, (100 + mac[5] % 100) as u8],
        }
    }
}

/// The address to start with: none with DHCP, else the configured one, else
/// one made from the last byte of the hardware address.
pub fn local_address(dhcp: bool, configured: Option<&[u8]>, mac: [u8; 6]) -> (address: [u8; 4])
    ensures
        address@ == own_address(
            dhcp,
            match configured {
                Some(bytes) => Some(bytes@),
                None => None,
            },
            mac,
        ),
{
    if dhcp {
        let none: [u8; 4] = [0, 0, 0, 0];
        assert(none@ =~= seq![0u8, 0u8, 0u8, 0u8]);
        return none;
    }
    match configured_address(configured) {
        Some(address) => address,
        None => {
            let made: [u8; 4] = [10, 0, 0, 100 + mac[5] % 100];
            assert(made@ =~= seq![10u8, 0u8, 0u8, (100 + mac[5] % 100) as u8]);
            made
        },
    }
}

/// An address as a number, most significant byte first.
pub fn address_number(address: [u8; 4]) -> (number: u32)
    ensures
        number == wire::be_value(address@),
{
    proof {
        wire::lemma_byte_capacities();
    }
    assert(address@.subrange(0, 4) =~= address@);
    wire::read_be(address.as_slice(), 0, 4) as u32
}

impl TcpipState {
    pub fn new() -> (state: TcpipState)
        ensures
            state@.wf(),
            state@ == (StateView {
                sockets: Map::empty(),
                next_sock_id: 1,
                next_ephemeral: FIRST_EPHEMERAL_PORT,
                rx_total: 0,
                tx_ok: 0,
                tx_err: 0,
            }),
    {
        TcpipState {
            sockets: BTreeMap::new(),
            next_sock_id: 1,
            next_ephemeral: FIRST_EPHEMERAL_PORT,
            rx_total: 0,
            tx_ok: 0,
            tx_err: 0,
        }
    }

    /// Take a number for a socket.
    pub fn alloc_sock_id(&mut self) -> (id: u64)
        requires
            old(self)@.wf(),
        ensures
            final(self)@.wf(),
            id == old(self)@.next_sock_id,
            final(self)@ == (StateView { next_sock_id: id_after(id), ..old(self)@ }),
    {
        let id: u64 = self.next_sock_id;
        self.next_sock_id = if id == u64::MAX {
            1
        } else {
            id + 1
        };
        id
    }

    /// Take a port for an outgoing connection.
    pub fn alloc_ephemeral_port(&mut self) -> (port: u16)
        requires
            old(self)@.wf(),
        ensures
            final(self)@.wf(),
            port == old(self)@.next_ephemeral,
            final(self)@ == (StateView { next_ephemeral: port_after(port), ..old(self)@ }),
    {
        let port: u16 = self.next_ephemeral;
        self.next_ephemeral = if port == u16::MAX {
            FIRST_EPHEMERAL_PORT
        } else {
            port + 1
        };
        port
    }

    /// Open a socket, if the kind is one that there is and there is room.
    pub fn open(&mut self, kind: Option<SocketKind>, max_sockets: usize) -> (result: Result<
        u64,
        SocketError,
    >)
        requires
            old(self)@.wf(),
        ensures
            final(self)@.wf(),
            (final(self)@, result) == old(self)@.opened(kind, max_sockets),
    {
        match kind {
            None => Err(SocketError::BadDomain),
            Some(kind) => {
                if self.sockets.len() >= max_sockets {
                    return Err(SocketError::TooManySockets);
                }
                let id: u64 = self.alloc_sock_id();
                self.sockets.insert(
                    id,
                    SocketEntry { kind, udp_remote: None, recv_pending: None, closing: false },
                );
                Ok(id)
            },
        }
    }

    fn entry(&self, id: u64) -> (entry: Option<SocketEntry>)
        ensures
            entry == if self@.sockets.contains_key(id) {
                Some(self@.sockets[id])
            } else {
                None::<SocketEntry>
            },
    {
        match self.sockets.get(&id) {
            Some(entry) => Some(*entry),
            None => None,
        }
    }

    /// What to ask the stack for to connect a socket, given the address and
    /// port that the client handed over: four bytes and two, the port with its
    /// low byte first. A port is taken even if there is no such socket.
    pub fn connect(&mut self, id: u64, target: Option<&[u8]>) -> (plan: Result<
        ConnectPlan,
        SocketError,
    >)
        requires
            old(self)@.wf(),
            target matches Some(bytes) ==> bytes@.len() >= 6,
        ensures
            final(self)@.wf(),
            match target {
                None => plan == Err::<ConnectPlan, SocketError>(SocketError::BadOpcode)
                    && final(self)@ == old(self)@,
                Some(bytes) => {
                    &&& final(self)@ == (StateView {
                        next_ephemeral: port_after(old(self)@.next_ephemeral),
                        ..old(self)@
                    })
                    &&& plan == old(self)@.connect_plan(id, bytes@)
                },
            },
    {
        match target {
            None => Err(SocketError::BadOpcode),
            Some(bytes) => {
                let address: u32 = wire::read_be(bytes, 0, 4) as u32;
                let port: u16 = wire::read_le(bytes, 4, 2) as u16;
                let local_port: u16 = self.alloc_ephemeral_port();
                match self.entry(id) {
                    None => Err(SocketError::BadSocket),
                    Some(entry) => Ok(
                        ConnectPlan {
                            kind: entry.kind,
                            remote: Endpoint { address, port },
                            local_port,
                        },
                    ),
                }
            },
        }
    }

    /// The stack connected a socket, or did not. A datagram socket is only
    /// bound; its peer is remembered here.
    pub fn connected(&mut self, id: u64, remote: Endpoint, success: bool) -> (result: Result<
        (),
        SocketError,
    >)
        requires
            old(self)@.wf(),
            old(self)@.sockets.contains_key(id),
        ensures
            final(self)@.wf(),
            result == if success {
                Ok::<(), SocketError>(())
            } else {
                Err(SocketError::ConnectionRefused)
            },
            final(self)@ == old(self)@.after_connect(id, remote, success),
    {
        if !success {
            return Err(SocketError::ConnectionRefused);
        }
        match self.entry(id) {
            Some(entry) => {
                if entry.kind == SocketKind::Udp {
                    self.sockets.insert(id, SocketEntry { udp_remote: Some(remote), ..entry });
                }
            },
            None => {},
        }
        Ok(())
    }

    /// The port to bind or listen on. Only a stream socket listens.
    pub fn listen_port(&self, id: u64, stream_only: bool, has_memory: bool, port: u16) -> (plan: Result<
        (SocketKind, u16),
        SocketError,
    >)
        ensures
            plan == self@.listen_plan(id, stream_only, has_memory, port),
    {
        match self.entry(id) {
            None => Err(SocketError::BadSocket),
            Some(entry) => {
                if stream_only && entry.kind != SocketKind::Tcp {
                    return Err(SocketError::BadSocket);
                }
                if !has_memory {
                    return Err(SocketError::BadOpcode);
                }
                Ok((entry.kind, port))
            },
        }
    }

    /// Whether a socket accepted a connection, given what the stack says: a
    /// listening socket becomes the connection itself.
    pub fn accept(&self, id: u64, listening: bool, open: bool) -> (result: Result<(), SocketError>)
        ensures
            result == self@.accepting(id, listening, open),
    {
        match self.entry(id) {
            None => Err(SocketError::BadSocket),
            Some(entry) => {
                if entry.kind != SocketKind::Tcp {
                    Err(SocketError::BadSocket)
                } else if listening {
                    Err(SocketError::WouldBlock)
                } else if open {
                    Ok(())
                } else {
                    Err(SocketError::ConnectionRefused)
                }
            },
        }
    }

    /// What to do about a request to send. Its argument holds the socket's
    /// number in the low half and the payload's length in the high half.
    pub fn send(&self, arg: u64, has_memory: bool) -> (plan: SendPlan)
        ensures
            plan == self@.send_plan(arg, has_memory),
    {
        let id: u64 = arg % 0x1_0000_0000;
        let len: u64 = arg / 0x1_0000_0000;
        match self.entry(id) {
            None => SendPlan::Refuse { error: SocketError::BadSocket },
            Some(entry) => {
                if !has_memory {
                    return SendPlan::Nothing;
                }
                if len < 1 || len > MAX_PAYLOAD as u64 {
                    return SendPlan::Refuse { error: SocketError::BadOpcode };
                }
                SendPlan::Send {
                    id,
                    kind: entry.kind,
                    remote: entry.udp_remote,
                    len: len as usize,
                }
            },
        }
    }

    /// The stack took some bytes of a payload, or refused it: the answer.
    pub fn sent(&mut self, kind: SocketKind, taken: Option<usize>) -> (result: Result<
        usize,
        SocketError,
    >)
        requires
            old(self)@.wf(),
        ensures
            final(self)@.wf(),
            (final(self)@, result) == old(self)@.after_send(kind, taken),
    {
        match taken {
            Some(len) => {
                if len > 0 {
                    self.tx_ok = self.tx_ok.wrapping_add(1);
                } else {
                    self.tx_err = self.tx_err.wrapping_add(1);
                }
                Ok(len)
            },
            None => {
                self.tx_err = self.tx_err.wrapping_add(1);
                match kind {
                    SocketKind::Tcp => Err(SocketError::WouldBlock),
                    SocketKind::Udp => Err(SocketError::NotConnected),
                }
            },
        }
    }

    /// Let a receive wait for data. One may wait at each socket.
    pub fn recv(&mut self, id: u64, token: u64) -> (result: Result<(), SocketError>)
        requires
            old(self)@.wf(),
        ensures
            final(self)@.wf(),
            (final(self)@, result) == old(self)@.receiving(id, token),
    {
        match self.entry(id) {
            None => Err(SocketError::BadSocket),
            Some(entry) => {
                if entry.recv_pending.is_some() {
                    return Err(SocketError::WouldBlock);
                }
                self.sockets.insert(id, SocketEntry { recv_pending: Some(token), ..entry });
                Ok(())
            },
        }
    }

    /// Close a socket: what it has yet to send is sent first. The receive that
    /// waits, if any, is to be answered with nothing. An unknown socket is
    /// closed already.
    pub fn close(&mut self, id: u64) -> (closed: Option<(SocketKind, Option<u64>)>)
        requires
            old(self)@.wf(),
        ensures
            final(self)@.wf(),
            closed == if old(self)@.sockets.contains_key(id) {
                Some((old(self)@.sockets[id].kind, old(self)@.sockets[id].recv_pending))
            } else {
                None::<(SocketKind, Option<u64>)>
            },
            final(self)@ == old(self)@.closed(id),
    {
        match self.entry(id) {
            None => None,
            Some(entry) => {
                self.sockets.insert(
                    id,
                    SocketEntry { recv_pending: None, closing: true, ..entry },
                );
                Some((entry.kind, entry.recv_pending))
            },
        }
    }

    /// Whether a frame is handed to the stack, and counted.
    pub fn frame(&mut self, has_memory: bool, len: usize) -> (accepted: bool)
        requires
            old(self)@.wf(),
        ensures
            final(self)@.wf(),
            accepted == (has_memory && frame_fits(len as int)),
            final(self)@ == if accepted {
                StateView { rx_total: old(self)@.rx_total.wrapping_add(1), ..old(self)@ }
            } else {
                old(self)@
            },
    {
        if has_memory && len >= MIN_FRAME && len <= MAX_FRAME {
            self.rx_total = self.rx_total.wrapping_add(1);
            true
        } else {
            false
        }
    }
}

/// The sockets to remove of those that the stack is done with: the first few
/// that were closed.
pub open spec fn sweepable(sockets: Map<u64, SocketEntry>, finished: Seq<u64>) -> Seq<u64>
    decreases finished.len(),
{
    if finished.len() == 0 {
        Seq::empty()
    } else {
        let before = sweepable(sockets, finished.drop_last());
        let id = finished.last();
        if sockets.contains_key(id) && sockets[id].closing && before.len() < ROUND_LIMIT {
            before.push(id)
        } else {
            before
        }
    }
}

/// The sockets that stay when some go.
pub open spec fn without(sockets: Map<u64, SocketEntry>, gone: Seq<u64>) -> Map<u64, SocketEntry>
    decreases gone.len(),
{
    if gone.len() == 0 {
        sockets
    } else {
        without(sockets, gone.drop_last()).remove(gone.last())
    }
}

/// The sockets with the first few of some receives completed.
pub open spec fn received(
    sockets: Map<u64, SocketEntry>,
    answered: Seq<u64>,
    count: nat,
) -> Map<u64, SocketEntry>
    decreases count,
{
    if count == 0 {
        sockets
    } else {
        let before = received(sockets, answered, (count - 1) as nat);
        let id = answered[count - 1];
        if before.contains_key(id) {
            before.insert(id, SocketEntry { recv_pending: None, ..before[id] })
        } else {
            before
        }
    }
}

proof fn lemma_without(sockets: Map<u64, SocketEntry>, gone: Seq<u64>)
    requires
        sockets.dom().finite(),
    ensures
        without(sockets, gone).dom().finite(),
        forall|id: u64| #[trigger]
            without(sockets, gone).contains_key(id) ==> sockets.contains_key(id),
    decreases gone.len(),
{
    if gone.len() > 0 {
        lemma_without(sockets, gone.drop_last());
    }
}

proof fn lemma_sweepable(sockets: Map<u64, SocketEntry>, finished: Seq<u64>)
    ensures
        sweepable(sockets, finished).len() <= ROUND_LIMIT,
        forall|i: int|
            0 <= i < sweepable(sockets, finished).len() ==> sockets.contains_key(
                #[trigger] sweepable(sockets, finished)[i],
            ) && sockets[sweepable(sockets, finished)[i]].closing,
    decreases finished.len(),
{
    if finished.len() > 0 {
        lemma_sweepable(sockets, finished.drop_last());
    }
}

impl TcpipState {
    /// Remove sockets that were closed and that the stack is done with, given
    /// the ones that it is done with: the ones that go.
    pub fn sweep(&mut self, finished: &[u64]) -> (gone: Vec<u64>)
        requires
            old(self)@.wf(),
        ensures
            final(self)@.wf(),
            gone@ == sweepable(old(self)@.sockets, finished@),
            final(self)@ == (StateView {
                sockets: without(old(self)@.sockets, gone@),
                ..old(self)@
            }),
    {
        let ghost before = self@;
        let mut gone: Vec<u64> = Vec::new();
        let mut index: usize = 0;
        assert(finished@.take(0) =~= Seq::<u64>::empty());
        while index < finished.len()
            invariant
                index <= finished@.len(),
                self@ == before,
                gone@ == sweepable(before.sockets, finished@.take(index as int)),
            decreases finished@.len() - index,
        {
            let id: u64 = finished[index];
            assert(finished@.take(index + 1).drop_last() =~= finished@.take(index as int));
            assert(finished@.take(index + 1).last() == id);
            match self.entry(id) {
                Some(entry) => {
                    if entry.closing && gone.len() < ROUND_LIMIT {
                        gone.push(id);
                    }
                },
                None => {},
            }
            index += 1;
        }
        assert(finished@.take(index as int) =~= finished@);
        let mut done: usize = 0;
        assert(gone@.take(0) =~= Seq::<u64>::empty());
        while done < gone.len()
            invariant
                done <= gone@.len(),
                self@ == (StateView {
                    sockets: without(before.sockets, gone@.take(done as int)),
                    ..before
                }),
            decreases gone@.len() - done,
        {
            assert(gone@.take(done + 1).drop_last() =~= gone@.take(done as int));
            assert(gone@.take(done + 1).last() == gone@[done as int]);
            let id: u64 = gone[done];
            self.sockets.remove(&id);
            done += 1;
        }
        assert(gone@.take(done as int) =~= gone@);
        proof {
            lemma_without(before.sockets, gone@);
        }
        gone
    }

    /// Whether what was received goes to the client that waits: some bytes,
    /// and for a datagram from the socket's peer.
    pub fn deliverable(&self, id: u64, len: usize, source: Option<Endpoint>) -> (deliver: bool)
        requires
            self@.sockets.contains_key(id),
        ensures
            deliver == self@.delivers(id, len, source),
    {
        match self.entry(id) {
            None => false,
            Some(entry) => {
                let expected: bool = match entry.kind {
                    SocketKind::Tcp => true,
                    SocketKind::Udp => match (entry.udp_remote, source) {
                        (Some(remote), Some(source)) => remote == source,
                        _ => false,
                    },
                };
                len > 0 && expected
            },
        }
    }

    /// Receives were answered: they no longer wait, as far as one round goes.
    pub fn complete(&mut self, answered: &[u64])
        requires
            old(self)@.wf(),
        ensures
            final(self)@.wf(),
            final(self)@ == old(self)@.completed(answered@),
    {
        let ghost before = self@;
        let mut index: usize = 0;
        while index < answered.len() && index < ROUND_LIMIT
            invariant
                index <= answered@.len(),
                index <= ROUND_LIMIT,
                self@.wf(),
                self@ == (StateView {
                    sockets: received(before.sockets, answered@, index as nat),
                    ..before
                }),
            decreases ROUND_LIMIT - index,
        {
            let id: u64 = answered[index];
            match self.entry(id) {
                Some(entry) => {
                    self.sockets.insert(id, SocketEntry { recv_pending: None, ..entry });
                },
                None => {},
            }
            index += 1;
        }
    }

    /// The service's counters, as a client reads them.
    pub fn status_image(&self, address: u32, magic: u32, dhcp: bool, gateway: u32) -> (bytes: Vec<
        u8,
    >)
        requires
            self@.wf(),
        ensures
            bytes@ == wire::coded(self@.status_fields(address, magic, dhcp, gateway)),
    {
        let mut bytes: Vec<u8> = Vec::new();
        let dhcp_word: u64 = if dhcp {
            1
        } else {
            0
        };
        let fields: [(u64, usize); 9] = [
            (address as u64, 4usize),
            (self.rx_total as u64, 4usize),
            (self.tx_ok as u64, 4usize),
            ((self.sockets.len() as u32) as u64, 4usize),
            (magic as u64, 4usize),
            (self.tx_err as u64, 4usize),
            (dhcp_word, 4usize),
            (gateway as u64, 4usize),
            (MTU as u64, 4usize),
        ];
        wire::push_fields(&mut bytes, fields.as_slice());
        proof {
            assert(fields@ =~= seq![
                (address as u64, 4usize),
                (self@.rx_total as u64, 4usize),
                (self@.tx_ok as u64, 4usize),
                ((self@.sockets.dom().len() as u32) as u64, 4usize),
                (magic as u64, 4usize),
                (self@.tx_err as u64, 4usize),
                (if dhcp {
                    1u64
                } else {
                    0
                }, 4usize),
                (gateway as u64, 4usize),
                (MTU as u64, 4usize),
            ]);
            assert(bytes@ =~= wire::coded(fields@));
        }
        bytes
    }
}

/// A port for outgoing connections is followed by another one of the range,
/// and comes up again only after all others did.
pub proof fn law_ports_come_in_turn(port: u16, steps: nat)
    requires
        port >= FIRST_EPHEMERAL_PORT,
        0 < steps < 16_384,
    ensures
        ports_later(port, steps) >= FIRST_EPHEMERAL_PORT,
        ports_later(port, steps) != port,
{
    lemma_ports_later(port, steps);
}

/// The port `steps` places behind `port`.
pub open spec fn ports_later(port: u16, steps: nat) -> u16
    decreases steps,
{
    if steps == 0 {
        port
    } else {
        port_after(ports_later(port, (steps - 1) as nat))
    }
}

proof fn lemma_ports_later(port: u16, steps: nat)
    requires
        port >= FIRST_EPHEMERAL_PORT,
        steps < 16_384,
    ensures
        ports_later(port, steps) == if port + steps <= u16::MAX {
            port + steps
        } else {
            port + steps - 16_384
        },
    decreases steps,
{
    if steps > 0 {
        lemma_ports_later(port, (steps - 1) as nat);
    }
}

/// Only sockets that were closed are removed, a few at a time.
pub proof fn law_only_closed_sockets_are_removed(
    sockets: Map<u64, SocketEntry>,
    finished: Seq<u64>,
    id: u64,
)
    requires
        sockets.contains_key(id),
        !sockets[id].closing,
    ensures
        without(sockets, sweepable(sockets, finished)).contains_key(id),
        without(sockets, sweepable(sockets, finished))[id] == sockets[id],
        sweepable(sockets, finished).len() <= ROUND_LIMIT,
{
    lemma_sweepable(sockets, finished);
    lemma_kept(sockets, sweepable(sockets, finished), id);
}

proof fn lemma_kept(sockets: Map<u64, SocketEntry>, gone: Seq<u64>, id: u64)
    requires
        sockets.contains_key(id),
        forall|i: int| 0 <= i < gone.len() ==> #[trigger] gone[i] != id,
    ensures
        without(sockets, gone).contains_key(id),
        without(sockets, gone)[id] == sockets[id],
    decreases gone.len(),
{
    if gone.len() > 0 {
        assert(gone[gone.len() - 1] != id);
        lemma_kept(sockets, gone.drop_last(), id);
    }
}

/// What the stack's DHCP client reports.
#[derive(Clone, Copy, Debug, PartialEq, Eq, Structural)]
pub enum DhcpUpdate {
    Unchanged,
    Configured { address: u32, router: Option<u32> },
    Deconfigured,
}

/// What to do to the interface's addresses and its default route.
#[derive(Clone, Copy, Debug, PartialEq, Eq, Structural)]
pub enum InterfaceChange {
    Keep,
    /// Replace the address; set the default route, or remove it.
    Replace { address: u32, router: Option<u32> },
    /// Remove the address and the default route.
    Clear,
}

/// The address after an update, and what to do to the interface.
pub open spec fn configured_by(local: u32, update: DhcpUpdate) -> (u32, InterfaceChange) {
    match update {
        DhcpUpdate::Unchanged => (local, InterfaceChange::Keep),
        DhcpUpdate::Configured { address, router } => (
            address,
            InterfaceChange::Replace { address, router },
        ),
        DhcpUpdate::Deconfigured => (0u32, InterfaceChange::Clear),
    }
}

/// The service's address and what to do to the interface after a report.
pub fn apply_dhcp(local: u32, update: DhcpUpdate) -> (result: (u32, InterfaceChange))
    ensures
        result == configured_by(local, update),
{
    match update {
        DhcpUpdate::Unchanged => (local, InterfaceChange::Keep),
        DhcpUpdate::Configured { address, router } => (
            address,
            InterfaceChange::Replace { address, router },
        ),
        DhcpUpdate::Deconfigured => (0, InterfaceChange::Clear),
    }
}

/// How far the stack's clock moves on, and whether its timer is set again.
pub open spec fn ticked(fired: bool, timed_out: bool, armed: bool) -> (u64, bool) {
    if fired || timed_out {
        (CLOCK_TICK_MS, !armed)
    } else {
        (0u64, false)
    }
}

/// By how much the stack's clock advances, and whether its timer is to be set
/// again. Requests that wake the service do not advance the clock.
pub fn clock_step(fired: bool, timed_out: bool, armed: bool) -> (step: (u64, bool))
    ensures
        step == ticked(fired, timed_out, armed),
{
    if fired || timed_out {
        (CLOCK_TICK_MS, !armed)
    } else {
        (0, false)
    }
}

/// The numbers of the requests.
#[derive(Clone, Copy, Debug, PartialEq, Eq)]
pub struct Opcodes {
    pub socket: u32,
    pub connect: u32,
    pub bind: u32,
    pub listen: u32,
    pub accept: u32,
    pub send: u32,
    pub receive: u32,
    pub close: u32,
    pub frame: u32,
    pub status: u32,
}

/// A request by its kind.
#[derive(Clone, Copy, Debug, PartialEq, Eq, Structural)]
pub enum Operation {
    Open,
    Connect,
    Bind,
    Listen,
    Accept,
    Send,
    Receive,
    Close,
    Frame,
    Status,
    Unknown,
}

/// The kind of request that a number stands for.
pub open spec fn operation_for(codes: Opcodes, opcode: u32) -> Operation {
    if opcode == codes.socket {
        Operation::Open
    } else if opcode == codes.connect {
        Operation::Connect
    } else if opcode == codes.bind {
        Operation::Bind
    } else if opcode == codes.listen {
        Operation::Listen
    } else if opcode == codes.accept {
        Operation::Accept
    } else if opcode == codes.send {
        Operation::Send
    } else if opcode == codes.receive {
        Operation::Receive
    } else if opcode == codes.close {
        Operation::Close
    } else if opcode == codes.frame {
        Operation::Frame
    } else if opcode == codes.status {
        Operation::Status
    } else {
        Operation::Unknown
    }
}

/// Tell a request's kind by its number.
pub fn operation_of(codes: &Opcodes, opcode: u32) -> (operation: Operation)
    ensures
        operation == operation_for(*codes, opcode),
{
    if opcode == codes.socket {
        Operation::Open
    } else if opcode == codes.connect {
        Operation::Connect
    } else if opcode == codes.bind {
        Operation::Bind
    } else if opcode == codes.listen {
        Operation::Listen
    } else if opcode == codes.accept {
        Operation::Accept
    } else if opcode == codes.send {
        Operation::Send
    } else if opcode == codes.receive {
        Operation::Receive
    } else if opcode == codes.close {
        Operation::Close
    } else if opcode == codes.frame {
        Operation::Frame
    } else if opcode == codes.status {
        Operation::Status
    } else {
        Operation::Unknown
    }
}

/// A socket that was opened is there under its number, apart from all others, and
/// can be sent on; only a missing kind or a full table refuses one.
pub proof fn law_opened_socket_can_be_used(
    state: StateView,
    kind: Option<SocketKind>,
    max_sockets: usize,
    other: u64,
    len: int,
)
    requires
        state.wf(),
        1 <= len <= 4096,
    ensures
        ({
            let (after, result) = state.opened(kind, max_sockets);
            &&& kind is None ==> result == Err::<u64, SocketError>(SocketError::BadDomain)
            &&& kind is Some && state.sockets.dom().len() >= max_sockets ==> result == Err::<
                u64,
                SocketError,
            >(SocketError::TooManySockets)
            &&& result is Err ==> after == state
            &&& kind is Some && state.sockets.dom().len() < max_sockets ==> {
                let id = result->Ok_0;
                &&& result is Ok
                &&& id != 0
                &&& after.wf()
                &&& after.sockets.contains_key(id)
                &&& after.sockets[id].kind == kind->0
                &&& after.sockets[id].recv_pending is None && after.sockets[id].udp_remote is None
                    && !after.sockets[id].closing
                &&& id < u64::MAX ==> after.next_sock_id == id + 1
                &&& id == u64::MAX ==> after.next_sock_id == 1
                &&& other != id ==> (after.sockets.contains_key(other)
                    <==> state.sockets.contains_key(other)) && (state.sockets.contains_key(other)
                    ==> after.sockets[other] == state.sockets[other])
                &&& id <= u32::MAX ==> after.send_plan((len * 0x1_0000_0000 + id) as u64, true) == (
                SendPlan::Send { id, kind: kind->0, remote: None, len: len as usize })
            }
        }),
{
    let (after, result) = state.opened(kind, max_sockets);
    let id = state.next_sock_id;
    if id <= u32::MAX {
        let arg = len * 0x1_0000_0000 + id;
        assert(arg <= u64::MAX);
        assert(arg % 0x1_0000_0000 == id);
        assert(arg / 0x1_0000_0000 == len);
    }
}

/// What is sent is what was asked for: its socket in the low half of the argument
/// and its length in the high half, from one byte to 4096.
pub proof fn law_sends_by_their_argument(state: StateView, id: u64, len: u64, has_memory: bool)
    requires
        id <= u32::MAX,
        len <= u32::MAX,
    ensures
        ({
            let plan = state.send_plan((len * 0x1_0000_0000 + id) as u64, has_memory);
            &&& !state.sockets.contains_key(id) <==> plan == (SendPlan::Refuse {
                error: SocketError::BadSocket,
            })
            &&& state.sockets.contains_key(id) ==> (plan == SendPlan::Nothing <==> !has_memory)
            &&& state.sockets.contains_key(id) && has_memory ==> (plan == (SendPlan::Refuse {
                error: SocketError::BadOpcode,
            }) <==> len == 0 || len > 4096)
            &&& plan is Send ==> plan->id == id && plan->len == len && plan->kind
                == state.sockets[id].kind && plan->remote == state.sockets[id].udp_remote
        }),
{
    let arg = len * 0x1_0000_0000 + id;
    assert(arg <= u64::MAX);
    assert(arg % 0x1_0000_0000 == id as int);
    assert(arg / 0x1_0000_0000 == len as int);
}

/// A connection goes to the address in the target's first four bytes, the highest
/// first, and to the port in the next two, the lowest first, from the next port
/// for outgoing connections.
pub proof fn law_connections_by_their_target(state: StateView, id: u64, target: Seq<u8>)
    requires
        state.wf(),
        target.len() >= 6,
    ensures
        state.connect_plan(id, target) is Ok <==> state.sockets.contains_key(id),
        state.connect_plan(id, target) matches Ok(plan) ==> {
            &&& plan.kind == state.sockets[id].kind
            &&& plan.local_port == state.next_ephemeral
            &&& plan.local_port >= 49152
            &&& plan.remote.address == target[0] * 0x100_0000 + target[1] * 0x1_0000 + target[2]
                * 0x100 + target[3]
            &&& plan.remote.port == target[5] * 0x100 + target[4]
        },
{
    reveal_with_fuel(wire::be_value, 5);
    reveal_with_fuel(wire::le_value, 3);
    let high = target.subrange(0, 4);
    assert(high.last() == target[3]);
    assert(high.drop_last().last() == target[2]);
    assert(high.drop_last().drop_last().last() == target[1]);
    assert(high.drop_last().drop_last().drop_last().last() == target[0]);
    assert(high.drop_last().drop_last().drop_last().drop_last().len() == 0);
    let low = target.subrange(4, 6);
    assert(low[0] == target[4]);
    assert(low.skip(1)[0] == target[5]);
    assert(low.drop_first()[0] == target[5]);
}

/// A datagram socket remembers where it was connected to, and then takes in what
/// comes from there and nothing else; a connection that failed changes nothing.
pub proof fn law_datagrams_come_from_the_peer(
    state: StateView,
    id: u64,
    remote: Endpoint,
    source: Endpoint,
    len: usize,
)
    requires
        state.sockets.contains_key(id),
    ensures
        state.after_connect(id, remote, false) == state,
        state.sockets[id].kind == SocketKind::Tcp ==> state.after_connect(id, remote, true)
            == state && state.delivers(id, len, Some(source)) == (len > 0),
        state.sockets[id].kind == SocketKind::Udp ==> {
            let after = state.after_connect(id, remote, true);
            &&& after.delivers(id, len, Some(source)) <==> len > 0 && source == remote
            &&& !after.delivers(id, len, None)
            &&& after.sockets[id].udp_remote == Some(remote)
        },
{
}

/// One client receives from a socket at a time. Its wait ends when it is answered,
/// or when the socket is closed, which then is not received from.
pub proof fn law_one_client_receives(state: StateView, id: u64, first: u64, second: u64)
    requires
        state.wf(),
        state.sockets.contains_key(id),
        state.sockets[id].recv_pending is None,
    ensures
        ({
            let (waiting, result) = state.receiving(id, first);
            &&& result is Ok
            &&& waiting.sockets[id].recv_pending == Some(first)
            &&& waiting.receiving(id, second) == (waiting, Err::<(), SocketError>(
                SocketError::WouldBlock,
            ))
            &&& waiting.completed(seq![id]).sockets[id].recv_pending is None
            &&& waiting.completed(seq![id]).receiving(id, second).1 is Ok
            &&& waiting.closed(id).sockets[id].recv_pending is None
            &&& waiting.closed(id).sockets[id].closing
            &&& waiting.closed(id).sockets[id].kind == state.sockets[id].kind
            &&& waiting.closed(id).sockets.dom() == state.sockets.dom()
        }),
{
    let (waiting, result) = state.receiving(id, first);
    reveal_with_fuel(received, 2);
    assert(waiting.sockets.dom() =~= state.sockets.dom());
    assert(waiting.closed(id).sockets.dom() =~= state.sockets.dom());
}

/// A connection is accepted only on a stream socket that has one, and a socket
/// listens on the port that was asked for.
pub proof fn law_listening_is_for_open_sockets(
    state: StateView,
    id: u64,
    listening: bool,
    open: bool,
    stream_only: bool,
    port: u16,
)
    ensures
        state.accepting(id, listening, open) is Ok <==> state.sockets.contains_key(id)
            && state.sockets[id].kind == SocketKind::Tcp && !listening && open,
        state.listen_plan(id, stream_only, true, port) is Ok <==> state.sockets.contains_key(id)
            && (stream_only ==> state.sockets[id].kind == SocketKind::Tcp),
        state.listen_plan(id, stream_only, true, port) matches Ok(plan) ==> plan.1 == port
            && plan.0 == state.sockets[id].kind,
        state.listen_plan(id, stream_only, false, port) is Err,
        state.accepting(id, true, open) == Err::<(), SocketError>(SocketError::WouldBlock)
            <==> state.sockets.contains_key(id) && state.sockets[id].kind == SocketKind::Tcp,
{
}

/// The address is none, the configured one, or from 10.0.0.100 to 10.0.0.199.
pub proof fn law_address_is_chosen(configured: Option<Seq<u8>>, mac: [u8; 6])
    ensures
        own_address(true, configured, mac) == seq![0u8, 0u8, 0u8, 0u8],
        configured is Some && configured->0.len() == 4 ==> own_address(false, configured, mac)
            == configured->0,
        configured is None || configured->0.len() != 4 ==> {
            let address = own_address(false, configured, mac);
            &&& address.len() == 4
            &&& address[0] == 10 && address[1] == 0 && address[2] == 0
            &&& 100 <= address[3] <= 199
            &&& (address[3] - 100) % 100 == mac[5] as int % 100
        },
{
}

/// A status has nine numbers of four bytes.
pub proof fn law_status_is_in_order(
    state: StateView,
    address: u32,
    magic: u32,
    dhcp: bool,
    gateway: u32,
)
    ensures
        ({
            let numbers = state.status_fields(address, magic, dhcp, gateway);
            &&& numbers.len() == 9
            &&& forall|i: int| 0 <= i < 9 ==> (#[trigger] numbers[i]).1 == 4
            &&& numbers[0].0 == address
            &&& numbers[1].0 == state.rx_total
            &&& numbers[2].0 == state.tx_ok
            &&& state.sockets.dom().len() <= u32::MAX ==> numbers[3].0
                == state.sockets.dom().len()
            &&& numbers[4].0 == magic
            &&& numbers[5].0 == state.tx_err
            &&& numbers[6].0 == 1 <==> dhcp
            &&& numbers[6].0 == 0 <==> !dhcp
            &&& numbers[7].0 == gateway
            &&& numbers[8].0 == 1500
        }),
{
}

/// A request is carried out by its own number alone.
pub proof fn law_operations_by_their_number(codes: Opcodes, opcode: u32)
    ensures
        match operation_for(codes, opcode) {
            Operation::Open => opcode == codes.socket,
            Operation::Connect => opcode == codes.connect,
            Operation::Bind => opcode == codes.bind,
            Operation::Listen => opcode == codes.listen,
            Operation::Accept => opcode == codes.accept,
            Operation::Send => opcode == codes.send,
            Operation::Receive => opcode == codes.receive,
            Operation::Close => opcode == codes.close,
            Operation::Frame => opcode == codes.frame,
            Operation::Status => opcode == codes.status,
            Operation::Unknown => opcode != codes.socket && opcode != codes.connect && opcode
                != codes.bind && opcode != codes.listen && opcode != codes.accept && opcode
                != codes.send && opcode != codes.receive && opcode != codes.close && opcode
                != codes.frame && opcode != codes.status,
        },
{
}

/// Bytes that the stack took are counted as sent, all else as not sent; a stream that
/// took none is tried again, a datagram socket has nowhere to send to.
pub proof fn law_sends_are_counted(state: StateView, kind: SocketKind, len: usize)
    requires
        state.tx_ok < u32::MAX,
        state.tx_err < u32::MAX,
    ensures
        len > 0 ==> state.after_send(kind, Some(len)).0 == (StateView {
            tx_ok: (state.tx_ok + 1) as u32,
            ..state
        }),
        state.after_send(kind, Some(0)).0 == (StateView {
            tx_err: (state.tx_err + 1) as u32,
            ..state
        }),
        state.after_send(kind, None).0 == (StateView {
            tx_err: (state.tx_err + 1) as u32,
            ..state
        }),
        state.after_send(kind, Some(len)).1 == Ok::<usize, SocketError>(len),
        state.after_send(SocketKind::Tcp, None).1 == Err::<usize, SocketError>(
            SocketError::WouldBlock,
        ),
        state.after_send(SocketKind::Udp, None).1 == Err::<usize, SocketError>(
            SocketError::NotConnected,
        ),
{
}

/// A frame is taken in from 14 to 4096 bytes; the clock moves by 100 milliseconds when
/// its timer fired; and an address comes and goes with its lease.
pub proof fn law_frames_ticks_and_leases(
    len: int,
    armed: bool,
    local: u32,
    address: u32,
    router: Option<u32>,
)
    ensures
        frame_fits(len) <==> 14 <= len <= 4096,
        ticked(false, false, armed) == (0u64, false),
        ticked(true, false, armed) == (100u64, !armed),
        ticked(false, true, armed) == (100u64, !armed),
        configured_by(local, DhcpUpdate::Unchanged) == (local, InterfaceChange::Keep),
        configured_by(local, DhcpUpdate::Configured { address, router }) == (
            address,
            InterfaceChange::Replace { address, router },
        ),
        configured_by(local, DhcpUpdate::Deconfigured) == (0u32, InterfaceChange::Clear),
{
}

/// At most eight sockets are removed in a round.
pub proof fn law_rounds_are_short(sockets: Map<u64, SocketEntry>, finished: Seq<u64>)
    ensures
        sweepable(sockets, finished).len() <= 8,
        sweepable(sockets, finished).len() <= finished.len(),
        forall|i: int|
            0 <= i < sweepable(sockets, finished).len() ==> sockets.contains_key(
                #[trigger] sweepable(sockets, finished)[i],
            ) && sockets[sweepable(sockets, finished)[i]].closing,
    decreases finished.len(),
{
    if finished.len() > 0 {
        law_rounds_are_short(sockets, finished.drop_last());
    }
}

/// A socket that is closed is removed in the first round that finds it finished, as
/// long as the round is not full.
pub proof fn law_closed_socket_is_removed(sockets: Map<u64, SocketEntry>, id: u64)
    requires
        sockets.contains_key(id),
        sockets[id].closing,
    ensures
        sweepable(sockets, seq![id]) == seq![id],
        !without(sockets, seq![id]).contains_key(id),
{
    reveal_with_fuel(sweepable, 2);
    reveal_with_fuel(without, 2);
    assert(seq![id].drop_last() =~= Seq::<u64>::empty());
    assert(Seq::<u64>::empty().push(id) =~= seq![id]);
}

} // verus!
