//! Reliable, sequenced messages over the node's raw Ethernet service.
//!
//! Messages longer than one frame travel as fragments that may arrive in any
//! order. A sender keeps one message in flight for each peer and repeats it
//! until it is acknowledged or its retries are used up. Frames, memory objects
//! and replies are the caller's; this module decides what becomes of them.
use std::collections::BTreeMap;
use std::collections::VecDeque;

use vstd::prelude::*;

use crate::wire;

verus! {

broadcast use vstd::std_specs::btree::group_btree_axioms;

/// Received messages that wait for a reader.
pub const MAX_RECEIVED_MESSAGES: usize = 32;

/// Sizes and counts that the service protocol assigns.
#[derive(Clone, Copy, Debug, Eq, PartialEq)]
pub struct Limits {
    /// The longest message.
    pub max_msg: usize,
    /// The most message bytes in one frame.
    pub max_payload: usize,
    pub max_peers: usize,
    pub max_retries: u32,
    pub max_retry_delay_ticks: u32,
}

impl Limits {
    /// Lengths fit the frame header, and every multiple in use fits.
    pub open spec fn wf(self) -> bool {
        &&& 0 < self.max_payload <= u16::MAX
        &&& self.max_msg <= 0x3fff_ffff
        &&& self.max_retry_delay_ticks >= 1
        &&& self.max_peers * self.max_msg <= usize::MAX
    }

    /// Whether the limits are usable.
    pub fn is_wf(&self) -> (ok: bool)
        ensures
            ok == self.wf(),
    {
        if self.max_payload == 0 || self.max_payload > 65535 || self.max_msg > 0x3fff_ffff
            || self.max_retry_delay_ticks == 0 {
            return false;
        }
        self.max_peers.checked_mul(self.max_msg).is_some()
    }

    /// The most fragments of one message.
    pub open spec fn max_fragments(self) -> int {
        (self.max_msg + self.max_payload - 1) / self.max_payload as int
    }

    /// The most bytes that wait: for a reader, for fragments, or for an
    /// acknowledgement.
    pub open spec fn max_waiting(self) -> int {
        4 * self.max_msg
    }
}

/// The message part of a frame header.
#[derive(Clone, Copy, Debug, Eq, PartialEq)]
pub struct MessageHeader {
    pub session: u64,
    pub sequence: u32,
    pub acknowledgment: u32,
    pub fragment_offset: u32,
    pub total_message_len: u32,
    pub payload_len: u16,
    pub syn: bool,
    pub ack: bool,
    pub frag: bool,
    pub more: bool,
}

/// A frame header.
#[derive(Clone, Copy, Debug, Eq, PartialEq)]
pub struct FrameHeader {
    pub destination: [u8; 6],
    pub source: [u8; 6],
    pub message: MessageHeader,
}

/// A frame that is ready to be written out.
pub struct Frame {
    pub header: FrameHeader,
    pub payload: Vec<u8>,
}

/// What a frame says.
#[verifier::ext_equal]
pub struct FrameView {
    pub header: FrameHeader,
    pub payload: Seq<u8>,
}

impl View for Frame {
    type V = FrameView;

    open spec fn view(&self) -> FrameView {
        FrameView { header: self.header, payload: self.payload@ }
    }
}

/// The sequence number after `seq`. Zero is never used.
pub open spec fn next_seq(seq: u32) -> u32 {
    if seq == u32::MAX {
        1
    } else {
        (seq + 1) as u32
    }
}

fn following(seq: u32) -> (next: u32)
    ensures
        next == next_seq(seq),
{
    if seq == u32::MAX {
        1
    } else {
        seq + 1
    }
}

/// The length of the fragment at `offset`.
pub open spec fn fragment_len(total: int, offset: int, max_payload: int) -> int {
    if total - offset <= max_payload {
        total - offset
    } else {
        max_payload
    }
}

/// The frame that carries the fragment at `offset`.
pub open spec fn fragment_frame(
    destination: [u8; 6],
    source: [u8; 6],
    session: u64,
    sequence: u32,
    payload: Seq<u8>,
    offset: int,
    max_payload: int,
) -> FrameView {
    let len = fragment_len(payload.len() as int, offset, max_payload);
    let fragmented = payload.len() > max_payload;
    FrameView {
        header: FrameHeader {
            destination,
            source,
            message: MessageHeader {
                session,
                sequence,
                acknowledgment: 0,
                fragment_offset: offset as u32,
                total_message_len: payload.len() as u32,
                payload_len: len as u16,
                syn: true,
                ack: false,
                frag: fragmented,
                more: fragmented && offset + len < payload.len(),
            },
        },
        payload: payload.subrange(offset, offset + len),
    }
}

/// The frames of a message from `offset` on.
pub open spec fn frames_from(
    destination: [u8; 6],
    source: [u8; 6],
    session: u64,
    sequence: u32,
    payload: Seq<u8>,
    offset: int,
    max_payload: int,
) -> Seq<FrameView>
    decreases payload.len() - offset,
{
    if offset >= payload.len() || max_payload <= 0 {
        Seq::empty()
    } else {
        let len = fragment_len(payload.len() as int, offset, max_payload);
        seq![
            fragment_frame(destination, source, session, sequence, payload, offset, max_payload),
        ] + frames_from(
            destination,
            source,
            session,
            sequence,
            payload,
            offset + len,
            max_payload,
        )
    }
}

/// The views of frames.
pub open spec fn frame_views(frames: Seq<Frame>) -> Seq<FrameView> {
    frames.map_values(|frame: Frame| frame@)
}

/// Split a message into one frame per fragment. All fragments share the
/// sequence number; each carries its byte offset, and all but the last say
/// that more follow.
pub fn fragment_message(
    destination: [u8; 6],
    source: [u8; 6],
    session: u64,
    sequence: u32,
    payload: &[u8],
    max_payload: usize,
) -> (frames: Vec<Frame>)
    requires
        0 < max_payload <= u16::MAX,
        payload@.len() <= u32::MAX,
    ensures
        frame_views(frames@) == frames_from(
            destination,
            source,
            session,
            sequence,
            payload@,
            0,
            max_payload as int,
        ),
{
    let total: usize = payload.len();
    let mut frames: Vec<Frame> = Vec::new();
    let mut offset: usize = 0;
    assert(frame_views(frames@) =~= Seq::<FrameView>::empty());
    assert(frame_views(frames@) + frames_from(
        destination,
        source,
        session,
        sequence,
        payload@,
        0,
        max_payload as int,
    ) =~= frames_from(destination, source, session, sequence, payload@, 0, max_payload as int));
    while offset < total
        invariant
            offset <= total == payload@.len(),
            total <= u32::MAX,
            0 < max_payload <= u16::MAX,
            frame_views(frames@) + frames_from(
                destination,
                source,
                session,
                sequence,
                payload@,
                offset as int,
                max_payload as int,
            ) == frames_from(
                destination,
                source,
                session,
                sequence,
                payload@,
                0,
                max_payload as int,
            ),
        decreases total - offset,
    {
        let len: usize = if total - offset <= max_payload {
            total - offset
        } else {
            max_payload
        };
        let fragmented: bool = total > max_payload;
        let frame: Frame = Frame {
            header: FrameHeader {
                destination,
                source,
                message: MessageHeader {
                    session,
                    sequence,
                    acknowledgment: 0,
                    fragment_offset: offset as u32,
                    total_message_len: total as u32,
                    payload_len: len as u16,
                    syn: true,
                    ack: false,
                    frag: fragmented,
                    more: fragmented && offset + len < total,
                },
            },
            payload: wire::copy_range(payload, offset, len),
        };
        proof {
            let before = frame_views(frames@);
            let view = fragment_frame(
                destination,
                source,
                session,
                sequence,
                payload@,
                offset as int,
                max_payload as int,
            );
            assert(frame@ =~= view);
            let rest = frames_from(
                destination,
                source,
                session,
                sequence,
                payload@,
                offset + len,
                max_payload as int,
            );
            assert(before + (seq![view] + rest) =~= before.push(view) + rest);
            assert(frame_views(frames@.push(frame)) =~= before.push(view));
        }
        frames.push(frame);
        offset = offset + len;
    }
    assert(frame_views(frames@) + Seq::<FrameView>::empty() =~= frame_views(frames@));
    frames
}

/// What is known of a fragmented message so far.
#[verifier::ext_equal]
pub struct ReassemblyView {
    pub seq: u32,
    /// Fragment offset to payload bytes.
    pub fragments: Map<usize, Seq<u8>>,
    pub buffered_bytes: int,
    pub total: int,
}

impl ReassemblyView {
    /// Fragments are never empty.
    pub open spec fn wf(self) -> bool {
        &&& self.fragments.dom().finite()
        &&& forall|offset: usize| #[trigger]
            self.fragments.contains_key(offset) ==> self.fragments[offset].len() > 0
    }
}

/// The message bytes from `offset` on, where no fragment is missing.
pub open spec fn assembled_from(
    fragments: Map<usize, Seq<u8>>,
    offset: int,
    total: int,
) -> Option<Seq<u8>>
    decreases
            (if total > offset {
                total - offset
            } else {
                0
            }),
{
    if offset >= total {
        if offset == total {
            Some(Seq::empty())
        } else {
            None
        }
    } else if 0 <= offset <= usize::MAX && fragments.contains_key(offset as usize)
        && fragments[offset as usize].len() > 0 {
        let part = fragments[offset as usize];
        match assembled_from(fragments, offset + part.len(), total) {
            Some(rest) => Some(part + rest),
            None => None,
        }
    } else {
        None
    }
}

/// In-progress reassembly of a fragmented inbound message. Fragments may
/// arrive in any order; they are buffered by offset and assembled once the
/// last one is present.
pub struct Reassembly {
    pub seq: u32,
    pub fragments: BTreeMap<usize, Vec<u8>>,
    pub buffered_bytes: usize,
    /// Total message length advertised consistently by every fragment.
    pub total: usize,
}

impl View for Reassembly {
    type V = ReassemblyView;

    open spec fn view(&self) -> ReassemblyView {
        ReassemblyView {
            seq: self.seq,
            fragments: self.fragments@.map_values(|part: Vec<u8>| part@),
            buffered_bytes: self.buffered_bytes as int,
            total: self.total as int,
        }
    }
}

/// Assemble the buffered fragments into one contiguous message, or `None` if
/// a fragment is still missing.
pub fn try_assemble(reassembly: &Reassembly) -> (message: Option<Vec<u8>>)
    requires
        reassembly@.wf(),
    ensures
        match message {
            Some(bytes) => assembled_from(
                reassembly@.fragments,
                0,
                reassembly.total as int,
            ) == Some(bytes@),
            None => assembled_from(reassembly@.fragments, 0, reassembly.total as int) is None,
        },
{
    let total: usize = reassembly.total;
    let ghost fragments = reassembly@.fragments;
    let ghost whole = assembled_from(fragments, 0, total as int);
    let mut out: Vec<u8> = Vec::new();
    let mut offset: usize = 0;
    proof {
        assert(whole matches Some(rest) ==> out@ + rest =~= rest);
    }
    while offset < total
        invariant
            offset <= total == reassembly.total,
            reassembly@.wf(),
            fragments == reassembly@.fragments,
            whole == assembled_from(fragments, 0, total as int),
            whole == match assembled_from(fragments, offset as int, total as int) {
                Some(rest) => Some(out@ + rest),
                None => None,
            },
        decreases total - offset,
    {
        let ghost start = out@;
        match reassembly.fragments.get(&offset) {
            Some(part) => {
                assert(fragments.contains_key(offset));
                assert(fragments[offset] == part@);
                wire::push_all(&mut out, part.as_slice());
                proof {
                    assert(part@.len() > 0);
                    let rest = assembled_from(fragments, offset + part@.len(), total as int);
                    if let Some(tail) = rest {
                        assert(start + (part@ + tail) =~= out@ + tail);
                    }
                }
                if part.len() > total - offset {
                    return None;
                }
                offset = offset + part.len();
            },
            None => {
                assert(!fragments.contains_key(offset));
                return None;
            },
        }
    }
    assert(out@ + Seq::<u8>::empty() =~= out@);
    Some(out)
}

/// The fragments of a message, by offset.
pub open spec fn fragments_of(payload: Seq<u8>, max_payload: int) -> Map<usize, Seq<u8>> {
    Map::new(
        |offset: usize| offset < payload.len() && offset as int % max_payload == 0,
        |offset: usize|
            payload.subrange(
                offset as int,
                offset + fragment_len(payload.len() as int, offset as int, max_payload),
            ),
    )
}

/// Whatever order they arrive in, the fragments of a message assemble to the
/// message.
pub proof fn law_fragments_assemble_to_the_message(payload: Seq<u8>, max_payload: int)
    requires
        max_payload > 0,
        payload.len() <= usize::MAX,
    ensures
        assembled_from(fragments_of(payload, max_payload), 0, payload.len() as int) == Some(
            payload,
        ),
{
    lemma_fragments_from(payload, max_payload, 0);
    assert(payload.skip(0) =~= payload);
}

/// The fragments from `offset` on assemble to the bytes from `offset` on.
proof fn lemma_fragments_from(payload: Seq<u8>, max_payload: int, offset: int)
    requires
        max_payload > 0,
        payload.len() <= usize::MAX,
        0 <= offset <= payload.len(),
        offset % max_payload == 0 || offset == payload.len(),
    ensures
        assembled_from(fragments_of(payload, max_payload), offset, payload.len() as int) == Some(
            payload.skip(offset),
        ),
    decreases payload.len() - offset,
{
    let total = payload.len() as int;
    if offset < total {
        let len = fragment_len(total, offset, max_payload);
        let part = payload.subrange(offset, offset + len);
        assert(fragments_of(payload, max_payload).contains_key(offset as usize));
        if len == max_payload {
            assert((offset + max_payload) % max_payload == 0) by (nonlinear_arith)
                requires
                    offset % max_payload == 0,
                    max_payload > 0,
            ;
        }
        lemma_fragments_from(payload, max_payload, offset + len);
        assert(part + payload.skip(offset + len) =~= payload.skip(offset));
    } else {
        assert(payload.skip(offset) =~= Seq::<u8>::empty());
    }
}

/// Each frame of a message carries the fragment at its offset.
pub proof fn law_frames_carry_the_fragments(
    destination: [u8; 6],
    source: [u8; 6],
    session: u64,
    sequence: u32,
    payload: Seq<u8>,
    max_payload: int,
    start: int,
    index: int,
)
    requires
        max_payload > 0,
        payload.len() <= u32::MAX,
        usize::MAX >= u32::MAX,
        0 <= start <= payload.len(),
        start % max_payload == 0 || start == payload.len(),
        0 <= index < frames_from(
            destination,
            source,
            session,
            sequence,
            payload,
            start,
            max_payload,
        ).len(),
    ensures
        ({
            let frame = frames_from(
                destination,
                source,
                session,
                sequence,
                payload,
                start,
                max_payload,
            )[index];
            let offset = frame.header.message.fragment_offset as usize;
            &&& fragments_of(payload, max_payload).contains_key(offset)
            &&& fragments_of(payload, max_payload)[offset] == frame.payload
            &&& frame.header.message.total_message_len == payload.len()
            &&& 0 < frame.payload.len() <= max_payload
        }),
    decreases payload.len() - start,
{
    let total = payload.len() as int;
    if start < total {
        let len = fragment_len(total, start, max_payload);
        if index == 0 {
        } else {
            if len == max_payload {
                assert((start + max_payload) % max_payload == 0) by (nonlinear_arith)
                    requires
                        start % max_payload == 0,
                        max_payload > 0,
                ;
            }
            law_frames_carry_the_fragments(
                destination,
                source,
                session,
                sequence,
                payload,
                max_payload,
                start + len,
                index - 1,
            );
        }
    }
}

/// A message that waits for its acknowledgement.
pub struct Outbound {
    pub seq: u32,
    /// The reply token of the sender.
    pub reply: u64,
    pub payload_len: usize,
    /// One frame per fragment of the message.
    pub frames: Vec<Frame>,
    pub retries: u32,
    pub ticks_until_retry: u32,
}

/// What a waiting message says.
#[verifier::ext_equal]
pub struct OutboundView {
    pub seq: u32,
    pub reply: u64,
    pub payload_len: int,
    pub frames: Seq<FrameView>,
    pub retries: u32,
    pub ticks_until_retry: u32,
}

impl View for Outbound {
    type V = OutboundView;

    open spec fn view(&self) -> OutboundView {
        OutboundView {
            seq: self.seq,
            reply: self.reply,
            payload_len: self.payload_len as int,
            frames: frame_views(self.frames@),
            retries: self.retries,
            ticks_until_retry: self.ticks_until_retry,
        }
    }
}

/// What is known of a peer.
#[verifier::ext_equal]
pub struct PeerView {
    pub mac: [u8; 6],
    pub tx_session: u64,
    pub next_tx_seq: u32,
    pub next_rx_seq: u32,
    pub pending: Option<OutboundView>,
    pub reassembling: Option<ReassemblyView>,
    pub remote_session: Option<u64>,
}

impl PeerView {
    /// A bounded reassembly of nonempty fragments.
    pub open spec fn wf(self, limits: Limits) -> bool {
        &&& self.reassembling matches Some(reassembly) ==> {
            &&& reassembly.wf()
            &&& 0 <= reassembly.buffered_bytes <= limits.max_msg
            &&& 0 <= reassembly.total <= u32::MAX
        }
        &&& self.pending matches Some(pending) ==> 0 <= pending.payload_len <= limits.max_msg
    }
}

/// A node that messages are exchanged with.
pub struct Peer {
    pub mac: [u8; 6],
    /// Locally chosen wire-session identity for this peer. Abandoning an
    /// unacknowledged sequence starts a fresh session so the same sequence
    /// number can never denote two different messages.
    pub tx_session: u64,
    pub next_tx_seq: u32,
    pub next_rx_seq: u32,
    pub pending: Option<Outbound>,
    pub reassembling: Option<Reassembly>,
    pub remote_session: Option<u64>,
}

impl View for Peer {
    type V = PeerView;

    open spec fn view(&self) -> PeerView {
        PeerView {
            mac: self.mac,
            tx_session: self.tx_session,
            next_tx_seq: self.next_tx_seq,
            next_rx_seq: self.next_rx_seq,
            pending: match self.pending {
                Some(pending) => Some(pending@),
                None => None,
            },
            reassembling: match self.reassembling {
                Some(reassembly) => Some(reassembly@),
                None => None,
            },
            remote_session: self.remote_session,
        }
    }
}

/// A peer that was just met.
pub open spec fn fresh_peer(mac: [u8; 6], tx_session: u64) -> PeerView {
    PeerView {
        mac,
        tx_session,
        next_tx_seq: 1,
        next_rx_seq: 1,
        pending: None,
        reassembling: None,
        remote_session: None,
    }
}

/// The peer after a frame of `session`, or `None` where the frame belongs to a
/// session that must not be accepted: only a newer session, announced by its
/// frames, replaces the known one, and it starts receiving afresh.
pub open spec fn session_accepted(
    peer: PeerView,
    session: u64,
    syn: bool,
    newer: bool,
) -> Option<PeerView> {
    if peer.remote_session == Some(session) {
        Some(peer)
    } else if syn && newer {
        Some(
            PeerView {
                remote_session: Some(session),
                next_rx_seq: 1,
                reassembling: None,
                ..peer
            },
        )
    } else {
        None
    }
}

/// The reassembly that a fragment of message `seq` belongs to.
pub open spec fn reassembly_for(
    current: Option<ReassemblyView>,
    seq: u32,
    total: int,
) -> ReassemblyView {
    match current {
        Some(reassembly) if reassembly.seq == seq => reassembly,
        _ => ReassemblyView { seq, fragments: Map::empty(), buffered_bytes: 0, total },
    }
}

/// The reassembly after a fragment, and whether it may be complete now.
///
/// A fragment that claims another total length ends the reassembly. A new
/// fragment beyond the fragment count or the memory of all reassemblies is
/// dropped.
pub open spec fn fragment_taken(
    current: Option<ReassemblyView>,
    seq: u32,
    offset: usize,
    payload: Seq<u8>,
    total: int,
    waiting: int,
    limits: Limits,
) -> (Option<ReassemblyView>, bool) {
    let reassembly = reassembly_for(current, seq, total);
    if total <= limits.max_msg && offset + payload.len() <= total {
        let fresh = !reassembly.fragments.contains_key(offset);
        let replaced = if fresh {
            0int
        } else {
            reassembly.fragments[offset].len() as int
        };
        let kept = if reassembly.buffered_bytes >= replaced {
            reassembly.buffered_bytes - replaced
        } else {
            0
        };
        if reassembly.total != total {
            (None, false)
        } else if fresh && (reassembly.fragments.dom().len() >= limits.max_fragments() || waiting
            + payload.len() > limits.max_waiting()) {
            (Some(reassembly), false)
        } else if kept + payload.len() > limits.max_msg {
            (None, false)
        } else {
            (
                Some(
                    ReassemblyView {
                        fragments: reassembly.fragments.insert(offset, payload),
                        buffered_bytes: kept + payload.len(),
                        ..reassembly
                    },
                ),
                true,
            )
        }
    } else {
        (Some(reassembly), true)
    }
}

/// The message that is complete after a fragment.
pub open spec fn completed_message(taken: (Option<ReassemblyView>, bool)) -> Option<Seq<u8>> {
    match taken {
        (Some(reassembly), true) => assembled_from(reassembly.fragments, 0, reassembly.total),
        _ => None,
    }
}

/// What a retry tick asks for.
#[derive(Clone, Copy, Debug, PartialEq, Eq, Structural)]
pub enum Tick {
    /// Nothing to send.
    Idle,
    /// Send every frame of the waiting message again.
    Resend,
    /// The peer did not answer. Tell the sender and start a new session.
    GiveUp { reply: u64 },
}

/// Ticks before the next retry of a message of `frames` frames.
pub open spec fn retry_delay(frames: int, limits: Limits) -> u32 {
    if frames < 1 {
        1
    } else if frames > limits.max_retry_delay_ticks {
        limits.max_retry_delay_ticks
    } else {
        frames as u32
    }
}

/// The peer once the session to it was given up: `next` is the session that follows.
pub open spec fn abandoned(peer: PeerView, next: Option<u64>) -> PeerView {
    PeerView {
        tx_session: match next {
            Some(session) => session,
            None => 0,
        },
        next_tx_seq: 1,
        ..peer
    }
}

/// The peer after a retry tick, and what the tick asks for.
pub open spec fn ticked(peer: PeerView, limits: Limits) -> (PeerView, Tick) {
    match peer.pending {
        None => (peer, Tick::Idle),
        Some(pending) => if pending.ticks_until_retry > 1 {
            (
                PeerView {
                    pending: Some(
                        OutboundView {
                            ticks_until_retry: (pending.ticks_until_retry - 1) as u32,
                            ..pending
                        },
                    ),
                    ..peer
                },
                Tick::Idle,
            )
        } else if pending.retries >= limits.max_retries {
            (PeerView { pending: None, ..peer }, Tick::GiveUp { reply: pending.reply })
        } else {
            (
                PeerView {
                    pending: Some(
                        OutboundView {
                            retries: (pending.retries + 1) as u32,
                            ticks_until_retry: retry_delay(pending.frames.len() as int, limits),
                            ..pending
                        },
                    ),
                    ..peer
                },
                Tick::Resend,
            )
        },
    }
}

fn delay_for(frames: usize, limits: &Limits) -> (ticks: u32)
    ensures
        ticks == retry_delay(frames as int, *limits),
{
    if frames < 1 {
        1
    } else if frames > limits.max_retry_delay_ticks as usize {
        limits.max_retry_delay_ticks
    } else {
        frames as u32
    }
}

impl Peer {
    pub fn new(mac: [u8; 6], tx_session: u64) -> (peer: Peer)
        ensures
            peer@ == fresh_peer(mac, tx_session),
    {
        Peer {
            mac,
            tx_session,
            next_tx_seq: 1,
            next_rx_seq: 1,
            pending: None,
            reassembling: None,
            remote_session: None,
        }
    }

    /// Accept a frame of the known session, or of a newer one. `None` refuses
    /// the frame; otherwise the result says whether the peer had another
    /// session before. `newer` is whether `session` is newer than the known
    /// one, or than zero.
    pub fn accept_session(&mut self, session: u64, syn: bool, newer: bool) -> (restarted: Option<
        bool,
    >)
        ensures
            match session_accepted(old(self)@, session, syn, newer) {
                Some(peer) => final(self)@ == peer && restarted == Some(
                    old(self)@.remote_session != Some(session) && old(self)@.remote_session
                        is Some,
                ),
                None => final(self)@ == old(self)@ && restarted is None,
            },
    {
        let known: bool = self.remote_session.is_some();
        let same: bool = match self.remote_session {
            Some(current) => current == session,
            None => false,
        };
        if same {
            return Some(false);
        }
        if !syn || !newer {
            return None;
        }
        self.remote_session = Some(session);
        self.next_rx_seq = 1;
        self.reassembling = None;
        Some(known)
    }

    /// Retire an uncertain transmit session after its retry lease expires.
    ///
    /// Reusing the abandoned sequence in the same session would be unsafe: the
    /// peer may have delivered the old message and only its ACK was lost.
    /// `next` is the session after the current one; with none left, zero is an
    /// explicit disabled state that the send path rejects.
    pub fn abandon_transmit_session(&mut self, next: Option<u64>)
        ensures
            final(self)@ == abandoned(old(self)@, next),
    {
        self.tx_session = match next {
            Some(session) => session,
            None => 0,
        };
        self.next_tx_seq = 1;
    }

    /// Count a retry tick.
    pub fn tick(&mut self, limits: &Limits) -> (tick: Tick)
        ensures
            (final(self)@, tick) == ticked(old(self)@, *limits),
    {
        let ghost before = self@;
        let mut waiting: Option<Outbound> = None;
        std::mem::swap(&mut waiting, &mut self.pending);
        match waiting {
            None => Tick::Idle,
            Some(mut pending) => {
                if pending.ticks_until_retry > 1 {
                    pending.ticks_until_retry = pending.ticks_until_retry - 1;
                    self.pending = Some(pending);
                    assert(self@ =~= ticked(before, *limits).0);
                    return Tick::Idle;
                }
                if pending.retries >= limits.max_retries {
                    assert(self@ =~= ticked(before, *limits).0);
                    return Tick::GiveUp { reply: pending.reply };
                }
                pending.retries = pending.retries + 1;
                pending.ticks_until_retry = delay_for(pending.frames.len(), limits);
                self.pending = Some(pending);
                assert(self@ =~= ticked(before, *limits).0);
                Tick::Resend
            },
        }
    }

    /// Complete the waiting message that an acknowledgement names. The session
    /// must match too: sequence numbers restart in every session, so a delayed
    /// acknowledgement of an older one completes nothing.
    pub fn acknowledge(&mut self, session: u64, acknowledgment: u32) -> (done: Option<
        (u64, usize),
    >)
        ensures
            match old(self)@.pending {
                Some(pending) if session == old(self)@.tx_session && pending.seq
                    == acknowledgment => done == Some(
                    (pending.reply, pending.payload_len as usize),
                ) && final(self)@ == (PeerView { pending: None, ..old(self)@ }),
                _ => done is None && final(self)@ == old(self)@,
            },
    {
        let matches: bool = match &self.pending {
            Some(pending) => session == self.tx_session && pending.seq == acknowledgment,
            None => false,
        };
        if !matches {
            return None;
        }
        let mut waiting: Option<Outbound> = None;
        std::mem::swap(&mut waiting, &mut self.pending);
        match waiting {
            Some(pending) => Some((pending.reply, pending.payload_len)),
            None => None,
        }
    }

    /// Buffer a fragment of the expected message, and assemble the message once
    /// every fragment is present. `waiting` is what all reassemblies hold.
    pub fn take_fragment(
        &mut self,
        seq: u32,
        offset: usize,
        payload: &[u8],
        total: usize,
        waiting: usize,
        limits: &Limits,
    ) -> (message: Option<Vec<u8>>)
        requires
            limits.wf(),
            old(self)@.wf(*limits),
            payload@.len() > 0,
            payload@.len() <= u16::MAX,
            total <= u32::MAX,
            offset <= u32::MAX,
        ensures
            final(self)@.wf(*limits),
            ({
                let taken = fragment_taken(
                    old(self)@.reassembling,
                    seq,
                    offset,
                    payload@,
                    total as int,
                    waiting as int,
                    *limits,
                );
                &&& final(self)@ == (PeerView { reassembling: taken.0, ..old(self)@ })
                &&& match message {
                    Some(bytes) => completed_message(taken) == Some(bytes@),
                    None => completed_message(taken) is None,
                }
            }),
    {
        let ghost before = self@;
        let ghost taken = fragment_taken(
            before.reassembling,
            seq,
            offset,
            payload@,
            total as int,
            waiting as int,
            *limits,
        );
        let mut current: Option<Reassembly> = None;
        std::mem::swap(&mut current, &mut self.reassembling);
        let mut reassembly: Reassembly = match current {
            Some(known) => {
                if known.seq == seq {
                    known
                } else {
                    Reassembly { seq, fragments: BTreeMap::new(), buffered_bytes: 0, total }
                }
            },
            None => Reassembly { seq, fragments: BTreeMap::new(), buffered_bytes: 0, total },
        };
        let ghost start = reassembly@;
        proof {
            assert(reassembly@ =~= reassembly_for(before.reassembling, seq, total as int));
            assert(reassembly@.wf());
        }
        if total <= limits.max_msg && offset <= total && payload.len() <= total - offset {
            if reassembly.total != total {
                assert(taken == (None::<ReassemblyView>, false));
                return None;
            }
            let replaced: usize = match reassembly.fragments.get(&offset) {
                Some(part) => part.len(),
                None => 0,
            };
            let fresh: bool = !reassembly.fragments.contains_key(&offset);
            let max_fragments: usize = (limits.max_msg + limits.max_payload - 1)
                / limits.max_payload;
            proof {
                assert(fresh == !start.fragments.contains_key(offset));
                assert(!fresh ==> replaced == start.fragments[offset].len());
                assert(start.fragments.dom() =~= reassembly.fragments@.dom());
                assert(max_fragments == limits.max_fragments());
            }
            let held: usize = reassembly.fragments.len();
            if fresh && (held >= max_fragments || waiting > 4 * limits.max_msg || payload.len() > 4
                * limits.max_msg - waiting) {
                self.reassembling = Some(reassembly);
                assert(self@ =~= PeerView { reassembling: taken.0, ..before });
                return None;
            }
            let kept: usize = if reassembly.buffered_bytes >= replaced {
                reassembly.buffered_bytes - replaced
            } else {
                0
            };
            if kept + payload.len() > limits.max_msg {
                assert(taken == (None::<ReassemblyView>, false));
                return None;
            }
            let part: Vec<u8> = wire::copy_range(payload, 0, payload.len());
            assert(part@ =~= payload@);
            let old_part: Option<Vec<u8>> = reassembly.fragments.insert(offset, part);
            reassembly.buffered_bytes = kept + payload.len();
            proof {
                assert(reassembly@.fragments =~= start.fragments.insert(offset, payload@));
                assert(reassembly@ =~= taken.0->0);
                assert(taken.1);
            }
        }
        let message: Option<Vec<u8>> = try_assemble(&reassembly);
        self.reassembling = Some(reassembly);
        assert(self@ =~= PeerView { reassembling: taken.0, ..before });
        message
    }
}

/// A received message that waits for a reader.
#[derive(Clone, Copy, Debug, PartialEq, Eq, Structural)]
pub struct ReceivedMessage {
    /// The memory object that holds the message.
    pub cap: u64,
    pub len: usize,
}

/// The transport's state.
#[verifier::ext_equal]
pub struct TransportView {
    pub local_mac: [u8; 6],
    pub local_session: u64,
    pub peers: Seq<PeerView>,
    pub received: Seq<ReceivedMessage>,
    /// The reply token of the waiting reader, or zero.
    pub pending_recv: u64,
}

impl TransportView {
    /// Peers have distinct addresses, and counts and sizes are bounded.
    pub open spec fn wf(self, limits: Limits) -> bool {
        &&& self.peers.len() <= limits.max_peers
        &&& forall|i: int|
            0 <= i < self.peers.len() ==> (#[trigger] self.peers[i]).wf(limits)
        &&& forall|i: int, j: int|
            0 <= i < j < self.peers.len() ==> (#[trigger] self.peers[i]).mac != (
            #[trigger] self.peers[j]).mac
        &&& self.received.len() <= MAX_RECEIVED_MESSAGES
        &&& received_bytes(self.received) <= limits.max_waiting()
    }
}

/// The views of peers.
pub open spec fn peer_views(peers: Seq<Peer>) -> Seq<PeerView> {
    peers.map_values(|peer: Peer| peer@)
}

/// Bytes of the messages that wait for a reader.
pub open spec fn received_bytes(received: Seq<ReceivedMessage>) -> int
    decreases received.len(),
{
    if received.len() == 0 {
        0
    } else {
        received_bytes(received.drop_last()) + received.last().len
    }
}

/// Bytes that a peer's reassembly holds.
pub open spec fn reassembly_bytes(peer: PeerView) -> int {
    match peer.reassembling {
        Some(reassembly) => reassembly.buffered_bytes,
        None => 0,
    }
}

/// Bytes that all reassemblies hold.
pub open spec fn buffered_bytes(peers: Seq<PeerView>) -> int
    decreases peers.len(),
{
    if peers.len() == 0 {
        0
    } else {
        buffered_bytes(peers.drop_last()) + reassembly_bytes(peers.last())
    }
}

/// Bytes of a peer's waiting message.
pub open spec fn pending_bytes(peer: PeerView) -> int {
    match peer.pending {
        Some(pending) => pending.payload_len,
        None => 0,
    }
}

/// Bytes that wait for acknowledgements.
pub open spec fn outbound_bytes(peers: Seq<PeerView>) -> int
    decreases peers.len(),
{
    if peers.len() == 0 {
        0
    } else {
        outbound_bytes(peers.drop_last()) + pending_bytes(peers.last())
    }
}

/// Messages that wait for acknowledgements.
pub open spec fn in_flight(peers: Seq<PeerView>) -> int
    decreases peers.len(),
{
    if peers.len() == 0 {
        0
    } else {
        in_flight(peers.drop_last()) + if peers.last().pending is Some {
            1int
        } else {
            0
        }
    }
}

/// `index` is the peer with address `mac`.
pub open spec fn is_peer(peers: Seq<PeerView>, mac: [u8; 6], index: int) -> bool {
    0 <= index < peers.len() && peers[index].mac == mac
}

/// No peer has address `mac`.
pub open spec fn is_stranger(peers: Seq<PeerView>, mac: [u8; 6]) -> bool {
    forall|i: int| 0 <= i < peers.len() ==> (#[trigger] peers[i]).mac != mac
}

/// The peers with `mac` among them: a stranger joins at the end while there is
/// room.
pub open spec fn peers_with(
    peers: Seq<PeerView>,
    mac: [u8; 6],
    local_session: u64,
    max_peers: int,
) -> Seq<PeerView> {
    if is_stranger(peers, mac) && peers.len() < max_peers {
        peers.push(fresh_peer(mac, local_session))
    } else {
        peers
    }
}

/// What a frame asks of the caller.
pub enum FrameOutcome {
    /// Nothing.
    Ignored,
    /// Tell the sender that its message of `len` bytes has arrived.
    Completed { reply: u64, len: usize },
    /// Put this message of the peer at `index` into a memory object, then call
    /// [`Transport::delivered`].
    Deliver { index: usize, message: Vec<u8> },
    /// Send this acknowledgement.
    Acknowledge { header: FrameHeader },
}

/// The acknowledgement of everything before `next_rx_seq`.
pub open spec fn acknowledgement(
    destination: [u8; 6],
    source: [u8; 6],
    session: u64,
    next_rx_seq: u32,
) -> FrameHeader {
    FrameHeader {
        destination,
        source,
        message: MessageHeader {
            session,
            sequence: 0,
            acknowledgment: if next_rx_seq == 0 {
                u32::MAX
            } else {
                (next_rx_seq - 1) as u32
            },
            fragment_offset: 0,
            total_message_len: 0,
            payload_len: 0,
            syn: true,
            ack: true,
            frag: false,
            more: false,
        },
    }
}

fn acknowledge_before(
    destination: [u8; 6],
    source: [u8; 6],
    session: u64,
    next_rx_seq: u32,
) -> (header: FrameHeader)
    ensures
        header == acknowledgement(destination, source, session, next_rx_seq),
{
    FrameHeader {
        destination,
        source,
        message: MessageHeader {
            session,
            sequence: 0,
            acknowledgment: next_rx_seq.wrapping_sub(1),
            fragment_offset: 0,
            total_message_len: 0,
            payload_len: 0,
            syn: true,
            ack: true,
            frag: false,
            more: false,
        },
    }
}

/// The transport after an acknowledgement frame from the peer at `index`.
pub open spec fn acknowledged(
    peers: Seq<PeerView>,
    index: int,
    message: MessageHeader,
    after: Seq<PeerView>,
    outcome: FrameOutcome,
) -> bool {
    let peer = peers[index];
    if message.payload_len == 0 && message.session == peer.tx_session && peer.pending is Some
        && peer.pending->0.seq == message.acknowledgment {
        &&& after == peers.update(index, PeerView { pending: None, ..peer })
        &&& outcome == (FrameOutcome::Completed {
            reply: peer.pending->0.reply,
            len: peer.pending->0.payload_len as usize,
        })
    } else {
        &&& after == peers
        &&& outcome is Ignored
    }
}

/// The transport after a message frame that the peer at `index` sent in an
/// accepted session; `peer` is the peer with that session.
pub open spec fn message_taken(
    peers: Seq<PeerView>,
    index: int,
    peer: PeerView,
    header: FrameHeader,
    payload: Seq<u8>,
    limits: Limits,
    after: Seq<PeerView>,
    outcome: FrameOutcome,
) -> bool {
    let message = header.message;
    let accepted = peers.update(index, peer);
    if payload.len() == 0 {
        after == accepted && outcome is Ignored
    } else if message.sequence != peer.next_rx_seq {
        &&& after == accepted
        &&& outcome == (FrameOutcome::Acknowledge {
            header: acknowledgement(
                header.source,
                header.destination,
                message.session,
                peer.next_rx_seq,
            ),
        })
    } else if !message.frag {
        &&& after == accepted
        &&& outcome matches FrameOutcome::Deliver { index: at, message: bytes } && at == index
            && bytes@ == payload
    } else {
        let taken = fragment_taken(
            peer.reassembling,
            message.sequence,
            message.fragment_offset as usize,
            payload,
            message.total_message_len as int,
            buffered_bytes(accepted),
            limits,
        );
        &&& after == peers.update(index, PeerView { reassembling: taken.0, ..peer })
        &&& match completed_message(taken) {
            Some(whole) => outcome matches FrameOutcome::Deliver { index: at, message: bytes }
                && at == index && bytes@ == whole,
            None => outcome is Ignored,
        }
    }
}

/// The transport after a frame.
pub open spec fn framed(
    before: TransportView,
    header: FrameHeader,
    payload: Seq<u8>,
    newer: bool,
    limits: Limits,
    after: TransportView,
    outcome: FrameOutcome,
) -> bool {
    let peers = peers_with(
        before.peers,
        header.source,
        before.local_session,
        limits.max_peers as int,
    );
    &&& after == (TransportView { peers: after.peers, ..before })
    &&& if header.destination != before.local_mac || header.source == before.local_mac {
        after.peers == before.peers && outcome is Ignored
    } else if is_stranger(peers, header.source) {
        after.peers == before.peers && outcome is Ignored
    } else {
        exists|index: int| #[trigger]
            is_peer(peers, header.source, index) && frame_from_peer(
                peers,
                index,
                header,
                payload,
                newer,
                limits,
                after.peers,
                outcome,
            )
    }
}

/// The peers after a frame from the peer at `index`.
pub open spec fn frame_from_peer(
    peers: Seq<PeerView>,
    index: int,
    header: FrameHeader,
    payload: Seq<u8>,
    newer: bool,
    limits: Limits,
    after: Seq<PeerView>,
    outcome: FrameOutcome,
) -> bool {
    if header.message.ack {
        acknowledged(peers, index, header.message, after, outcome)
    } else {
        match session_accepted(peers[index], header.message.session, header.message.syn, newer) {
            Some(peer) => message_taken(
                peers,
                index,
                peer,
                header,
                payload,
                limits,
                after,
                outcome,
            ),
            None => after == peers && outcome is Ignored,
        }
    }
}

/// Why a message was not sent.
#[derive(Clone, Copy, Debug, PartialEq, Eq, Structural)]
pub enum SendError {
    /// The length or the destination is not acceptable, or too much waits.
    Unknown,
    /// The peer cannot be reached.
    Unreachable,
    /// A message to the peer waits already.
    Busy,
}

/// Whether a message of `len` bytes to `destination` can go out: to which peer,
/// or why not. `peers` are the peers after the decision.
pub open spec fn send_admitted(
    before: TransportView,
    destination: [u8; 6],
    len: int,
    limits: Limits,
    peers: Seq<PeerView>,
    admitted: Result<usize, SendError>,
) -> bool {
    if len == 0 || len > limits.max_msg || destination == before.local_mac || outbound_bytes(
        before.peers,
    ) + len > limits.max_waiting() {
        &&& peers == before.peers
        &&& admitted == Err::<usize, SendError>(SendError::Unknown)
    } else {
        &&& peers == peers_with(
            before.peers,
            destination,
            before.local_session,
            limits.max_peers as int,
        )
        &&& match admitted {
            Ok(index) => {
                &&& is_peer(peers, destination, index as int)
                &&& peers[index as int].pending is None
                &&& peers[index as int].tx_session != 0
            },
            Err(SendError::Busy) => exists|index: int| #[trigger]
                is_peer(peers, destination, index) && peers[index].pending is Some,
            Err(SendError::Unreachable) => is_stranger(peers, destination) || exists|index: int|
                #[trigger]
                is_peer(peers, destination, index) && peers[index].pending is None
                    && peers[index].tx_session == 0,
            Err(SendError::Unknown) => false,
        }
    }
}

/// Two Ethernet addresses are the same.
pub fn same_mac(left: &[u8; 6], right: &[u8; 6]) -> (same: bool)
    ensures
        same == (*left == *right),
{
    let mut i: usize = 0;
    while i < 6
        invariant
            i <= 6,
            forall|j: int| 0 <= j < i ==> left@[j] == right@[j],
        decreases 6 - i,
    {
        if left[i] != right[i] {
            assert(left@[i as int] != right@[i as int]);
            return false;
        }
        i += 1;
    }
    assert(*left =~= *right);
    true
}

proof fn lemma_buffered_bound(peers: Seq<PeerView>, limits: Limits)
    requires
        forall|i: int| 0 <= i < peers.len() ==> (#[trigger] peers[i]).wf(limits),
    ensures
        0 <= buffered_bytes(peers) <= peers.len() * limits.max_msg,
        0 <= outbound_bytes(peers) <= peers.len() * limits.max_msg,
    decreases peers.len(),
{
    if peers.len() > 0 {
        lemma_buffered_bound(peers.drop_last(), limits);
        assert(peers.last().wf(limits));
        let n = peers.len() as int;
        let m = limits.max_msg as int;
        assert(n * m == (n - 1) * m + m) by (nonlinear_arith);
    }
}

proof fn lemma_peers_fit(count: int, limits: Limits)
    requires
        limits.wf(),
        0 <= count <= limits.max_peers,
    ensures
        0 <= count * limits.max_msg <= usize::MAX,
{
    let m = limits.max_msg as int;
    let p = limits.max_peers as int;
    assert(0 <= count * m <= p * m) by (nonlinear_arith)
        requires
            0 <= count <= p,
            0 <= m,
    ;
}

/// The peers, the receive queue and the waiting reader.
pub struct Transport {
    pub local_mac: [u8; 6],
    pub local_session: u64,
    pub peers: Vec<Peer>,
    pub received: VecDeque<ReceivedMessage>,
    pub pending_recv: u64,
}

impl View for Transport {
    type V = TransportView;

    open spec fn view(&self) -> TransportView {
        TransportView {
            local_mac: self.local_mac,
            local_session: self.local_session,
            peers: peer_views(self.peers@),
            received: self.received@,
            pending_recv: self.pending_recv,
        }
    }
}

impl Transport {
    pub fn new(local_mac: [u8; 6], local_session: u64) -> (transport: Transport)
        ensures
            transport@ == (TransportView {
                local_mac,
                local_session,
                peers: Seq::empty(),
                received: Seq::empty(),
                pending_recv: 0,
            }),
            forall|limits: Limits| limits.wf() ==> #[trigger] transport@.wf(limits),
    {
        let transport: Transport = Transport {
            local_mac,
            local_session,
            peers: Vec::new(),
            received: VecDeque::new(),
            pending_recv: 0,
        };
        assert(transport@.peers =~= Seq::<PeerView>::empty());
        assert(transport@.received =~= Seq::<ReceivedMessage>::empty());
        transport
    }

    /// The session that a peer's frames are known to belong to, or zero.
    pub fn remote_session(&self, mac: &[u8; 6]) -> (session: u64)
        ensures
            is_stranger(self@.peers, *mac) ==> session == 0,
            forall|i: int|
                #![trigger self@.peers[i]]
                is_peer(self@.peers, *mac, i) && (forall|j: int|
                    0 <= j < i ==> (#[trigger] self@.peers[j]).mac != *mac) ==> session == (
                match self@.peers[i].remote_session {
                    Some(known) => known,
                    None => 0,
                }),
    {
        let mut i: usize = 0;
        while i < self.peers.len()
            invariant
                i <= self.peers@.len(),
                forall|j: int| 0 <= j < i ==> (#[trigger] self@.peers[j]).mac != *mac,
            decreases self.peers@.len() - i,
        {
            assert(self@.peers[i as int] == self.peers@[i as int]@);
            if same_mac(&self.peers[i].mac, mac) {
                return match self.peers[i].remote_session {
                    Some(known) => known,
                    None => 0,
                };
            }
            i += 1;
        }
        0
    }

    /// The index of the peer with address `mac`, which joins if there is room.
    pub fn peer_index(&mut self, mac: [u8; 6], limits: &Limits) -> (index: Option<usize>)
        requires
            old(self)@.wf(*limits),
        ensures
            final(self)@.wf(*limits),
            final(self)@ == (TransportView {
                peers: peers_with(
                    old(self)@.peers,
                    mac,
                    old(self)@.local_session,
                    limits.max_peers as int,
                ),
                ..old(self)@
            }),
            match index {
                Some(at) => is_peer(final(self)@.peers, mac, at as int),
                None => is_stranger(final(self)@.peers, mac),
            },
    {
        let ghost before = self@;
        let mut i: usize = 0;
        while i < self.peers.len()
            invariant
                self@ == before,
                before.wf(*limits),
                i <= self.peers@.len(),
                forall|j: int| 0 <= j < i ==> (#[trigger] self@.peers[j]).mac != mac,
            decreases self.peers@.len() - i,
        {
            assert(self@.peers[i as int] == self.peers@[i as int]@);
            if same_mac(&self.peers[i].mac, &mac) {
                assert(before.peers[i as int].mac == mac);
                assert(!is_stranger(before.peers, mac));
                return Some(i);
            }
            i += 1;
        }
        assert(is_stranger(before.peers, mac));
        if self.peers.len() >= limits.max_peers {
            return None;
        }
        let peer: Peer = Peer::new(mac, self.local_session);
        self.peers.push(peer);
        proof {
            assert(self@.peers =~= before.peers.push(fresh_peer(mac, before.local_session)));
        }
        Some(self.peers.len() - 1)
    }

    /// Bytes that all reassemblies hold.
    fn buffered(&self, limits: &Limits) -> (bytes: usize)
        requires
            limits.wf(),
            self@.wf(*limits),
        ensures
            bytes == buffered_bytes(self@.peers),
    {
        let ghost peers = self@.peers;
        let mut bytes: usize = 0;
        let mut i: usize = 0;
        assert(peers.take(0) =~= Seq::<PeerView>::empty());
        while i < self.peers.len()
            invariant
                peers == self@.peers,
                limits.wf(),
                self@.wf(*limits),
                i <= self.peers@.len(),
                bytes == buffered_bytes(peers.take(i as int)),
            decreases self.peers@.len() - i,
        {
            let held: usize = match &self.peers[i].reassembling {
                Some(reassembly) => reassembly.buffered_bytes,
                None => 0,
            };
            proof {
                let next = peers.take(i + 1);
                assert(peers[i as int] == self.peers@[i as int]@);
                assert(next.drop_last() =~= peers.take(i as int));
                assert(next.last() == peers[i as int]);
                lemma_buffered_bound(next, *limits);
                lemma_peers_fit(next.len() as int, *limits);
            }
            bytes = bytes + held;
            i += 1;
        }
        assert(peers.take(i as int) =~= peers);
        bytes
    }

    /// Bytes that wait for acknowledgements.
    fn outbound(&self, limits: &Limits) -> (bytes: usize)
        requires
            limits.wf(),
            self@.wf(*limits),
        ensures
            bytes == outbound_bytes(self@.peers),
    {
        let ghost peers = self@.peers;
        let mut bytes: usize = 0;
        let mut i: usize = 0;
        assert(peers.take(0) =~= Seq::<PeerView>::empty());
        while i < self.peers.len()
            invariant
                peers == self@.peers,
                limits.wf(),
                self@.wf(*limits),
                i <= self.peers@.len(),
                bytes == outbound_bytes(peers.take(i as int)),
            decreases self.peers@.len() - i,
        {
            let held: usize = match &self.peers[i].pending {
                Some(pending) => pending.payload_len,
                None => 0,
            };
            proof {
                let next = peers.take(i + 1);
                assert(peers[i as int] == self.peers@[i as int]@);
                assert(next.drop_last() =~= peers.take(i as int));
                assert(next.last() == peers[i as int]);
                lemma_buffered_bound(next, *limits);
                lemma_peers_fit(next.len() as int, *limits);
            }
            bytes = bytes + held;
            i += 1;
        }
        assert(peers.take(i as int) =~= peers);
        bytes
    }

    /// Messages that wait for acknowledgements, one for each such peer.
    pub fn in_flight(&self) -> (count: usize)
        ensures
            count == in_flight(self@.peers),
    {
        let ghost peers = self@.peers;
        let mut count: usize = 0;
        let mut i: usize = 0;
        assert(peers.take(0) =~= Seq::<PeerView>::empty());
        while i < self.peers.len()
            invariant
                peers == self@.peers,
                count <= i <= self.peers@.len(),
                count == in_flight(peers.take(i as int)),
            decreases self.peers@.len() - i,
        {
            proof {
                let next = peers.take(i + 1);
                assert(peers[i as int] == self.peers@[i as int]@);
                assert(next.drop_last() =~= peers.take(i as int));
                assert(next.last() == peers[i as int]);
            }
            if self.peers[i].pending.is_some() {
                count += 1;
            }
            i += 1;
        }
        assert(peers.take(i as int) =~= peers);
        count
    }

    /// Run `Peer::accept_session` and the rest on the peer at `index`: take a
    /// message frame.
    fn take_message(
        &mut self,
        index: usize,
        header: &FrameHeader,
        payload: &[u8],
        newer: bool,
        limits: &Limits,
    ) -> (outcome: FrameOutcome)
        requires
            limits.wf(),
            old(self)@.wf(*limits),
            is_peer(old(self)@.peers, header.source, index as int),
            header.destination == old(self)@.local_mac,
            payload@.len() == header.message.payload_len,
            !header.message.ack,
        ensures
            final(self)@.wf(*limits),
            final(self)@ == (TransportView { peers: final(self)@.peers, ..old(self)@ }),
            frame_from_peer(
                old(self)@.peers,
                index as int,
                *header,
                payload@,
                newer,
                *limits,
                final(self)@.peers,
                outcome,
            ),
    {
        let ghost before = self@;
        let ghost old_peers = self.peers@;
        let mut peer: Peer = self.peers.remove(index);
        assert(peer@ == before.peers[index as int]);
        let accepted: Option<bool> = peer.accept_session(
            header.message.session,
            header.message.syn,
            newer,
        );
        let ghost peer_view = peer@;
        self.peers.insert(index, peer);
        proof {
            assert(self@.peers =~= before.peers.update(index as int, peer_view));
            assert(peer_view.wf(*limits));
            assert(self@.wf(*limits));
        }
        if accepted.is_none() {
            assert(self@.peers =~= before.peers);
            return FrameOutcome::Ignored;
        }
        if payload.len() == 0 {
            return FrameOutcome::Ignored;
        }
        let next_rx_seq: u32 = self.peers[index].next_rx_seq;
        assert(self.peers@[index as int]@ == peer_view);
        if header.message.sequence != next_rx_seq {
            return FrameOutcome::Acknowledge {
                header: acknowledge_before(
                    header.source,
                    self.local_mac,
                    header.message.session,
                    next_rx_seq,
                ),
            };
        }
        if !header.message.frag {
            let message: Vec<u8> = wire::copy_range(payload, 0, payload.len());
            assert(message@ =~= payload@);
            return FrameOutcome::Deliver { index, message };
        }
        let waiting: usize = self.buffered(limits);
        let ghost accepted_peers = self@.peers;
        let mut peer: Peer = self.peers.remove(index);
        assert(peer@ == peer_view);
        let message: Option<Vec<u8>> = peer.take_fragment(
            header.message.sequence,
            header.message.fragment_offset as usize,
            payload,
            header.message.total_message_len as usize,
            waiting,
            limits,
        );
        let ghost taken_view = peer@;
        self.peers.insert(index, peer);
        proof {
            assert(self@.peers =~= before.peers.update(index as int, taken_view));
            assert(self@.wf(*limits));
        }
        match message {
            Some(message) => FrameOutcome::Deliver { index, message },
            None => FrameOutcome::Ignored,
        }
    }

    /// Take a frame off the network. `newer` is whether its session is newer
    /// than [`Transport::remote_session`] of its source.
    pub fn process_frame(
        &mut self,
        header: &FrameHeader,
        payload: &[u8],
        newer: bool,
        limits: &Limits,
    ) -> (outcome: FrameOutcome)
        requires
            limits.wf(),
            old(self)@.wf(*limits),
            payload@.len() == header.message.payload_len,
        ensures
            final(self)@.wf(*limits),
            framed(old(self)@, *header, payload@, newer, *limits, final(self)@, outcome),
    {
        let ghost before = self@;
        if !same_mac(&header.destination, &self.local_mac) || same_mac(
            &header.source,
            &self.local_mac,
        ) {
            return FrameOutcome::Ignored;
        }
        let index: usize = match self.peer_index(header.source, limits) {
            Some(index) => index,
            None => {
                assert(before.peers.push(fresh_peer(header.source, before.local_session)).last().mac
                    == header.source);
                assert(self@.peers == before.peers);
                return FrameOutcome::Ignored;
            },
        };
        let ghost joined = self@;
        assert(joined.peers[index as int].mac == header.source);
        assert(!is_stranger(joined.peers, header.source));
        if header.message.ack {
            if header.message.payload_len != 0 {
                assert(is_peer(joined.peers, header.source, index as int));
                return FrameOutcome::Ignored;
            }
            let mut peer: Peer = self.peers.remove(index);
            assert(peer@ == joined.peers[index as int]);
            let done: Option<(u64, usize)> = peer.acknowledge(
                header.message.session,
                header.message.acknowledgment,
            );
            let ghost peer_view = peer@;
            self.peers.insert(index, peer);
            proof {
                assert(self@.peers =~= joined.peers.update(index as int, peer_view));
                assert(peer_view == joined.peers[index as int] ==> self@.peers =~= joined.peers);
                assert(peer_view.wf(*limits));
                assert(is_peer(joined.peers, header.source, index as int));
            }
            return match done {
                Some((reply, len)) => FrameOutcome::Completed { reply, len },
                None => FrameOutcome::Ignored,
            };
        }
        let outcome: FrameOutcome = self.take_message(index, header, payload, newer, limits);
        assert(is_peer(joined.peers, header.source, index as int));
        outcome
    }
}

proof fn lemma_received_bytes_nonnegative(received: Seq<ReceivedMessage>)
    ensures
        received_bytes(received) >= 0,
    decreases received.len(),
{
    if received.len() > 0 {
        lemma_received_bytes_nonnegative(received.drop_last());
    }
}

proof fn lemma_received_bytes_first(received: Seq<ReceivedMessage>)
    requires
        received.len() > 0,
    ensures
        received_bytes(received) == received[0].len + received_bytes(
            received.subrange(1, received.len() as int),
        ),
    decreases received.len(),
{
    let rest = received.subrange(1, received.len() as int);
    if received.len() == 1 {
        assert(received.drop_last() =~= Seq::<ReceivedMessage>::empty());
        assert(rest =~= Seq::<ReceivedMessage>::empty());
    } else {
        lemma_received_bytes_first(received.drop_last());
        assert(rest.drop_last() =~= received.drop_last().subrange(1, received.len() - 1));
    }
}

proof fn lemma_received_bytes_prefix(received: Seq<ReceivedMessage>, len: int)
    requires
        0 <= len <= received.len(),
    ensures
        received_bytes(received.take(len)) <= received_bytes(received),
    decreases received.len(),
{
    if len < received.len() {
        assert(received.drop_last().take(len) =~= received.take(len));
        lemma_received_bytes_prefix(received.drop_last(), len);
    } else {
        assert(received.take(len) =~= received);
    }
}

/// Whether a message of `len` bytes can wait to be read.
pub open spec fn roomy(transport: TransportView, len: usize, limits: Limits) -> bool {
    transport.received.len() < MAX_RECEIVED_MESSAGES && received_bytes(transport.received) + len
        <= limits.max_waiting()
}

/// The transport once the reader that waits has the message that waits longest, and
/// both.
pub open spec fn handed_over(transport: TransportView) -> (
    TransportView,
    Option<(u64, ReceivedMessage)>,
) {
    if transport.pending_recv != 0 && transport.received.len() > 0 {
        (
            TransportView {
                received: transport.received.drop_first(),
                pending_recv: 0,
                ..transport
            },
            Some((transport.pending_recv, transport.received[0])),
        )
    } else {
        (transport, None)
    }
}

/// The acknowledgement that answers a whole message from the peer at `index`: one
/// that was not queued is not acknowledged, so that its sender tries again.
pub open spec fn answered(
    before: TransportView,
    index: int,
    header: FrameHeader,
    queued: bool,
) -> Option<FrameHeader> {
    if queued {
        Some(
            acknowledgement(
                header.source,
                before.local_mac,
                header.message.session,
                next_seq(before.peers[index].next_rx_seq),
            ),
        )
    } else {
        None
    }
}

/// The transport when a message has gone out to the peer at `index`, in `frames`.
pub open spec fn posted(
    before: TransportView,
    index: int,
    reply: u64,
    payload_len: int,
    frames: Seq<FrameView>,
    limits: Limits,
) -> TransportView {
    let peer = before.peers[index];
    TransportView {
        peers: before.peers.update(
            index,
            PeerView {
                next_tx_seq: next_seq(peer.next_tx_seq),
                pending: Some(
                    OutboundView {
                        seq: peer.next_tx_seq,
                        reply,
                        payload_len,
                        frames,
                        retries: 0,
                        ticks_until_retry: retry_delay(frames.len() as int, limits),
                    },
                ),
                ..peer
            },
        ),
        ..before
    }
}

/// The transport after a message of the peer at `index` was offered to the
/// receive queue.
pub open spec fn delivery_settled(
    before: TransportView,
    index: int,
    header: FrameHeader,
    queued: bool,
) -> TransportView {
    let peer = before.peers[index];
    TransportView {
        peers: before.peers.update(
            index,
            PeerView {
                next_rx_seq: if queued {
                    next_seq(peer.next_rx_seq)
                } else {
                    peer.next_rx_seq
                },
                reassembling: if header.message.frag {
                    None
                } else {
                    peer.reassembling
                },
                ..peer
            },
        ),
        ..before
    }
}

impl Transport {
    /// Whether the receive queue has room for a message of `len` bytes.
    pub fn has_room(&self, len: usize, limits: &Limits) -> (room: bool)
        requires
            limits.wf(),
            self@.wf(*limits),
        ensures
            room == roomy(self@, len, *limits),
    {
        if self.received.len() >= MAX_RECEIVED_MESSAGES {
            return false;
        }
        let mut bytes: usize = 0;
        let mut i: usize = 0;
        assert(self.received@.take(0) =~= Seq::<ReceivedMessage>::empty());
        while i < self.received.len()
            invariant
                limits.wf(),
                self@.wf(*limits),
                i <= self.received@.len(),
                bytes == received_bytes(self.received@.take(i as int)),
                bytes <= limits.max_waiting(),
            decreases self.received@.len() - i,
        {
            proof {
                let next = self.received@.take(i + 1);
                assert(next.drop_last() =~= self.received@.take(i as int));
                lemma_received_bytes_prefix(self.received@, i + 1);
            }
            bytes = bytes + self.received[i].len;
            i += 1;
        }
        assert(self.received@.take(i as int) =~= self.received@);
        bytes <= 4 * limits.max_msg && len <= 4 * limits.max_msg - bytes
    }

    /// Queue a received message for a reader. Returns whether there was room.
    pub fn queue_received(&mut self, message: ReceivedMessage, limits: &Limits) -> (queued: bool)
        requires
            limits.wf(),
            old(self)@.wf(*limits),
        ensures
            final(self)@.wf(*limits),
            queued == roomy(old(self)@, message.len, *limits),
            queued ==> final(self)@ == (TransportView {
                received: old(self)@.received.push(message),
                ..old(self)@
            }),
            !queued ==> final(self)@ == old(self)@,
    {
        if !self.has_room(message.len, limits) {
            return false;
        }
        let ghost before = self@;
        self.received.push_back(message);
        proof {
            assert(self@.received.drop_last() =~= before.received);
            assert(self@ =~= TransportView { received: before.received.push(message), ..before });
        }
        true
    }

    /// Match the waiting reader with the oldest received message.
    pub fn deliver_received(&mut self, limits: &Limits) -> (delivery: Option<(u64, ReceivedMessage)>)
        requires
            old(self)@.wf(*limits),
        ensures
            final(self)@.wf(*limits),
            (final(self)@, delivery) == handed_over(old(self)@),
    {
        let ghost before = self@;
        if self.pending_recv == 0 {
            return None;
        }
        match self.received.pop_front() {
            Some(message) => {
                let reader: u64 = self.pending_recv;
                self.pending_recv = 0;
                proof {
                    lemma_received_bytes_first(before.received);
                    assert(self@.received =~= before.received.drop_first());
                    assert(self@ =~= TransportView {
                        received: before.received.drop_first(),
                        pending_recv: 0,
                        ..before
                    });
                }
                Some((reader, message))
            },
            None => {
                assert(self@.received =~= before.received);
                assert(self@ =~= before);
                None
            },
        }
    }

    /// Let `reader` wait for a message. One reader waits at a time.
    pub fn request_receive(&mut self, reader: u64, limits: &Limits) -> (accepted: bool)
        requires
            old(self)@.wf(*limits),
        ensures
            final(self)@.wf(*limits),
            accepted == (old(self)@.pending_recv == 0),
            final(self)@ == (if accepted {
                TransportView { pending_recv: reader, ..old(self)@ }
            } else {
                old(self)@
            }),
    {
        if self.pending_recv != 0 {
            return false;
        }
        self.pending_recv = reader;
        true
    }

    /// Settle a delivery that [`Transport::process_frame`] asked for. `queued`
    /// is whether the message reached the receive queue: then its sequence is
    /// done, and the acknowledgement to send is returned. Otherwise the sender
    /// repeats the message.
    pub fn delivered(
        &mut self,
        index: usize,
        header: &FrameHeader,
        queued: bool,
        limits: &Limits,
    ) -> (acknowledgement: Option<FrameHeader>)
        requires
            old(self)@.wf(*limits),
            is_peer(old(self)@.peers, header.source, index as int),
            header.message.sequence == old(self)@.peers[index as int].next_rx_seq,
        ensures
            final(self)@.wf(*limits),
            final(self)@ == delivery_settled(old(self)@, index as int, *header, queued),
            acknowledgement == answered(old(self)@, index as int, *header, queued),
            queued && header.message.sequence < u32::MAX ==> acknowledgement is Some
                && acknowledgement->0.message.acknowledgment == header.message.sequence,
    {
        let ghost before = self@;
        let mut peer: Peer = self.peers.remove(index);
        assert(peer@ == before.peers[index as int]);
        if queued {
            peer.next_rx_seq = following(peer.next_rx_seq);
        }
        if header.message.frag {
            peer.reassembling = None;
        }
        let next_rx_seq: u32 = peer.next_rx_seq;
        let ghost peer_view = peer@;
        self.peers.insert(index, peer);
        proof {
            assert(self@.peers =~= before.peers.update(index as int, peer_view));
            assert(self@ =~= delivery_settled(before, index as int, *header, queued));
            assert(peer_view.wf(*limits));
        }
        if !queued {
            return None;
        }
        Some(
            acknowledge_before(
                header.source,
                self.local_mac,
                header.message.session,
                next_rx_seq,
            ),
        )
    }

    /// Admit a message of `len` bytes to `destination`. The result is the
    /// destination's peer.
    pub fn admit_send(&mut self, destination: [u8; 6], len: usize, limits: &Limits) -> (admitted:
        Result<usize, SendError>)
        requires
            limits.wf(),
            old(self)@.wf(*limits),
        ensures
            final(self)@.wf(*limits),
            send_admitted(
                old(self)@,
                destination,
                len as int,
                *limits,
                final(self)@.peers,
                admitted,
            ),
            final(self)@ == (TransportView { peers: final(self)@.peers, ..old(self)@ }),
    {
        let ghost before = self@;
        if len == 0 || len > limits.max_msg || same_mac(&destination, &self.local_mac) {
            return Err(SendError::Unknown);
        }
        let waiting: usize = self.outbound(limits);
        if waiting > 4 * limits.max_msg || len > 4 * limits.max_msg - waiting {
            return Err(SendError::Unknown);
        }
        let index: usize = match self.peer_index(destination, limits) {
            Some(index) => index,
            None => {
                    return Err(SendError::Unreachable);
            },
        };
        proof {
            assert(self@.peers[index as int].mac == destination);
            assert(!is_stranger(self@.peers, destination));
            assert(self@.peers[index as int] == self.peers@[index as int]@);
            assert(is_peer(self@.peers, destination, index as int));
        }
        if self.peers[index].pending.is_some() {
            return Err(SendError::Busy);
        }
        if self.peers[index].tx_session == 0 {
            return Err(SendError::Unreachable);
        }
        Ok(index)
    }

    /// The frames of an admitted message to the peer at `index`.
    pub fn frames_to(&self, index: usize, payload: &[u8], limits: &Limits) -> (frames: Vec<Frame>)
        requires
            limits.wf(),
            index < self@.peers.len(),
            payload@.len() <= limits.max_msg,
        ensures
            frame_views(frames@) == frames_from(
                self@.peers[index as int].mac,
                self@.local_mac,
                self@.peers[index as int].tx_session,
                self@.peers[index as int].next_tx_seq,
                payload@,
                0,
                limits.max_payload as int,
            ),
    {
        assert(self@.peers[index as int] == self.peers@[index as int]@);
        fragment_message(
            self.peers[index].mac,
            self.local_mac,
            self.peers[index].tx_session,
            self.peers[index].next_tx_seq,
            payload,
            limits.max_payload,
        )
    }

    /// Remember a message whose frames went out to the peer at `index` until it
    /// is acknowledged.
    pub fn sent(
        &mut self,
        index: usize,
        reply: u64,
        payload_len: usize,
        frames: Vec<Frame>,
        limits: &Limits,
    )
        requires
            old(self)@.wf(*limits),
            index < old(self)@.peers.len(),
            payload_len <= limits.max_msg,
        ensures
            final(self)@.wf(*limits),
            final(self)@ == posted(
                old(self)@,
                index as int,
                reply,
                payload_len as int,
                frame_views(frames@),
                *limits,
            ),
    {
        let ghost before = self@;
        let ghost views = frame_views(frames@);
        let ghost count = frames@.len() as int;
        let mut peer: Peer = self.peers.remove(index);
        assert(peer@ == before.peers[index as int]);
        let seq: u32 = peer.next_tx_seq;
        let ticks: u32 = delay_for(frames.len(), limits);
        peer.next_tx_seq = following(seq);
        peer.pending = Some(
            Outbound { seq, reply, payload_len, frames, retries: 0, ticks_until_retry: ticks },
        );
        let ghost peer_view = peer@;
        self.peers.insert(index, peer);
        proof {
            assert(peer_view.pending->0.frames =~= views);
            assert(self@.peers =~= before.peers.update(index as int, peer_view));
            assert(peer_view.wf(*limits));
        }
    }

    /// Count a retry tick of the peer at `index`.
    pub fn tick(&mut self, index: usize, limits: &Limits) -> (tick: Tick)
        requires
            old(self)@.wf(*limits),
            index < old(self)@.peers.len(),
        ensures
            final(self)@.wf(*limits),
            ({
                let (peer, action) = ticked(old(self)@.peers[index as int], *limits);
                &&& tick == action
                &&& final(self)@ == (TransportView {
                    peers: old(self)@.peers.update(index as int, peer),
                    ..old(self)@
                })
            }),
    {
        let ghost before = self@;
        let mut peer: Peer = self.peers.remove(index);
        assert(peer@ == before.peers[index as int]);
        let tick: Tick = peer.tick(limits);
        let ghost peer_view = peer@;
        self.peers.insert(index, peer);
        proof {
            assert(self@.peers =~= before.peers.update(index as int, peer_view));
            assert(peer_view.wf(*limits));
        }
        tick
    }

    /// Start a new transmit session to the peer at `index`.
    pub fn abandon(&mut self, index: usize, next: Option<u64>, limits: &Limits)
        requires
            old(self)@.wf(*limits),
            index < old(self)@.peers.len(),
        ensures
            final(self)@.wf(*limits),
            final(self)@ == (TransportView {
                peers: old(self)@.peers.update(
                    index as int,
                    abandoned(old(self)@.peers[index as int], next),
                ),
                ..old(self)@
            }),
    {
        let ghost before = self@;
        let mut peer: Peer = self.peers.remove(index);
        assert(peer@ == before.peers[index as int]);
        peer.abandon_transmit_session(next);
        let ghost peer_view = peer@;
        self.peers.insert(index, peer);
        proof {
            assert(self@.peers =~= before.peers.update(index as int, peer_view));
            assert(peer_view.wf(*limits));
        }
    }
}

/// A message is repeated at most `max_retries` times: a tick never counts
/// beyond that, and at that count the next retry gives up.
pub proof fn law_retries_are_bounded(peer: PeerView, limits: Limits)
    requires
        peer.pending is Some,
        peer.pending->0.retries <= limits.max_retries,
    ensures
        ({
            let (after, tick) = ticked(peer, limits);
            &&& after.pending matches Some(pending) ==> pending.retries <= limits.max_retries
            &&& tick == Tick::Resend ==> after.pending->0.retries == peer.pending->0.retries + 1
            &&& peer.pending->0.retries == limits.max_retries
                && peer.pending->0.ticks_until_retry <= 1 ==> tick == (Tick::GiveUp {
                reply: peer.pending->0.reply,
            }) && after.pending is None
        }),
{
}

/// Once a session is abandoned, an acknowledgement of it completes nothing.
pub proof fn law_old_acknowledgements_complete_nothing(
    peers: Seq<PeerView>,
    index: int,
    old_session: u64,
    message: MessageHeader,
    after: Seq<PeerView>,
    outcome: FrameOutcome,
)
    requires
        0 <= index < peers.len(),
        message.session == old_session,
        peers[index].tx_session != old_session,
        acknowledged(peers, index, message, after, outcome),
    ensures
        after == peers,
        outcome is Ignored,
{
}

/// A frame that is not of the known session is ignored and changes nothing of
/// its peer unless it announces a newer session.
pub proof fn law_old_sessions_are_refused(
    peers: Seq<PeerView>,
    index: int,
    header: FrameHeader,
    payload: Seq<u8>,
    limits: Limits,
    after: Seq<PeerView>,
    outcome: FrameOutcome,
)
    requires
        0 <= index < peers.len(),
        !header.message.ack,
        peers[index].remote_session != Some(header.message.session),
        frame_from_peer(peers, index, header, payload, false, limits, after, outcome),
    ensures
        after == peers,
        outcome is Ignored,
{
}

/// A message that was delivered is acknowledged again when it is repeated, and
/// not delivered again.
pub proof fn law_repeated_message_is_acknowledged_once_delivered(
    before: TransportView,
    index: int,
    header: FrameHeader,
    payload: Seq<u8>,
    newer: bool,
    limits: Limits,
    after: Seq<PeerView>,
    outcome: FrameOutcome,
)
    requires
        is_peer(before.peers, header.source, index),
        !header.message.ack,
        payload.len() > 0,
        before.peers[index].remote_session == Some(header.message.session),
        before.peers[index].next_rx_seq == header.message.sequence,
        header.message.sequence > 0,
        frame_from_peer(
            delivery_settled(before, index, header, true).peers,
            index,
            header,
            payload,
            newer,
            limits,
            after,
            outcome,
        ),
    ensures
        after == delivery_settled(before, index, header, true).peers,
        outcome == (FrameOutcome::Acknowledge {
            header: acknowledgement(
                header.source,
                header.destination,
                header.message.session,
                next_seq(header.message.sequence),
            ),
        }),
{
    let settled = delivery_settled(before, index, header, true).peers;
    assert(settled.update(index, settled[index]) =~= settled);
}

/// Bytes of the first `count` fragments, as far as they are present.
pub open spec fn covered(fragments: Map<usize, Seq<u8>>, max_payload: int, count: int) -> int
    decreases count,
{
    if count <= 0 {
        0
    } else {
        let offset = (count - 1) * max_payload;
        covered(fragments, max_payload, count - 1) + if offset <= usize::MAX
            && fragments.contains_key(offset as usize) {
            fragments[offset as usize].len() as int
        } else {
            0
        }
    }
}

proof fn lemma_covered_insert(
    fragments: Map<usize, Seq<u8>>,
    max_payload: int,
    at: int,
    part: Seq<u8>,
    count: int,
)
    requires
        max_payload > 0,
        0 <= at,
        0 <= at * max_payload <= usize::MAX,
        0 <= count,
    ensures
        ({
            let offset = (at * max_payload) as usize;
            let held = if fragments.contains_key(offset) {
                fragments[offset].len() as int
            } else {
                0
            };
            covered(fragments.insert(offset, part), max_payload, count) == covered(
                fragments,
                max_payload,
                count,
            ) + if at < count {
                part.len() - held
            } else {
                0
            }
        }),
    decreases count,
{
    if count > 0 {
        lemma_covered_insert(fragments, max_payload, at, part, count - 1);
        let here = (count - 1) * max_payload;
        assert(here >= 0) by (nonlinear_arith)
            requires
                here == (count - 1) * max_payload,
                count > 0,
                max_payload > 0,
        ;
        if count - 1 != at {
            assert((count - 1) * max_payload != at * max_payload) by (nonlinear_arith)
                requires
                    count - 1 != at,
                    max_payload > 0,
            ;
        }
    }
}

proof fn lemma_covered_bound(
    fragments: Map<usize, Seq<u8>>,
    payload: Seq<u8>,
    max_payload: int,
    count: int,
)
    requires
        max_payload > 0,
        payload.len() <= usize::MAX,
        fragments.submap_of(fragments_of(payload, max_payload)),
        0 <= count,
    ensures
        0 <= covered(fragments, max_payload, count) <= payload.len(),
        covered(fragments, max_payload, count) <= count * max_payload,
    decreases count,
{
    if count > 0 {
        lemma_covered_bound(fragments, payload, max_payload, count - 1);
        let offset = (count - 1) * max_payload;
        assert(count * max_payload == offset + max_payload && offset >= 0) by (nonlinear_arith)
            requires
                offset == (count - 1) * max_payload,
                count > 0,
                max_payload > 0,
        ;
        if offset <= usize::MAX && fragments.contains_key(offset as usize) {
            assert(fragments_of(payload, max_payload).contains_key(offset as usize));
            assert(fragments[offset as usize] == fragments_of(
                payload,
                max_payload,
            )[offset as usize]);
        }
    } else {
        assert(count * max_payload == 0) by (nonlinear_arith)
            requires
                count == 0,
        ;
    }
}

/// The offsets of the first `count` fragments.
spec fn first_offsets(total: int, max_payload: int, count: int) -> Set<usize> {
    Set::new(
        |offset: usize|
            offset < total && offset as int % max_payload == 0 && offset as int / max_payload
                < count,
    )
}

proof fn lemma_first_offsets(total: int, max_payload: int, count: int)
    requires
        max_payload > 0,
        0 <= total <= usize::MAX,
        0 <= count,
    ensures
        first_offsets(total, max_payload, count).finite(),
        first_offsets(total, max_payload, count).len() <= count,
    decreases count,
{
    let offsets = first_offsets(total, max_payload, count);
    if count == 0 {
        assert forall|offset: usize| !offsets.contains(offset) by {
            assert(offset as int / max_payload >= 0) by (nonlinear_arith)
                requires
                    max_payload > 0,
            ;
        }
        assert(offsets =~= Set::<usize>::empty());
    } else {
        let before = first_offsets(total, max_payload, count - 1);
        lemma_first_offsets(total, max_payload, count - 1);
        let last = (count - 1) * max_payload;
        assert(last >= 0 && last % max_payload == 0 && last / max_payload == count - 1)
            by (nonlinear_arith)
            requires
                last == (count - 1) * max_payload,
                count > 0,
                max_payload > 0,
        ;
        assert forall|offset: usize| #[trigger] offsets.contains(offset) implies before.contains(
            offset,
        ) || offset == last by {
            let value = offset as int;
            if value / max_payload == count - 1 {
                assert(value == last) by (nonlinear_arith)
                    requires
                        value % max_payload == 0,
                        value / max_payload == count - 1,
                        last == (count - 1) * max_payload,
                        max_payload > 0,
                ;
            }
        }
        if last < total {
            assert(offsets =~= before.insert(last as usize));
        } else {
            assert(offsets =~= before);
        }
    }
}

/// What a peer's reassembly of `payload` becomes when its fragments arrive at
/// the offsets of `order`; `other` bytes wait in other reassemblies.
pub open spec fn arrivals(
    payload: Seq<u8>,
    seq: u32,
    order: Seq<usize>,
    other: int,
    limits: Limits,
) -> (Option<ReassemblyView>, bool)
    decreases order.len(),
{
    if order.len() == 0 {
        (None, false)
    } else {
        let current = arrivals(payload, seq, order.drop_last(), other, limits).0;
        fragment_taken(
            current,
            seq,
            order.last(),
            fragments_of(payload, limits.max_payload as int)[order.last()],
            payload.len() as int,
            other + match current {
                Some(reassembly) => reassembly.buffered_bytes,
                None => 0,
            },
            limits,
        )
    }
}

proof fn lemma_arrivals(
    payload: Seq<u8>,
    seq: u32,
    order: Seq<usize>,
    other: int,
    limits: Limits,
)
    requires
        limits.wf(),
        0 < payload.len() <= limits.max_msg,
        0 <= other,
        other + payload.len() <= limits.max_waiting(),
        order.len() > 0,
        forall|i: int|
            0 <= i < order.len() ==> fragments_of(
                payload,
                limits.max_payload as int,
            ).contains_key(#[trigger] order[i]),
    ensures
        ({
            let all = fragments_of(payload, limits.max_payload as int);
            let taken = arrivals(payload, seq, order, other, limits);
            &&& taken.1
            &&& taken.0 matches Some(reassembly) && {
                &&& reassembly.seq == seq
                &&& reassembly.total == payload.len()
                &&& reassembly.fragments.submap_of(all)
                &&& forall|i: int|
                    0 <= i < order.len() ==> reassembly.fragments.contains_key(#[trigger] order[i])
                &&& reassembly.buffered_bytes == covered(
                    reassembly.fragments,
                    limits.max_payload as int,
                    limits.max_fragments(),
                )
                &&& reassembly.fragments.dom().finite()
            }
        }),
    decreases order.len(),
{
    let max_payload = limits.max_payload as int;
    let all = fragments_of(payload, max_payload);
    let total = payload.len() as int;
    let before = arrivals(payload, seq, order.drop_last(), other, limits).0;
    let offset = order.last();
    let part = all[offset];
    let count = limits.max_fragments();
    assert(all.contains_key(order[order.len() - 1]));
    let at = offset as int / max_payload;
    let m = limits.max_msg as int;
    assert(at >= 0 && at * max_payload == offset && at < count) by (nonlinear_arith)
        requires
            at == offset as int / max_payload,
            offset as int % max_payload == 0,
            0 <= offset < total <= m,
            count == (m + max_payload - 1) / max_payload,
            max_payload > 0,
    ;
    if order.len() == 1 {
        assert(order.drop_last().len() == 0);
        assert(before is None);
        lemma_covered_empty(max_payload, count);
        lemma_covered_insert(Map::empty(), max_payload, at, part, count);
        let none = Map::<usize, Seq<u8>>::empty();
        assert(none.dom() =~= Set::<usize>::empty());
        assert(none.insert(offset, part).submap_of(all));
        lemma_covered_bound(none.insert(offset, part), payload, max_payload, count);
        assert(other + part.len() <= limits.max_waiting());
    } else {
        assert forall|i: int| 0 <= i < order.drop_last().len() implies all.contains_key(
            #[trigger] order.drop_last()[i],
        ) by {
            assert(order.drop_last()[i] == order[i]);
        }
        lemma_arrivals(payload, seq, order.drop_last(), other, limits);
        let held = before->0;
        lemma_covered_insert(held.fragments, max_payload, at, part, count);
        lemma_covered_insert(held.fragments, max_payload, at, Seq::empty(), count);
        let updated = held.fragments.insert(offset, part);
        assert forall|o: usize| #[trigger] updated.dom().contains(o) implies all.dom().contains(o)
            && updated[o] == all[o] by {
            if o != offset {
                assert(held.fragments.dom().contains(o));
                assert(all.dom().contains(o));
                assert(held.fragments[o] == all[o]);
                assert(updated[o] == all[o]);
            } else {
                assert(all.dom().contains(o));
                assert(updated[o] == all[o]);
            }
        }
        assert(updated.submap_of(all));
        lemma_covered_nonnegative(
            held.fragments.insert(offset, Seq::empty()),
            max_payload,
            count,
        );
        lemma_covered_bound(updated, payload, max_payload, count);
        lemma_covered_bound(held.fragments, payload, max_payload, count);
        if held.fragments.contains_key(offset) {
            assert(held.fragments[offset] == part);
        } else {
            let offsets = first_offsets(total, max_payload, count);
            lemma_first_offsets(total, max_payload, count);
            assert forall|o: usize| #[trigger]
                held.fragments.dom().contains(o) implies offsets.remove(offset).contains(o) by {
                assert(all.contains_key(o));
                let value = o as int;
                assert(value / max_payload < count) by (nonlinear_arith)
                    requires
                        value % max_payload == 0,
                        0 <= value < total <= m,
                        count == (m + max_payload - 1) / max_payload,
                        max_payload > 0,
                ;
            }
            vstd::set_lib::lemma_len_subset(held.fragments.dom(), offsets.remove(offset));
            assert(offsets.contains(offset));
        }
        let taken = arrivals(payload, seq, order, other, limits);
        assert forall|i: int| 0 <= i < order.len() implies taken.0->0.fragments.contains_key(
            #[trigger] order[i],
        ) by {
            if i < order.len() - 1 {
                assert(order.drop_last()[i] == order[i]);
            }
        }
    }
}

proof fn lemma_covered_nonnegative(
    fragments: Map<usize, Seq<u8>>,
    max_payload: int,
    count: int,
)
    ensures
        covered(fragments, max_payload, count) >= 0,
    decreases count,
{
    if count > 0 {
        lemma_covered_nonnegative(fragments, max_payload, count - 1);
    }
}

proof fn lemma_covered_empty(max_payload: int, count: int)
    requires
        0 <= count,
    ensures
        covered(Map::empty(), max_payload, count) == 0,
    decreases count,
{
    if count > 0 {
        lemma_covered_empty(max_payload, count - 1);
    }
}

/// However the fragments of a message are ordered and repeated on their way,
/// the message is complete once all of them have arrived, as long as the other
/// reassemblies leave it room.
pub proof fn law_fragments_may_arrive_in_any_order(
    payload: Seq<u8>,
    seq: u32,
    order: Seq<usize>,
    other: int,
    limits: Limits,
)
    requires
        limits.wf(),
        0 < payload.len() <= limits.max_msg,
        0 <= other,
        other + payload.len() <= limits.max_waiting(),
        forall|offset: usize|
            order.contains(offset) <==> #[trigger] fragments_of(
                payload,
                limits.max_payload as int,
            ).contains_key(offset),
    ensures
        completed_message(arrivals(payload, seq, order, other, limits)) == Some(payload),
{
    let max_payload = limits.max_payload as int;
    let all = fragments_of(payload, max_payload);
    assert(all.contains_key(0));
    assert(order.contains(0));
    assert forall|i: int| 0 <= i < order.len() implies all.contains_key(#[trigger] order[i]) by {
        assert(order.contains(order[i]));
    }
    lemma_arrivals(payload, seq, order, other, limits);
    let reassembly = arrivals(payload, seq, order, other, limits).0->0;
    assert forall|offset: usize| #[trigger] all.contains_key(
        offset,
    ) implies reassembly.fragments.contains_key(offset) by {
        assert(order.contains(offset));
        let i = choose|i: int| 0 <= i < order.len() && order[i] == offset;
        assert(reassembly.fragments.contains_key(order[i]));
    }
    assert(reassembly.fragments =~= all);
    law_fragments_assemble_to_the_message(payload, max_payload);
}


/// The numbers of the requests.
#[derive(Clone, Copy, Debug, PartialEq, Eq)]
pub struct Opcodes {
    pub send: u32,
    pub receive: u32,
    pub status: u32,
    pub diagnose: u32,
    pub frame: u32,
    pub shutdown: u32,
}

/// The longest frame that is taken in.
pub const MAX_FRAME_LEN: usize = 4096;

/// What a client, or the network interface's pump, asks for.
#[derive(Clone, Copy, Debug, PartialEq, Eq, Structural)]
pub enum Request {
    /// Send the message in the memory that came along.
    Send,
    Receive,
    Status,
    Diagnose,
    /// Take in the frame in the memory that came along.
    Frame { len: usize },
    Shutdown,
    /// What has to come along did not.
    Malformed,
    Unknown,
}

/// The meaning of a request. Where two requests have the same number, the one
/// listed first counts.
pub open spec fn request_of(codes: Opcodes, opcode: u32, arg: u64, memory_len: Option<usize>, header_len: usize) -> Request {
    if opcode == codes.send {
        match memory_len {
            Some(len) => if arg == 0 && len >= header_len {
                Request::Send
            } else {
                Request::Malformed
            },
            None => Request::Malformed,
        }
    } else if opcode == codes.receive {
        Request::Receive
    } else if opcode == codes.status {
        Request::Status
    } else if opcode == codes.diagnose {
        Request::Diagnose
    } else if opcode == codes.frame {
        if memory_len is Some && arg <= MAX_FRAME_LEN {
            Request::Frame { len: arg as usize }
        } else {
            Request::Malformed
        }
    } else if opcode == codes.shutdown {
        Request::Shutdown
    } else {
        Request::Unknown
    }
}

/// Understand a request that came with `memory_len` bytes of memory, or with
/// none. A message starts with a header of `header_len` bytes.
pub fn decode_request(
    codes: &Opcodes,
    opcode: u32,
    arg: u64,
    memory_len: Option<usize>,
    header_len: usize,
) -> (request: Request)
    ensures
        request == request_of(*codes, opcode, arg, memory_len, header_len),
{
    if opcode == codes.send {
        match memory_len {
            Some(len) => if arg == 0 && len >= header_len {
                Request::Send
            } else {
                Request::Malformed
            },
            None => Request::Malformed,
        }
    } else if opcode == codes.receive {
        Request::Receive
    } else if opcode == codes.status {
        Request::Status
    } else if opcode == codes.diagnose {
        Request::Diagnose
    } else if opcode == codes.frame {
        if memory_len.is_some() && arg <= MAX_FRAME_LEN as u64 {
            Request::Frame { len: arg as usize }
        } else {
            Request::Malformed
        }
    } else if opcode == codes.shutdown {
        Request::Shutdown
    } else {
        Request::Unknown
    }
}

/// What the transport has done.
#[derive(Clone, Copy, Debug, PartialEq, Eq, Structural)]
pub struct Diagnostics {
    pub handled: u32,
    pub retransmits: u32,
    pub send_failures: u32,
    pub received: u32,
}

/// What a diagnosis says, word by word.
pub open spec fn diagnosis(
    transport: TransportView,
    counters: Diagnostics,
    magic: u32,
) -> Seq<(u64, usize)> {
    seq![
        (magic as u64, 4usize),
        ((transport.peers.len() as u32) as u64, 4usize),
        (counters.handled as u64, 4usize),
        (counters.retransmits as u64, 4usize),
        (counters.send_failures as u64, 4usize),
        (counters.received as u64, 4usize),
        ((in_flight(transport.peers) as u32) as u64, 4usize),
    ]
}

/// Whom to tell, and what to let go of, when the transport stops.
pub struct Released {
    /// The reader that waits, if any.
    pub reader: Option<u64>,
    /// The messages that nobody read.
    pub messages: Vec<ReceivedMessage>,
    /// The senders whose messages were not acknowledged.
    pub senders: Vec<u64>,
}

/// The senders whose messages were not acknowledged.
pub open spec fn waiting_senders(peers: Seq<PeerView>) -> Seq<u64>
    decreases peers.len(),
{
    if peers.len() == 0 {
        Seq::empty()
    } else {
        let before = waiting_senders(peers.drop_last());
        match peers.last().pending {
            Some(pending) => before.push(pending.reply),
            None => before,
        }
    }
}

impl Transport {
    /// The words of a diagnosis.
    pub fn diagnose(&self, counters: &Diagnostics, magic: u32) -> (bytes: Vec<u8>)
        ensures
            bytes@ == wire::coded(diagnosis(self@, *counters, magic)),
    {
        let mut bytes: Vec<u8> = Vec::new();
        let fields: [(u64, usize); 7] = [
            (magic as u64, 4usize),
            ((self.peers.len() as u32) as u64, 4usize),
            (counters.handled as u64, 4usize),
            (counters.retransmits as u64, 4usize),
            (counters.send_failures as u64, 4usize),
            (counters.received as u64, 4usize),
            ((self.in_flight() as u32) as u64, 4usize),
        ];
        wire::push_fields(&mut bytes, fields.as_slice());
        proof {
            assert(fields@ =~= diagnosis(self@, *counters, magic));
            assert(bytes@ =~= wire::coded(fields@));
        }
        bytes
    }

    /// Stop: whoever waits is to be told, and what nobody read is to be let go
    /// of.
    pub fn release(&self) -> (released: Released)
        ensures
            released.reader == if self@.pending_recv != 0 {
                Some(self@.pending_recv)
            } else {
                None::<u64>
            },
            released.messages@ == self@.received,
            released.senders@ == waiting_senders(self@.peers),
    {
        let mut messages: Vec<ReceivedMessage> = Vec::new();
        let mut index: usize = 0;
        while index < self.received.len()
            invariant
                index <= self.received@.len(),
                messages@ == self.received@.take(index as int),
            decreases self.received@.len() - index,
        {
            messages.push(self.received[index]);
            index += 1;
            assert(messages@ =~= self.received@.take(index as int));
        }
        assert(messages@ =~= self@.received);
        let ghost peers = self@.peers;
        let mut senders: Vec<u64> = Vec::new();
        let mut i: usize = 0;
        assert(peers.take(0) =~= Seq::<PeerView>::empty());
        while i < self.peers.len()
            invariant
                peers == self@.peers,
                i <= self.peers@.len(),
                senders@ == waiting_senders(peers.take(i as int)),
            decreases self.peers@.len() - i,
        {
            proof {
                let next = peers.take(i + 1);
                assert(peers[i as int] == self.peers@[i as int]@);
                assert(next.drop_last() =~= peers.take(i as int));
                assert(next.last() == peers[i as int]);
            }
            match &self.peers[i].pending {
                Some(pending) => {
                    senders.push(pending.reply);
                },
                None => {},
            }
            i += 1;
        }
        assert(peers.take(i as int) =~= peers);
        let reader: Option<u64> = if self.pending_recv != 0 {
            Some(self.pending_recv)
        } else {
            None
        };
        Released { reader, messages, senders }
    }
}

/// Every sender that still waits is told when the transport stops.
pub proof fn law_no_sender_is_forgotten(peers: Seq<PeerView>, index: int)
    requires
        0 <= index < peers.len(),
        peers[index].pending is Some,
    ensures
        waiting_senders(peers).contains(peers[index].pending->0.reply),
    decreases peers.len(),
{
    let before = waiting_senders(peers.drop_last());
    let all = waiting_senders(peers);
    if index < peers.len() - 1 {
        law_no_sender_is_forgotten(peers.drop_last(), index);
        let reply = peers[index].pending->0.reply;
        let i = choose|i: int| 0 <= i < before.len() && before[i] == reply;
        assert(all[i] == reply);
    } else {
        assert(all[before.len() as int] == peers[index].pending->0.reply);
    }
}

/// A message that is delivered completes at its sender: the acknowledgement that
/// answers it names its sequence number, travels back, and ends exactly the send
/// that was waiting. After the last sequence number the numbers start over, and
/// the acknowledgement of that one message does not name it.
pub proof fn law_delivery_completes_its_sender(
    receiver: TransportView,
    at: int,
    header: FrameHeader,
    sender: TransportView,
    index: int,
    newer: bool,
    limits: Limits,
    after: TransportView,
    outcome: FrameOutcome,
)
    requires
        is_peer(receiver.peers, header.source, at),
        receiver.local_mac == header.destination,
        header.message.sequence == receiver.peers[at].next_rx_seq,
        header.message.sequence < u32::MAX,
        sender.wf(limits),
        sender.local_mac == header.source,
        sender.local_mac != receiver.local_mac,
        is_peer(sender.peers, header.destination, index),
        sender.peers[index].tx_session == header.message.session,
        sender.peers[index].pending is Some,
        sender.peers[index].pending->0.seq == header.message.sequence,
        framed(
            sender,
            answered(receiver, at, header, true)->0,
            Seq::empty(),
            newer,
            limits,
            after,
            outcome,
        ),
    ensures
        answered(receiver, at, header, true) is Some,
        answered(receiver, at, header, true)->0.message.acknowledgment == header.message.sequence,
        answered(receiver, at, header, false) is None,
        outcome == (FrameOutcome::Completed {
            reply: sender.peers[index].pending->0.reply,
            len: sender.peers[index].pending->0.payload_len as usize,
        }),
        after.peers[index].pending is None,
        forall|i: int|
            0 <= i < sender.peers.len() && i != index ==> #[trigger] after.peers[i]
                == sender.peers[i],
{
    assert(sender.peers[index].mac == header.destination);
    assert(!is_stranger(sender.peers, header.destination));
    assert(peers_with(
        sender.peers,
        header.destination,
        sender.local_session,
        limits.max_peers as int,
    ) == sender.peers);
}

/// A message that fits in one frame crosses in it: the frame that a sender makes of
/// it brings the receiver exactly its bytes.
pub proof fn law_single_frame_crosses(
    sender: TransportView,
    index: int,
    payload: Seq<u8>,
    receiver: TransportView,
    at: int,
    newer: bool,
    limits: Limits,
    after: TransportView,
    outcome: FrameOutcome,
)
    requires
        limits.wf(),
        0 < payload.len() <= limits.max_payload,
        0 <= index < sender.peers.len(),
        sender.peers[index].mac == receiver.local_mac,
        sender.local_mac != receiver.local_mac,
        receiver.wf(limits),
        is_peer(receiver.peers, sender.local_mac, at),
        receiver.peers[at].remote_session == Some(sender.peers[index].tx_session),
        receiver.peers[at].next_rx_seq == sender.peers[index].next_tx_seq,
        ({
            let frame = frames_from(
                sender.peers[index].mac,
                sender.local_mac,
                sender.peers[index].tx_session,
                sender.peers[index].next_tx_seq,
                payload,
                0,
                limits.max_payload as int,
            )[0];
            framed(receiver, frame.header, frame.payload, newer, limits, after, outcome)
        }),
    ensures
        frames_from(
            sender.peers[index].mac,
            sender.local_mac,
            sender.peers[index].tx_session,
            sender.peers[index].next_tx_seq,
            payload,
            0,
            limits.max_payload as int,
        ).len() == 1,
        outcome is Deliver,
        outcome->index == at,
        outcome->message@ == payload,
        after == receiver,
{
    let max_payload = limits.max_payload as int;
    let peer = sender.peers[index];
    reveal_with_fuel(frames_from, 2);
    let frame = fragment_frame(
        peer.mac,
        sender.local_mac,
        peer.tx_session,
        peer.next_tx_seq,
        payload,
        0,
        max_payload,
    );
    assert(frame.payload =~= payload);
    assert(receiver.peers[at].mac == sender.local_mac);
    assert(!is_stranger(receiver.peers, sender.local_mac));
    let peers = peers_with(
        receiver.peers,
        sender.local_mac,
        receiver.local_session,
        limits.max_peers as int,
    );
    assert(peers == receiver.peers);
    let found = choose|i: int| #[trigger]
        is_peer(peers, sender.local_mac, i) && frame_from_peer(
            peers,
            i,
            frame.header,
            frame.payload,
            newer,
            limits,
            after.peers,
            outcome,
        );
    assert(found == at);
    assert(peers.update(at, peers[at]) =~= peers);
}

/// A message out of turn is answered by naming the last one that was delivered,
/// and brings nothing in.
pub proof fn law_message_out_of_turn_is_answered(
    receiver: TransportView,
    at: int,
    header: FrameHeader,
    payload: Seq<u8>,
    newer: bool,
    limits: Limits,
    after: TransportView,
    outcome: FrameOutcome,
)
    requires
        receiver.wf(limits),
        header.destination == receiver.local_mac,
        header.source != receiver.local_mac,
        is_peer(receiver.peers, header.source, at),
        !header.message.ack,
        payload.len() > 0,
        receiver.peers[at].remote_session == Some(header.message.session),
        receiver.peers[at].next_rx_seq > 0,
        header.message.sequence != receiver.peers[at].next_rx_seq,
        framed(receiver, header, payload, newer, limits, after, outcome),
    ensures
        after == receiver,
        outcome is Acknowledge,
        ({
            let answer = outcome->header;
            &&& answer.destination == header.source
            &&& answer.source == receiver.local_mac
            &&& answer.message.session == header.message.session
            &&& answer.message.acknowledgment == receiver.peers[at].next_rx_seq - 1
            &&& answer.message.ack
            &&& answer.message.payload_len == 0
        }),
{
    assert(receiver.peers[at].mac == header.source);
    assert(!is_stranger(receiver.peers, header.source));
    let peers = receiver.peers;
    assert(peers.update(at, peers[at]) =~= peers);
}

/// A message is sent on until it is acknowledged or given up: it keeps its number,
/// bytes and sender, waits at least one tick and no longer than the limit between
/// two attempts, and is given up after all its retries, to its own sender.
pub proof fn law_sent_message_is_tried_again(
    before: TransportView,
    index: int,
    reply: u64,
    payload_len: int,
    frames: Seq<FrameView>,
    limits: Limits,
)
    requires
        limits.wf(),
        0 <= index < before.peers.len(),
    ensures
        ({
            let peer = posted(before, index, reply, payload_len, frames, limits).peers[index];
            let pending = peer.pending->0;
            &&& peer.pending is Some
            &&& pending.seq == before.peers[index].next_tx_seq
            &&& pending.reply == reply
            &&& pending.payload_len == payload_len
            &&& pending.frames == frames
            &&& pending.retries == 0
            &&& 1 <= pending.ticks_until_retry <= limits.max_retry_delay_ticks
            &&& 0 < frames.len() <= limits.max_retry_delay_ticks ==> pending.ticks_until_retry
                == frames.len()
            &&& before.peers[index].next_tx_seq < u32::MAX ==> peer.next_tx_seq
                == before.peers[index].next_tx_seq + 1
            &&& before.peers[index].next_tx_seq == u32::MAX ==> peer.next_tx_seq == 1
            &&& peer.next_rx_seq == before.peers[index].next_rx_seq
            &&& peer.tx_session == before.peers[index].tx_session
        }),
        ({
            let peer = before.peers[index];
            let (after, tick) = ticked(peer, limits);
            &&& after.mac == peer.mac && after.tx_session == peer.tx_session && after.next_tx_seq
                == peer.next_tx_seq && after.next_rx_seq == peer.next_rx_seq
            &&& peer.pending is None ==> tick == Tick::Idle && after == peer
            &&& tick is GiveUp ==> after.pending is None && peer.pending is Some && tick->reply
                == peer.pending->0.reply && peer.pending->0.retries >= limits.max_retries
                && peer.pending->0.ticks_until_retry <= 1
            &&& tick is Resend ==> peer.pending is Some && peer.pending->0.ticks_until_retry <= 1
                && peer.pending->0.retries < limits.max_retries && after.pending is Some
                && after.pending->0.retries == peer.pending->0.retries + 1 && 1
                <= after.pending->0.ticks_until_retry <= limits.max_retry_delay_ticks
            &&& peer.pending is Some && peer.pending->0.ticks_until_retry > 1 ==> tick
                == Tick::Idle && after.pending is Some && after.pending->0.ticks_until_retry
                == peer.pending->0.ticks_until_retry - 1 && after.pending->0.retries
                == peer.pending->0.retries
            &&& peer.pending is Some && peer.pending->0.ticks_until_retry <= 1 ==> tick
                != Tick::Idle
            &&& after.pending is Some ==> after.pending->0.seq == peer.pending->0.seq
                && after.pending->0.frames == peer.pending->0.frames && after.pending->0.reply
                == peer.pending->0.reply && after.pending->0.payload_len
                == peer.pending->0.payload_len
        }),
{
}

/// A message is turned away only where it is empty or too long, comes back to this
/// node, or would let more than four full messages wait; its peer has a message
/// on its way; or its peer cannot be reached.
pub proof fn law_sends_are_refused_only_for_a_reason(
    before: TransportView,
    destination: [u8; 6],
    len: int,
    limits: Limits,
    peers: Seq<PeerView>,
    admitted: Result<usize, SendError>,
    index: int,
)
    requires
        before.wf(limits),
        send_admitted(before, destination, len, limits, peers, admitted),
    ensures
        admitted == Err::<usize, SendError>(SendError::Unknown) <==> len == 0 || len
            > limits.max_msg || destination == before.local_mac || outbound_bytes(before.peers)
            + len > 4 * limits.max_msg,
        admitted is Ok ==> is_peer(peers, destination, admitted->Ok_0 as int) && peers[admitted->Ok_0 as int].pending
            is None,
        admitted !is Err || admitted->Err_0 != SendError::Unknown ==> (is_peer(
            before.peers,
            destination,
            index,
        ) ==> peers == before.peers && (before.peers[index].pending is Some ==> admitted == Err::<
            usize,
            SendError,
        >(SendError::Busy)) && (before.peers[index].pending is None
            && before.peers[index].tx_session != 0 ==> admitted == Ok::<usize, SendError>(
            index as usize,
        )) && (before.peers[index].pending is None && before.peers[index].tx_session == 0
            ==> admitted == Err::<usize, SendError>(SendError::Unreachable))),
        admitted !is Err || admitted->Err_0 != SendError::Unknown ==> (is_stranger(
            before.peers,
            destination,
        ) && before.peers.len() < limits.max_peers && before.local_session != 0 ==> admitted is Ok
            && admitted->Ok_0 == before.peers.len()),
        is_stranger(before.peers, destination) && before.peers.len() == limits.max_peers
            ==> admitted is Err,
{
    if is_peer(before.peers, destination, index) {
        assert(before.peers[index].mac == destination);
        assert(!is_stranger(before.peers, destination));
    }
    if is_stranger(before.peers, destination) && before.peers.len() < limits.max_peers {
        let fresh = fresh_peer(destination, before.local_session);
        let grown = before.peers.push(fresh);
        assert(is_peer(grown, destination, before.peers.len() as int));
        assert(grown[before.peers.len() as int].mac == destination);
        assert(!is_stranger(grown, destination));
        assert forall|i: int| is_peer(grown, destination, i) implies i == before.peers.len() by {
            if i < before.peers.len() {
                assert(before.peers[i].mac != destination);
            }
        }
    }
}

/// A request is read by its own number, and a frame or message only where its
/// bytes came along.
pub proof fn law_requests_are_read_by_their_number(
    codes: Opcodes,
    opcode: u32,
    arg: u64,
    memory_len: Option<usize>,
    header_len: usize,
)
    ensures
        ({
            let request = request_of(codes, opcode, arg, memory_len, header_len);
            &&& request == Request::Send ==> opcode == codes.send && arg == 0 && memory_len
                is Some && memory_len->0 >= header_len
            &&& request == Request::Receive ==> opcode == codes.receive
            &&& request == Request::Status ==> opcode == codes.status
            &&& request == Request::Diagnose ==> opcode == codes.diagnose
            &&& request == Request::Shutdown ==> opcode == codes.shutdown
            &&& request is Frame ==> opcode == codes.frame && memory_len is Some && request->len
                == arg && arg <= 4096
            &&& request == Request::Unknown <==> opcode != codes.send && opcode != codes.receive
                && opcode != codes.status && opcode != codes.diagnose && opcode != codes.frame
                && opcode != codes.shutdown
            &&& request == Request::Malformed ==> opcode == codes.send && (memory_len is None
                || arg != 0 || memory_len->0 < header_len) || opcode == codes.frame && (memory_len
                is None || arg > 4096)
        }),
{
}

/// At most 32 messages wait to be read.
pub proof fn law_few_messages_wait(transport: TransportView, limits: Limits)
    requires
        transport.wf(limits),
    ensures
        transport.received.len() <= 32,
        received_bytes(transport.received) <= 4 * limits.max_msg,
{
}

/// A diagnosis has seven numbers of four bytes, the lowest byte first.
pub proof fn law_diagnosis_is_in_order(
    transport: TransportView,
    counters: Diagnostics,
    magic: u32,
)
    ensures
        ({
            let numbers = diagnosis(transport, counters, magic);
            &&& numbers.len() == 7
            &&& forall|i: int| 0 <= i < 7 ==> (#[trigger] numbers[i]).1 == 4
            &&& numbers[0].0 == magic
            &&& transport.peers.len() <= u32::MAX ==> numbers[1].0 == transport.peers.len()
            &&& numbers[2].0 == counters.handled
            &&& numbers[3].0 == counters.retransmits
            &&& numbers[4].0 == counters.send_failures
            &&& numbers[5].0 == counters.received
            &&& 0 <= in_flight(transport.peers) <= u32::MAX ==> numbers[6].0 == in_flight(
                transport.peers,
            )
        }),
{
}

/// Messages are read in the order in which they came, one by each reader that waits.
pub proof fn law_messages_are_read_in_order(transport: TransportView)
    ensures
        ({
            let (after, delivery) = handed_over(transport);
            &&& delivery is Some <==> transport.pending_recv != 0 && transport.received.len() > 0
            &&& delivery is Some ==> delivery == Some(
                (transport.pending_recv, transport.received[0]),
            ) && after.pending_recv == 0 && seq![transport.received[0]] + after.received
                == transport.received
            &&& delivery is None ==> after == transport
            &&& after.peers == transport.peers
            &&& handed_over(after).1 is None
        }),
{
    let (after, delivery) = handed_over(transport);
    if delivery is Some {
        assert(seq![transport.received[0]] + after.received =~= transport.received);
    }
}

/// A message can wait exactly where fewer than 32 wait and all of them together are no
/// more than four full messages.
pub proof fn law_room_is_for_32_messages(transport: TransportView, len: usize, limits: Limits)
    ensures
        roomy(transport, len, limits) <==> transport.received.len() < 32 && received_bytes(
            transport.received,
        ) + len <= 4 * limits.max_msg,
{
}

/// A new session is taken up only from a newer start of the peer, counts from one and
/// drops what was left of the old one; a session that is known goes on.
pub proof fn law_new_session_starts_over(peer: PeerView, session: u64, syn: bool, newer: bool)
    ensures
        session_accepted(peer, session, syn, newer) is Some <==> peer.remote_session == Some(
            session,
        ) || (syn && newer),
        peer.remote_session == Some(session) ==> session_accepted(peer, session, syn, newer)
            == Some(peer),
        peer.remote_session != Some(session) && syn && newer ==> {
            let after = session_accepted(peer, session, syn, newer)->0;
            &&& after.remote_session == Some(session)
            &&& after.next_rx_seq == 1
            &&& after.reassembling is None
            &&& after.tx_session == peer.tx_session && after.next_tx_seq == peer.next_tx_seq
                && after.pending == peer.pending && after.mac == peer.mac
        },
{
}

/// A session that is given up is followed by the next one, which counts from one; with
/// none to follow the peer cannot be reached.
pub proof fn law_given_up_session_is_replaced(peer: PeerView, next: Option<u64>, mac: [u8; 6], session: u64)
    ensures
        abandoned(peer, next).next_tx_seq == 1,
        next is Some ==> abandoned(peer, next).tx_session == next->0,
        next is None ==> abandoned(peer, next).tx_session == 0,
        abandoned(peer, next).next_rx_seq == peer.next_rx_seq,
        abandoned(peer, next).remote_session == peer.remote_session,
        fresh_peer(mac, session).next_tx_seq == 1,
        fresh_peer(mac, session).next_rx_seq == 1,
        fresh_peer(mac, session).tx_session == session,
        fresh_peer(mac, session).mac == mac,
        fresh_peer(mac, session).pending is None,
        fresh_peer(mac, session).remote_session is None,
{
}

/// A delivered message moves its peer on by one, and only its peer; one that could not
/// be queued is expected again.
pub proof fn law_delivery_moves_its_peer_on(
    before: TransportView,
    index: int,
    header: FrameHeader,
    other: int,
)
    requires
        0 <= index < before.peers.len(),
        0 <= other < before.peers.len(),
        other != index,
    ensures
        delivery_settled(before, index, header, false).peers[index].next_rx_seq
            == before.peers[index].next_rx_seq,
        before.peers[index].next_rx_seq < u32::MAX ==> delivery_settled(
            before,
            index,
            header,
            true,
        ).peers[index].next_rx_seq == before.peers[index].next_rx_seq + 1,
        delivery_settled(before, index, header, true).peers[other] == before.peers[other],
        header.message.frag ==> delivery_settled(before, index, header, true).peers[index].reassembling
            is None,
        delivery_settled(before, index, header, true).peers[index].pending
            == before.peers[index].pending,
        delivery_settled(before, index, header, true).received == before.received,
{
}

} // verus!
