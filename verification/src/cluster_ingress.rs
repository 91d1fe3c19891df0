//! Policy and packet helpers for distributed L2 ingress.
//!
//! The frame router owns the mutable integration state. This module keeps the
//! service identity, committed backend snapshot, five-tuple extraction and
//! rendezvous selection independent from IPC, Raft and packet transmission, so
//! the hot-path decision is deterministic and every rule of it is stated here.
use vstd::prelude::*;

use crate::hash;
use crate::order;
use crate::order::Ranked;
use crate::wire;

verus! {

pub const IPV4_ETHERTYPE: u16 = 0x0800;

pub const ARP_ETHERTYPE: u16 = 0x0806;

/// Charlotte-internal L2 forwarding envelope. Frames with this EtherType must
/// only be accepted from a MAC in the current committed member snapshot.
pub const FORWARDED_ETHERTYPE: u16 = 0x88b8;

pub const FORWARD_ENVELOPE_LEN: usize = 8;

pub const IP_PROTOCOL_TCP: u8 = 6;

pub const MAX_BACKENDS: usize = 64;

/// "LBM1"
pub const MEMBERSHIP_MAGIC: u32 = 0x314d_424c;

pub const MEMBERSHIP_VERSION: u16 = 2;

pub const MEMBERSHIP_HEADER_LEN: usize = 40;

pub const MEMBERSHIP_RECORD_LEN: usize = 16;

/// Record flag of a member that accepts new flows.
pub const MEMBER_FLAG_ELIGIBLE: u8 = 1;

/// "Charlotte ingress policy v1\0"
pub const POLICY_DOMAIN: [u8; 28] = [
    0x43, 0x68, 0x61, 0x72, 0x6c, 0x6f, 0x74, 0x74, 0x65, 0x20, 0x69, 0x6e, 0x67, 0x72,
    0x65, 0x73, 0x73, 0x20, 0x70, 0x6f, 0x6c, 0x69, 0x63, 0x79, 0x20, 0x76, 0x31, 0x00,
];

/// "Charlotte L2 rendezvous v1\0"
pub const RENDEZVOUS_DOMAIN: [u8; 27] = [
    0x43, 0x68, 0x61, 0x72, 0x6c, 0x6f, 0x74, 0x74, 0x65, 0x20, 0x4c, 0x32, 0x20, 0x72,
    0x65, 0x6e, 0x64, 0x65, 0x7a, 0x76, 0x6f, 0x75, 0x73, 0x20, 0x76, 0x31, 0x00,
];

#[derive(Clone, Copy, Debug, Eq, Ord, PartialEq, PartialOrd)]
pub struct ServiceId {
    pub address: [u8; 4],
    pub protocol: u8,
    pub port: u16,
}

impl ServiceId {
    /// A TCP service has a nonzero address and a nonzero port.
    pub open spec fn valid(self) -> bool {
        &&& exists|i: int| 0 <= i < 4 && self.address[i] != 0
        &&& self.port != 0
        &&& self.protocol == IP_PROTOCOL_TCP
    }

    pub fn tcp_v4(address: [u8; 4], port: u16) -> (service: Self)
        ensures
            service.address == address,
            service.protocol == IP_PROTOCOL_TCP,
            service.port == port,
    {
        Self { address, protocol: IP_PROTOCOL_TCP, port }
    }

    pub fn is_valid(self) -> (valid: bool)
        ensures
            valid == self.valid(),
    {
        let zero: bool = wire::all_zero(&self.address, 0, 4);
        assert(zero == !(exists|i: int| 0 <= i < 4 && self.address[i] != 0));
        !zero && self.port != 0 && self.protocol == IP_PROTOCOL_TCP
    }
}

#[derive(Clone, Copy, Debug, Eq, Ord, PartialEq, PartialOrd)]
pub struct FlowKey {
    pub protocol: u8,
    pub src_addr: [u8; 4],
    pub dst_addr: [u8; 4],
    pub src_port: u16,
    pub dst_port: u16,
}

impl FlowKey {
    /// Whether both keys name the same flow.
    pub fn same(&self, other: &FlowKey) -> (same: bool)
        ensures
            same == (*self == *other),
    {
        let src: bool = wire::bytes_equal(&self.src_addr, &other.src_addr);
        let dst: bool = wire::bytes_equal(&self.dst_addr, &other.dst_addr);
        proof {
            if src {
                assert(self.src_addr =~= other.src_addr);
            }
            if dst {
                assert(self.dst_addr =~= other.dst_addr);
            }
        }
        self.protocol == other.protocol && src && dst && self.src_port == other.src_port
            && self.dst_port == other.dst_port
    }
}

#[derive(Clone, Copy, Debug, Eq, PartialEq)]
pub struct ParsedFlow {
    pub key: FlowKey,
    pub initial_syn: bool,
    pub terminal: bool,
}

#[derive(Clone, Copy, Debug, Eq, Ord, PartialEq, PartialOrd)]
pub struct Backend {
    /// Stable node token derived from the committed Charlotte identity.
    pub node_id: u64,
    /// Current discovery-authenticated Ethernet route for that identity.
    pub mac: [u8; 6],
}

impl Ranked for Backend {
    open spec fn rank(self) -> int {
        self.node_id as int
    }

    fn precedes(&self, other: &Self) -> (before: bool) {
        self.node_id < other.node_id
    }
}

/// A unicast hardware address that is not all zero.
pub open spec fn routable_mac(mac: [u8; 6]) -> bool {
    &&& exists|i: int| 0 <= i < 6 && mac[i] != 0
    &&& mac[0] % 2 == 0
}

/// A member of `members` has this node token.
pub open spec fn has_node(members: Seq<Backend>, node_id: u64) -> bool {
    exists|i: int| 0 <= i < members.len() && (#[trigger] members[i]).node_id == node_id
}

/// No two members share a node token or a hardware address.
pub open spec fn distinct_members(members: Seq<Backend>) -> bool {
    forall|i: int, j: int|
        0 <= i < j < members.len() ==> (#[trigger] members[i]).node_id != (
        #[trigger] members[j]).node_id && members[i].mac != members[j].mac
}

/// Whether a member list, the tokens accepting new flows and the advertiser
/// form a complete snapshot.
pub open spec fn acceptable(
    members: Seq<Backend>,
    eligible: Seq<u64>,
    advertiser: Option<u64>,
) -> bool {
    &&& 0 < members.len() <= MAX_BACKENDS
    &&& eligible.len() <= members.len()
    &&& forall|i: int| 0 <= i < members.len() ==> routable_mac((#[trigger] members[i]).mac)
    &&& distinct_members(members)
    &&& eligible.no_duplicates()
    &&& forall|i: int| 0 <= i < eligible.len() ==> has_node(members, #[trigger] eligible[i])
    &&& advertiser matches Some(node) ==> eligible.contains(node)
}

/// What a backend snapshot says.
pub struct SnapshotView {
    pub epoch: u64,
    pub self_node: u64,
    pub advertiser: Option<u64>,
    /// Every admitted member, in ascending node order.
    pub members: Seq<Backend>,
    /// The members accepting new flows, in ascending node order.
    pub backends: Seq<Backend>,
}

impl SnapshotView {
    pub open spec fn wf(self) -> bool {
        &&& 0 < self.members.len() <= MAX_BACKENDS
        &&& order::strictly_ascending(self.members)
        &&& distinct_members(self.members)
        &&& forall|i: int|
            0 <= i < self.members.len() ==> routable_mac((#[trigger] self.members[i]).mac)
        &&& self.backends == self.members.filter(
            |m: Backend| has_node(self.backends, m.node_id),
        )
        &&& self.advertiser matches Some(node) ==> has_node(self.backends, node)
    }
}

/// `view` is the snapshot assembled from these parts.
pub open spec fn assembled(
    view: SnapshotView,
    epoch: u64,
    self_node: u64,
    advertiser: Option<u64>,
    members: Seq<Backend>,
    eligible: Seq<u64>,
) -> bool {
    &&& view.epoch == epoch
    &&& view.self_node == self_node
    &&& view.advertiser == advertiser
    &&& order::strictly_ascending(view.members)
    &&& view.members.to_multiset() == members.to_multiset()
    &&& view.backends == view.members.filter(|m: Backend| eligible.contains(m.node_id))
}

#[derive(Clone, Debug, Eq, PartialEq)]
pub struct BackendSnapshot {
    /// Deterministic fingerprint of the committed Raft configuration and
    /// replicated ingress-drain policy represented here.
    pub epoch: u64,
    pub self_node: u64,
    advertiser_node: Option<u64>,
    /// Every admitted member with a complete discovery route. This larger
    /// set remains authoritative for accepting one-hop forwarding envelopes
    /// and retaining established flows while a member drains.
    members: Vec<Backend>,
    /// Members accepting new flows. This is a subset of `members`.
    backends: Vec<Backend>,
}

impl View for BackendSnapshot {
    type V = SnapshotView;

    closed spec fn view(&self) -> SnapshotView {
        SnapshotView {
            epoch: self.epoch,
            self_node: self.self_node,
            advertiser: self.advertiser_node,
            members: self.members@,
            backends: self.backends@,
        }
    }
}

impl BackendSnapshot {
    /// The epoch that the field of the same name holds. Contracts of other
    /// modules cannot read a field of a type that has private ones.
    pub fn epoch(&self) -> (epoch: u64)
        ensures
            epoch == self@.epoch,
    {
        self.epoch
    }

    /// The node that the field of the same name holds.
    pub fn self_node(&self) -> (node: u64)
        ensures
            node == self@.self_node,
    {
        self.self_node
    }
}

/// Filtering keeps the order, and keeps exactly the matching items.
proof fn lemma_filter_ascending<T: Ranked>(items: Seq<T>, keep: spec_fn(T) -> bool)
    requires
        order::strictly_ascending(items),
    ensures
        order::strictly_ascending(items.filter(keep)),
        forall|x: T| items.filter(keep).contains(x) <==> items.contains(x) && keep(x),
    decreases items.len(),
{
    reveal(Seq::filter);
    if items.len() > 0 {
        let rest = items.drop_last();
        lemma_filter_ascending(rest, keep);
        let kept = rest.filter(keep);
        let last = items.last();
        assert forall|i: int| 0 <= i < kept.len() implies kept[i].rank() < last.rank() by {
            assert(kept.contains(kept[i]));
            assert(rest.contains(kept[i]));
            let k = choose|k: int| 0 <= k < rest.len() && rest[k] == kept[i];
            assert(items[k] == kept[i]);
        }
        let out = items.filter(keep);
        assert(out == if keep(last) {
            kept.push(last)
        } else {
            kept
        });
        assert forall|x: T| out.contains(x) <==> items.contains(x) && keep(x) by {
            if out.contains(x) {
                let i = choose|i: int| 0 <= i < out.len() && out[i] == x;
                if i < kept.len() {
                    assert(kept[i] == x);
                    assert(kept.contains(x));
                    assert(rest.contains(x));
                    let k = choose|k: int| 0 <= k < rest.len() && rest[k] == x;
                    assert(items[k] == x);
                } else {
                    assert(items[items.len() - 1] == x);
                    assert(keep(x));
                }
            }
            if items.contains(x) && keep(x) {
                let i = choose|i: int| 0 <= i < items.len() && items[i] == x;
                if i < rest.len() {
                    assert(rest[i] == x);
                    assert(kept.contains(x));
                    let k = choose|k: int| 0 <= k < kept.len() && kept[k] == x;
                    assert(out[k] == x);
                } else {
                    assert(out[out.len() - 1] == x);
                }
            }
        }
    }
}

/// Filters that agree on every item select the same items.
proof fn lemma_filter_agree<T>(items: Seq<T>, one: spec_fn(T) -> bool, two: spec_fn(T) -> bool)
    requires
        forall|i: int| 0 <= i < items.len() ==> one(#[trigger] items[i]) == two(items[i]),
    ensures
        items.filter(one) == items.filter(two),
    decreases items.len(),
{
    reveal(Seq::filter);
    if items.len() > 0 {
        let rest = items.drop_last();
        assert forall|i: int| 0 <= i < rest.len() implies one(#[trigger] rest[i]) == two(rest[i]) by {
            assert(rest[i] == items[i]);
        }
        assert(one(items[items.len() - 1]) == two(items[items.len() - 1]));
        lemma_filter_agree(rest, one, two);
    }
}

/// Acceptance does not depend on the order of the members or the tokens.
proof fn lemma_acceptable_reordered(
    members: Seq<Backend>,
    other_members: Seq<Backend>,
    eligible: Seq<u64>,
    other_eligible: Seq<u64>,
    advertiser: Option<u64>,
)
    requires
        members.to_multiset() == other_members.to_multiset(),
        eligible.to_multiset() == other_eligible.to_multiset(),
        acceptable(members, eligible, advertiser),
    ensures
        acceptable(other_members, other_eligible, advertiser),
{
    order::lemma_same_items(members, other_members);
    order::lemma_same_items(eligible, other_eligible);
    assert forall|i: int| 0 <= i < other_members.len() implies routable_mac(
        (#[trigger] other_members[i]).mac,
    ) by {
        assert(other_members.contains(other_members[i]));
        assert(members.contains(other_members[i]));
        let k = choose|k: int| 0 <= k < members.len() && members[k] == other_members[i];
        assert(routable_mac(members[k].mac));
    }
    assert(members.no_duplicates());
    assert forall|i: int, j: int| 0 <= i < j < other_members.len() implies (
    #[trigger] other_members[i]).node_id != (#[trigger] other_members[j]).node_id
        && other_members[i].mac != other_members[j].mac by {
        assert(members.contains(other_members[i])) by {
            assert(other_members.contains(other_members[i]));
        }
        assert(members.contains(other_members[j])) by {
            assert(other_members.contains(other_members[j]));
        }
        let a = choose|a: int| 0 <= a < members.len() && members[a] == other_members[i];
        let b = choose|b: int| 0 <= b < members.len() && members[b] == other_members[j];
        assert(other_members[i] != other_members[j]);
        assert(a != b);
        if a < b {
            assert(members[a].node_id != members[b].node_id);
        } else {
            assert(members[b].node_id != members[a].node_id);
        }
    }
    assert forall|i: int| 0 <= i < other_eligible.len() implies has_node(
        other_members,
        #[trigger] other_eligible[i],
    ) by {
        assert(other_eligible.contains(other_eligible[i]));
        assert(eligible.contains(other_eligible[i]));
        let k = choose|k: int| 0 <= k < eligible.len() && eligible[k] == other_eligible[i];
        assert(has_node(members, eligible[k]));
        let m = choose|m: int|
            0 <= m < members.len() && (#[trigger] members[m]).node_id == eligible[k];
        assert(members.contains(members[m]));
        assert(other_members.contains(members[m]));
        let n = choose|n: int| 0 <= n < other_members.len() && other_members[n] == members[m];
        assert(other_members[n].node_id == other_eligible[i]);
    }
}

/// Every listed hardware address is routable.
fn all_routable(members: &[Backend]) -> (ok: bool)
    ensures
        ok == (forall|i: int|
            0 <= i < members@.len() ==> routable_mac((#[trigger] members@[i]).mac)),
{
    let mut index: usize = 0;
    while index < members.len()
        invariant
            index <= members@.len(),
            forall|i: int| 0 <= i < index ==> routable_mac((#[trigger] members@[i]).mac),
        decreases members@.len() - index,
    {
        let mac: [u8; 6] = members[index].mac;
        let zero: bool = wire::all_zero(&mac, 0, 6);
        if zero || mac[0] % 2 != 0 {
            assert(!routable_mac(members@[index as int].mac));
            return false;
        }
        assert(exists|i: int| 0 <= i < 6 && mac[i] != 0);
        index = index + 1;
    }
    true
}

/// No two listed members share a token or an address.
fn all_distinct(members: &[Backend]) -> (ok: bool)
    ensures
        ok == distinct_members(members@),
{
    let mut index: usize = 0;
    while index < members.len()
        invariant
            index <= members@.len(),
            forall|i: int, j: int|
                0 <= i < index && i < j < members@.len() ==> (#[trigger] members@[i]).node_id != (
                #[trigger] members@[j]).node_id && members@[i].mac != members@[j].mac,
        decreases members@.len() - index,
    {
        let mut other: usize = index + 1;
        while other < members.len()
            invariant
                index < other <= members@.len(),
                forall|j: int|
                    index < j < other ==> members@[index as int].node_id != (
                    #[trigger] members@[j]).node_id && members@[index as int].mac
                        != members@[j].mac,
            decreases members@.len() - other,
        {
            let same_mac: bool = wire::bytes_equal(&members[index].mac, &members[other].mac);
            if members[index].node_id == members[other].node_id || same_mac {
                proof {
                    if same_mac {
                        assert(members@[index as int].mac =~= members@[other as int].mac);
                    }
                }
                return false;
            }
            other = other + 1;
        }
        index = index + 1;
    }
    true
}

/// Whether a listed member has this node token.
fn contains_node(members: &[Backend], node_id: u64) -> (found: bool)
    ensures
        found == has_node(members@, node_id),
{
    let mut index: usize = 0;
    while index < members.len()
        invariant
            index <= members@.len(),
            forall|i: int| 0 <= i < index ==> (#[trigger] members@[i]).node_id != node_id,
        decreases members@.len() - index,
    {
        if members[index].node_id == node_id {
            return true;
        }
        index = index + 1;
    }
    false
}

/// Whether `nodes` holds `node_id`.
fn contains_token(nodes: &[u64], node_id: u64) -> (found: bool)
    ensures
        found == nodes@.contains(node_id),
{
    let mut index: usize = 0;
    while index < nodes.len()
        invariant
            index <= nodes@.len(),
            forall|i: int| 0 <= i < index ==> nodes@[i] != node_id,
        decreases nodes@.len() - index,
    {
        if nodes[index] == node_id {
            return true;
        }
        index = index + 1;
    }
    false
}

/// Whether a sorted token list is duplicate-free.
fn tokens_distinct(nodes: &[u64]) -> (ok: bool)
    requires
        order::ascending(nodes@),
    ensures
        ok == nodes@.no_duplicates(),
{
    let mut index: usize = 1;
    while index < nodes.len()
        invariant
            1 <= index,
            order::ascending(nodes@),
            forall|i: int, j: int| 0 <= i < j < index && j < nodes@.len() ==> nodes@[i] < nodes@[j],
        decreases nodes@.len() - index,
    {
        if nodes[index - 1] == nodes[index] {
            assert(nodes@[index - 1] == nodes@[index as int]);
            return false;
        }
        proof {
            assert(nodes@[index - 1].rank() <= nodes@[index as int].rank());
            assert forall|i: int| 0 <= i < index implies nodes@[i] < nodes@[index as int] by {
                if i < index - 1 {
                    assert(nodes@[i] < nodes@[index - 1]);
                }
            }
        }
        index = index + 1;
    }
    true
}

/// Every token belongs to a listed member.
fn tokens_known(nodes: &[u64], members: &[Backend]) -> (ok: bool)
    ensures
        ok == (forall|i: int| 0 <= i < nodes@.len() ==> has_node(members@, #[trigger] nodes@[i])),
{
    let mut index: usize = 0;
    while index < nodes.len()
        invariant
            index <= nodes@.len(),
            forall|i: int| 0 <= i < index ==> has_node(members@, #[trigger] nodes@[i]),
        decreases nodes@.len() - index,
    {
        if !contains_node(members, nodes[index]) {
            assert(!has_node(members@, nodes@[index as int]));
            return false;
        }
        index = index + 1;
    }
    true
}

/// The members whose token is in `nodes`, in the same order.
fn select_members(members: &[Backend], nodes: &[u64]) -> (out: Vec<Backend>)
    ensures
        out@ == members@.filter(|m: Backend| nodes@.contains(m.node_id)),
{
    let mut out: Vec<Backend> = Vec::new();
    let mut index: usize = 0;
    let ghost keep = |m: Backend| nodes@.contains(m.node_id);
    proof {
        reveal(Seq::filter);
        assert(members@.subrange(0, 0) =~= Seq::<Backend>::empty());
    }
    while index < members.len()
        invariant
            index <= members@.len(),
            keep == (|m: Backend| nodes@.contains(m.node_id)),
            out@ == members@.subrange(0, index as int).filter(keep),
        decreases members@.len() - index,
    {
        proof {
            reveal(Seq::filter);
            let next = members@.subrange(0, index + 1);
            assert(next.drop_last() =~= members@.subrange(0, index as int));
            assert(next.last() == members@[index as int]);
        }
        if contains_token(nodes, members[index].node_id) {
            out.push(members[index]);
        }
        index = index + 1;
    }
    assert(members@.subrange(0, members@.len() as int) =~= members@);
    out
}

/// An assembled snapshot is well formed.
proof fn lemma_assembled_wf(
    view: SnapshotView,
    members: Seq<Backend>,
    eligible: Seq<u64>,
)
    requires
        acceptable(members, eligible, view.advertiser),
        assembled(view, view.epoch, view.self_node, view.advertiser, members, eligible),
    ensures
        view.wf(),
        forall|node: u64| has_node(view.backends, node) <==> eligible.contains(node),
{
    lemma_acceptable_reordered(members, view.members, eligible, eligible, view.advertiser);
    let keep = |m: Backend| eligible.contains(m.node_id);
    lemma_filter_ascending(view.members, keep);
    assert forall|node: u64| has_node(view.backends, node) <==> eligible.contains(node) by {
        if has_node(view.backends, node) {
            let i = choose|i: int|
                0 <= i < view.backends.len() && (#[trigger] view.backends[i]).node_id == node;
            assert(view.backends.contains(view.backends[i]));
        }
        if eligible.contains(node) {
            let i = choose|i: int| 0 <= i < eligible.len() && eligible[i] == node;
            assert(has_node(view.members, eligible[i]));
            let m = choose|m: int|
                0 <= m < view.members.len() && (#[trigger] view.members[m]).node_id == node;
            assert(view.members.contains(view.members[m]));
            assert(view.backends.contains(view.members[m]));
            let b = choose|b: int|
                0 <= b < view.backends.len() && view.backends[b] == view.members[m];
            assert(view.backends[b].node_id == node);
        }
    }
    let own = |m: Backend| has_node(view.backends, m.node_id);
    assert forall|i: int| 0 <= i < view.members.len() implies keep(#[trigger] view.members[i])
        == own(view.members[i]) by {}
    lemma_filter_agree(view.members, keep, own);
}

impl BackendSnapshot {
    pub fn new(epoch: u64, self_node: u64, backends: Vec<Backend>) -> (snapshot: Option<Self>)
        ensures
            snapshot is Some <==> acceptable(
                backends@,
                tokens_of(backends@),
                lowest_node(backends@),
            ),
            snapshot matches Some(made) ==> made@.wf() && assembled(
                made@,
                epoch,
                self_node,
                lowest_node(backends@),
                backends@,
                tokens_of(backends@),
            ),
    {
        let ordered: Vec<Backend> = order::sorted(backends.as_slice());
        let advertiser: Option<u64> = if ordered.len() == 0 {
            None
        } else {
            Some(ordered[0].node_id)
        };
        proof {
            lemma_lowest_node(backends@, ordered@);
            lemma_tokens_reordered(backends@, ordered@);
            if acceptable(backends@, tokens_of(backends@), advertiser) {
                lemma_acceptable_reordered(
                    backends@,
                    ordered@,
                    tokens_of(backends@),
                    tokens_of(ordered@),
                    advertiser,
                );
            }
            if acceptable(ordered@, tokens_of(ordered@), advertiser) {
                lemma_acceptable_reordered(
                    ordered@,
                    backends@,
                    tokens_of(ordered@),
                    tokens_of(backends@),
                    advertiser,
                );
            }
            order::lemma_same_items(tokens_of(backends@), tokens_of(ordered@));
            assert forall|view: SnapshotView|
                assembled(view, epoch, self_node, advertiser, ordered@, tokens_of(ordered@)) implies
                #[trigger] assembled(
                view,
                epoch,
                self_node,
                advertiser,
                backends@,
                tokens_of(backends@),
            ) by {
                lemma_filter_agree(
                    view.members,
                    |m: Backend| tokens_of(ordered@).contains(m.node_id),
                    |m: Backend| tokens_of(backends@).contains(m.node_id),
                );
            }
        }
        Self::new_with_advertiser(epoch, self_node, advertiser, ordered)
    }

    pub fn new_with_advertiser(
        epoch: u64,
        self_node: u64,
        advertiser_node: Option<u64>,
        backends: Vec<Backend>,
    ) -> (snapshot: Option<Self>)
        ensures
            snapshot is Some <==> acceptable(backends@, tokens_of(backends@), advertiser_node),
            snapshot matches Some(made) ==> made@.wf() && assembled(
                made@,
                epoch,
                self_node,
                advertiser_node,
                backends@,
                tokens_of(backends@),
            ),
    {
        let mut eligible: Vec<u64> = Vec::new();
        let mut index: usize = 0;
        while index < backends.len()
            invariant
                index <= backends@.len(),
                eligible@ == tokens_of(backends@).subrange(0, index as int),
            decreases backends@.len() - index,
        {
            eligible.push(backends[index].node_id);
            assert(eligible@ =~= tokens_of(backends@).subrange(0, index + 1));
            index = index + 1;
        }
        assert(eligible@ =~= tokens_of(backends@));
        Self::new_with_members(epoch, self_node, advertiser_node, backends, eligible)
    }

    pub fn new_with_members(
        epoch: u64,
        self_node: u64,
        advertiser_node: Option<u64>,
        members: Vec<Backend>,
        eligible_nodes: Vec<u64>,
    ) -> (snapshot: Option<Self>)
        ensures
            snapshot is Some <==> acceptable(members@, eligible_nodes@, advertiser_node),
            snapshot matches Some(made) ==> made@.wf() && assembled(
                made@,
                epoch,
                self_node,
                advertiser_node,
                members@,
                eligible_nodes@,
            ),
    {
        if members.len() == 0 || members.len() > MAX_BACKENDS || eligible_nodes.len()
            > members.len() {
            return None;
        }
        let ordered: Vec<Backend> = order::sorted(members.as_slice());
        let tokens: Vec<u64> = order::sorted(eligible_nodes.as_slice());
        proof {
            if acceptable(members@, eligible_nodes@, advertiser_node) {
                lemma_acceptable_reordered(
                    members@,
                    ordered@,
                    eligible_nodes@,
                    tokens@,
                    advertiser_node,
                );
            }
            if acceptable(ordered@, tokens@, advertiser_node) {
                lemma_acceptable_reordered(
                    ordered@,
                    members@,
                    tokens@,
                    eligible_nodes@,
                    advertiser_node,
                );
            }
        }
        if !all_routable(ordered.as_slice()) || !all_distinct(ordered.as_slice())
            || !tokens_distinct(tokens.as_slice()) || !tokens_known(
            tokens.as_slice(),
            ordered.as_slice(),
        ) {
            return None;
        }
        match advertiser_node {
            Some(node) => {
                if !contains_token(tokens.as_slice(), node) {
                    return None;
                }
            },
            None => {},
        }
        let backends: Vec<Backend> = select_members(ordered.as_slice(), tokens.as_slice());
        let made: BackendSnapshot = BackendSnapshot {
            epoch,
            self_node,
            advertiser_node,
            members: ordered,
            backends,
        };
        proof {
            assert(order::strictly_ascending(made@.members)) by {
                assert forall|i: int, j: int| 0 <= i < j < made@.members.len() implies
                    made@.members[i].rank() < made@.members[j].rank() by {
                    assert(made@.members[i].rank() <= made@.members[j].rank());
                }
            }
            order::lemma_same_items(eligible_nodes@, tokens@);
            lemma_filter_agree(
                made@.members,
                |m: Backend| tokens@.contains(m.node_id),
                |m: Backend| eligible_nodes@.contains(m.node_id),
            );
            lemma_assembled_wf(made@, members@, eligible_nodes@);
        }
        Some(made)
    }

    pub fn members(&self) -> (members: &[Backend])
        ensures
            members@ == self@.members,
    {
        self.members.as_slice()
    }

    pub fn backends(&self) -> (backends: &[Backend])
        ensures
            backends@ == self@.backends,
    {
        self.backends.as_slice()
    }

    pub fn vip_advertiser(&self) -> (owner: Option<Backend>)
        requires
            self@.wf(),
        ensures
            owner is Some <==> self@.advertiser is Some,
            owner matches Some(backend) ==> self@.backends.contains(backend) && Some(
                backend.node_id,
            ) == self@.advertiser,
    {
        let node: u64 = match self.advertiser_node {
            Some(node) => node,
            None => {
                return None;
            },
        };
        let mut index: usize = 0;
        while index < self.backends.len()
            invariant
                index <= self.backends@.len(),
                self@.advertiser == Some(node),
                forall|i: int| 0 <= i < index ==> (#[trigger] self@.backends[i]).node_id != node,
            decreases self.backends@.len() - index,
        {
            if self.backends[index].node_id == node {
                assert(self@.backends.contains(self@.backends[index as int]));
                return Some(self.backends[index]);
            }
            index = index + 1;
        }
        assert(has_node(self@.backends, node));
        None
    }
}

/// The node tokens of `members`, in order.
pub open spec fn tokens_of(members: Seq<Backend>) -> Seq<u64> {
    members.map_values(|m: Backend| m.node_id)
}

/// The lowest node token of `members`.
pub open spec fn lowest_node(members: Seq<Backend>) -> Option<u64>
    decreases members.len(),
{
    if members.len() == 0 {
        None
    } else {
        match lowest_node(members.drop_last()) {
            Some(low) if low <= members.last().node_id => Some(low),
            _ => Some(members.last().node_id),
        }
    }
}

/// The lowest token is held by a member and no member is below it.
proof fn lemma_lowest_is_least(members: Seq<Backend>)
    ensures
        members.len() > 0 ==> lowest_node(members) is Some,
        lowest_node(members) matches Some(low) ==> has_node(members, low) && forall|i: int|
            0 <= i < members.len() ==> low <= (#[trigger] members[i]).node_id,
    decreases members.len(),
{
    if members.len() > 0 {
        let rest = members.drop_last();
        lemma_lowest_is_least(rest);
        let low = lowest_node(members).unwrap();
        if low == members.last().node_id {
            assert(members[members.len() - 1].node_id == low);
        } else {
            let i = choose|i: int| 0 <= i < rest.len() && (#[trigger] rest[i]).node_id == low;
            assert(members[i].node_id == low);
        }
        assert forall|i: int| 0 <= i < members.len() implies low <= (
        #[trigger] members[i]).node_id by {
            if i < rest.len() {
                assert(rest[i] == members[i]);
            }
        }
    }
}

/// In an ascending arrangement the first member has the lowest token.
proof fn lemma_lowest_node(members: Seq<Backend>, ordered: Seq<Backend>)
    requires
        members.to_multiset() == ordered.to_multiset(),
        order::ascending(ordered),
    ensures
        ordered.len() == 0 ==> lowest_node(members) is None,
        ordered.len() > 0 ==> lowest_node(members) == Some(ordered[0].node_id),
{
    order::lemma_same_items(members, ordered);
    lemma_lowest_is_least(members);
    if ordered.len() > 0 {
        let low = lowest_node(members).unwrap();
        let i = choose|i: int| 0 <= i < members.len() && (#[trigger] members[i]).node_id == low;
        assert(members.contains(members[i]));
        assert(ordered.contains(members[i]));
        let k = choose|k: int| 0 <= k < ordered.len() && ordered[k] == members[i];
        assert(ordered[0].rank() <= ordered[k].rank());
        assert(ordered.contains(ordered[0]));
        assert(members.contains(ordered[0]));
        let m = choose|m: int| 0 <= m < members.len() && members[m] == ordered[0];
        assert(low <= members[m].node_id);
    }
}

/// Reordering the members reorders the tokens.
proof fn lemma_tokens_reordered(members: Seq<Backend>, ordered: Seq<Backend>)
    requires
        members.to_multiset() == ordered.to_multiset(),
    ensures
        tokens_of(members).to_multiset() == tokens_of(ordered).to_multiset(),
    decreases members.len(),
{
    order::lemma_same_items(members, ordered);
    if members.len() == 0 {
        assert(tokens_of(members) =~= tokens_of(ordered));
    } else {
        let last = members.last();
        assert(members.contains(last));
        assert(ordered.contains(last));
        let k = choose|k: int| 0 <= k < ordered.len() && ordered[k] == last;
        let rest = members.drop_last();
        let other = ordered.remove(k);
        assert(members =~= rest.push(last));
        vstd::seq_lib::to_multiset_build(rest, last);
        vstd::seq_lib::to_multiset_remove(ordered, k);
        assert(rest.to_multiset() =~= members.to_multiset().remove(last));
        lemma_tokens_reordered(rest, other);
        assert(tokens_of(members) =~= tokens_of(rest).push(last.node_id));
        vstd::seq_lib::to_multiset_build(tokens_of(rest), last.node_id);
        assert(tokens_of(ordered) =~= tokens_of(other).insert(k, last.node_id));
        vstd::seq_lib::to_multiset_insert(tokens_of(other), k, last.node_id);
    }
}

/// The advertiser field of a snapshot without an advertiser.
pub const NO_ADVERTISER: u64 = u64::MAX;

/// The fixed part of an encoded snapshot.
pub open spec fn encoded_header(view: SnapshotView) -> Seq<u8> {
    let advertiser = match view.advertiser {
        Some(node) => node,
        None => NO_ADVERTISER,
    };
    wire::le_bytes(MEMBERSHIP_MAGIC as nat, 4) + wire::le_bytes(MEMBERSHIP_VERSION as nat, 2)
        + wire::le_bytes(MEMBERSHIP_HEADER_LEN as nat, 2) + wire::le_bytes(view.epoch as nat, 8)
        + wire::le_bytes(view.self_node as nat, 8) + wire::le_bytes(advertiser as nat, 8)
        + wire::le_bytes(view.members.len(), 2) + seq![0u8, 0u8, 0u8, 0u8, 0u8, 0u8]
}

/// One encoded member record.
pub open spec fn encoded_record(view: SnapshotView, member: Backend) -> Seq<u8> {
    wire::le_bytes(member.node_id as nat, 8) + member.mac@ + seq![
        if has_node(view.backends, member.node_id) {
            1u8
        } else {
            0u8
        },
        0u8,
    ]
}

/// The first `count` encoded member records.
pub open spec fn encoded_records(view: SnapshotView, count: nat) -> Seq<u8>
    decreases count,
{
    if count == 0 {
        Seq::empty()
    } else {
        encoded_records(view, (count - 1) as nat) + encoded_record(view, view.members[count - 1])
    }
}

/// The wire form of a snapshot.
pub open spec fn encoded(view: SnapshotView) -> Seq<u8> {
    encoded_header(view) + encoded_records(view, view.members.len())
}

/// A little-endian header or record field.
pub open spec fn wire_field(bytes: Seq<u8>, at: int, width: int) -> u64 {
    wire::le_value(bytes.subrange(at, at + width)) as u64
}

/// The number of records a header announces.
pub open spec fn wire_count(bytes: Seq<u8>) -> nat {
    wire_field(bytes, 32, 2) as nat
}

/// Whether a header is complete, canonical and matches the byte count.
pub open spec fn wire_header_ok(bytes: Seq<u8>) -> bool {
    &&& bytes.len() >= MEMBERSHIP_HEADER_LEN
    &&& wire_field(bytes, 0, 4) == MEMBERSHIP_MAGIC
    &&& wire_field(bytes, 4, 2) == 1 || wire_field(bytes, 4, 2) == MEMBERSHIP_VERSION
    &&& wire_field(bytes, 6, 2) == MEMBERSHIP_HEADER_LEN
    &&& forall|i: int| 34 <= i < 40 ==> bytes[i] == 0
    &&& 0 < wire_count(bytes) <= MAX_BACKENDS
    &&& bytes.len() == MEMBERSHIP_HEADER_LEN + wire_count(bytes) * MEMBERSHIP_RECORD_LEN
}

/// Where record `index` starts.
pub open spec fn record_at(index: int) -> int {
    MEMBERSHIP_HEADER_LEN + index * MEMBERSHIP_RECORD_LEN
}

/// Whether the flags and padding of record `index` are canonical.
pub open spec fn wire_record_ok(bytes: Seq<u8>, index: int) -> bool {
    let flags = bytes[record_at(index) + 14];
    &&& bytes[record_at(index) + 15] == 0
    &&& flags == 0 || (flags == MEMBER_FLAG_ELIGIBLE && wire_field(bytes, 4, 2) != 1)
}

/// The member in record `index`.
pub open spec fn wire_member(bytes: Seq<u8>, index: int) -> Backend {
    let at = record_at(index);
    Backend {
        node_id: wire_field(bytes, at, 8),
        mac: [
            bytes[at + 8],
            bytes[at + 9],
            bytes[at + 10],
            bytes[at + 11],
            bytes[at + 12],
            bytes[at + 13],
        ],
    }
}

/// The members of a wire image, in record order.
pub open spec fn wire_members(bytes: Seq<u8>) -> Seq<Backend> {
    Seq::new(wire_count(bytes), |i: int| wire_member(bytes, i))
}

/// Whether record `index` is marked as accepting new flows. Every member of a
/// first-version image does.
pub open spec fn wire_accepts(bytes: Seq<u8>, index: int) -> bool {
    wire_field(bytes, 4, 2) == 1 || bytes[record_at(index) + 14] == MEMBER_FLAG_ELIGIBLE
}

/// The tokens accepting new flows among the first `count` records.
pub open spec fn wire_eligible(bytes: Seq<u8>, count: nat) -> Seq<u64>
    decreases count,
{
    if count == 0 {
        Seq::empty()
    } else {
        let rest = wire_eligible(bytes, (count - 1) as nat);
        if wire_accepts(bytes, count - 1) {
            rest.push(wire_member(bytes, count - 1).node_id)
        } else {
            rest
        }
    }
}

/// The advertiser of a wire image.
pub open spec fn wire_advertiser(bytes: Seq<u8>) -> Option<u64> {
    if wire_field(bytes, 24, 8) == NO_ADVERTISER {
        None
    } else {
        Some(wire_field(bytes, 24, 8))
    }
}

/// Whether a wire image holds a complete snapshot.
pub open spec fn decodable(bytes: Seq<u8>) -> bool {
    &&& wire_header_ok(bytes)
    &&& forall|i: int| 0 <= i < wire_count(bytes) ==> #[trigger] wire_record_ok(bytes, i)
    &&& acceptable(
        wire_members(bytes),
        wire_eligible(bytes, wire_count(bytes)),
        wire_advertiser(bytes),
    )
}

/// `view` is the snapshot held by a wire image.
pub open spec fn decodes_to(bytes: Seq<u8>, view: SnapshotView) -> bool {
    assembled(
        view,
        wire_field(bytes, 8, 8),
        wire_field(bytes, 16, 8),
        wire_advertiser(bytes),
        wire_members(bytes),
        wire_eligible(bytes, wire_count(bytes)),
    )
}

impl BackendSnapshot {
    pub fn encode(&self) -> (bytes: Vec<u8>)
        requires
            self@.wf(),
        ensures
            bytes@ == encoded(self@),
    {
        let advertiser: u64 = match self.advertiser_node {
            Some(node) => node,
            None => NO_ADVERTISER,
        };
        let mut bytes: Vec<u8> = Vec::with_capacity(
            MEMBERSHIP_HEADER_LEN + self.members.len() * MEMBERSHIP_RECORD_LEN,
        );
        wire::push_le(&mut bytes, MEMBERSHIP_MAGIC as u64, 4);
        wire::push_le(&mut bytes, MEMBERSHIP_VERSION as u64, 2);
        wire::push_le(&mut bytes, MEMBERSHIP_HEADER_LEN as u64, 2);
        wire::push_le(&mut bytes, self.epoch, 8);
        wire::push_le(&mut bytes, self.self_node, 8);
        wire::push_le(&mut bytes, advertiser, 8);
        wire::push_le(&mut bytes, self.members.len() as u64, 2);
        wire::push_zeros(&mut bytes, 6);
        assert(Seq::new(6, |i: int| 0u8) =~= seq![0u8, 0u8, 0u8, 0u8, 0u8, 0u8]);
        assert(bytes@ =~= encoded_header(self@));
        let mut index: usize = 0;
        assert(encoded_header(self@) + encoded_records(self@, 0) =~= encoded_header(self@));
        while index < self.members.len()
            invariant
                index <= self.members@.len(),
                self@.members == self.members@,
                self@.backends == self.backends@,
                bytes@ == encoded_header(self@) + encoded_records(self@, index as nat),
            decreases self.members@.len() - index,
        {
            let ghost before = bytes@;
            let member: Backend = self.members[index];
            wire::push_le(&mut bytes, member.node_id, 8);
            wire::push_all(&mut bytes, &member.mac);
            if contains_node(self.backends.as_slice(), member.node_id) {
                bytes.push(MEMBER_FLAG_ELIGIBLE);
            } else {
                bytes.push(0);
            }
            bytes.push(0);
            assert(bytes@ =~= before + encoded_record(self@, member));
            assert(bytes@ =~= encoded_header(self@) + encoded_records(self@, (index + 1) as nat));
            index = index + 1;
        }
        bytes
    }

    pub fn decode(bytes: &[u8]) -> (snapshot: Option<Self>)
        ensures
            snapshot is Some <==> decodable(bytes@),
            snapshot matches Some(made) ==> made@.wf() && decodes_to(bytes@, made@),
    {
        if bytes.len() < MEMBERSHIP_HEADER_LEN {
            return None;
        }
        let magic: u64 = wire::read_le(bytes, 0, 4);
        let version: u64 = wire::read_le(bytes, 4, 2);
        let header_len: u64 = wire::read_le(bytes, 6, 2);
        if magic != MEMBERSHIP_MAGIC as u64 || (version != 1 && version
            != MEMBERSHIP_VERSION as u64) || header_len != MEMBERSHIP_HEADER_LEN as u64
            || !wire::all_zero(bytes, 34, 40) {
            return None;
        }
        let announced: u64 = wire::read_le(bytes, 32, 2);
        if announced == 0 || announced > MAX_BACKENDS as u64 {
            return None;
        }
        let count: usize = announced as usize;
        if bytes.len() != MEMBERSHIP_HEADER_LEN + count * MEMBERSHIP_RECORD_LEN {
            return None;
        }
        assert(wire_header_ok(bytes@));
        let mut members: Vec<Backend> = Vec::with_capacity(count);
        let mut eligible: Vec<u64> = Vec::with_capacity(count);
        let mut index: usize = 0;
        while index < count
            invariant
                index <= count <= MAX_BACKENDS,
                count == wire_count(bytes@),
                wire_header_ok(bytes@),
                version == wire_field(bytes@, 4, 2),
                members@.len() == index,
                forall|i: int| 0 <= i < index ==> #[trigger] members@[i] == wire_member(bytes@, i),
                forall|i: int| 0 <= i < index ==> #[trigger] wire_record_ok(bytes@, i),
                eligible@ == wire_eligible(bytes@, index as nat),
            decreases count - index,
        {
            let at: usize = MEMBERSHIP_HEADER_LEN + index * MEMBERSHIP_RECORD_LEN;
            let flags: u8 = bytes[at + 14];
            if bytes[at + 15] != 0 || (version == 1 && flags != 0) || flags
                > MEMBER_FLAG_ELIGIBLE {
                assert(!wire_record_ok(bytes@, index as int));
                return None;
            }
            let backend: Backend = Backend {
                node_id: wire::read_le(bytes, at, 8),
                mac: [
                    bytes[at + 8],
                    bytes[at + 9],
                    bytes[at + 10],
                    bytes[at + 11],
                    bytes[at + 12],
                    bytes[at + 13],
                ],
            };
            assert(backend == wire_member(bytes@, index as int)) by {
                assert(backend.mac =~= wire_member(bytes@, index as int).mac);
            }
            if version == 1 || flags == MEMBER_FLAG_ELIGIBLE {
                eligible.push(backend.node_id);
            }
            members.push(backend);
            assert(wire_record_ok(bytes@, index as int));
            index = index + 1;
        }
        assert(members@ =~= wire_members(bytes@));
        let advertiser: u64 = wire::read_le(bytes, 24, 8);
        Self::new_with_members(
            wire::read_le(bytes, 8, 8),
            wire::read_le(bytes, 16, 8),
            if advertiser == NO_ADVERTISER {
                None
            } else {
                Some(advertiser)
            },
            members,
            eligible,
        )
    }
}

/// A field that was written as `value` reads back as `value`.
proof fn lemma_field(bytes: Seq<u8>, at: int, width: nat, value: u64)
    requires
        0 <= at,
        at + width <= bytes.len(),
        value < wire::byte_capacity(width),
        bytes.subrange(at, at + width) == wire::le_bytes(value as nat, width),
    ensures
        wire_field(bytes, at, width as int) == value,
{
    wire::lemma_le_round_trip(value as nat, width);
}

/// Where each record lies in the wire form.
proof fn lemma_encoded_records(view: SnapshotView, count: nat, index: int)
    requires
        0 <= index < count,
    ensures
        encoded_records(view, count).len() == count * MEMBERSHIP_RECORD_LEN,
        encoded_records(view, count).subrange(index * 16, index * 16 + 16) == encoded_record(
            view,
            view.members[index],
        ),
        encoded_record(view, view.members[index]).len() == MEMBERSHIP_RECORD_LEN,
    decreases count,
{
    wire::lemma_le_bytes_len(view.members[index].node_id as nat, 8);
    wire::lemma_le_bytes_len(view.members[count - 1].node_id as nat, 8);
    let rest = encoded_records(view, (count - 1) as nat);
    if count > 1 {
        lemma_encoded_records(
            view,
            (count - 1) as nat,
            if index < count - 1 {
                index
            } else {
                0
            },
        );
    } else {
        assert(rest.len() == 0);
    }
    let all = encoded_records(view, count);
    if index < count - 1 {
        assert(all.subrange(index * 16, index * 16 + 16) =~= rest.subrange(
            index * 16,
            index * 16 + 16,
        ));
    } else {
        assert(all.subrange(index * 16, index * 16 + 16) =~= encoded_record(
            view,
            view.members[index],
        ));
    }
}

/// The header fields of the wire form.
proof fn lemma_encoded_header(view: SnapshotView)
    requires
        view.wf(),
    ensures
        encoded_header(view).len() == MEMBERSHIP_HEADER_LEN,
        ({
            let bytes = encoded(view);
            &&& wire_header_ok(bytes)
            &&& wire_field(bytes, 4, 2) == MEMBERSHIP_VERSION
            &&& wire_count(bytes) == view.members.len()
            &&& wire_field(bytes, 8, 8) == view.epoch
            &&& wire_field(bytes, 16, 8) == view.self_node
            &&& wire_field(bytes, 24, 8) == match view.advertiser {
                Some(node) => node,
                None => NO_ADVERTISER,
            }
            &&& bytes.subrange(0, 4) == wire::le_bytes(MEMBERSHIP_MAGIC as nat, 4)
            &&& bytes.subrange(4, 6) == wire::le_bytes(MEMBERSHIP_VERSION as nat, 2)
            &&& bytes.subrange(6, 8) == wire::le_bytes(MEMBERSHIP_HEADER_LEN as nat, 2)
            &&& bytes.subrange(8, 16) == wire::le_bytes(view.epoch as nat, 8)
            &&& bytes.subrange(16, 24) == wire::le_bytes(view.self_node as nat, 8)
            &&& bytes.subrange(24, 32) == wire::le_bytes(
                match view.advertiser {
                    Some(node) => node as nat,
                    None => NO_ADVERTISER as nat,
                },
                8,
            )
            &&& bytes.subrange(32, 34) == wire::le_bytes(view.members.len(), 2)
        }),
{
    let advertiser = match view.advertiser {
        Some(node) => node,
        None => NO_ADVERTISER,
    };
    wire::lemma_le_bytes_len(MEMBERSHIP_MAGIC as nat, 4);
    wire::lemma_le_bytes_len(MEMBERSHIP_VERSION as nat, 2);
    wire::lemma_le_bytes_len(MEMBERSHIP_HEADER_LEN as nat, 2);
    wire::lemma_le_bytes_len(view.epoch as nat, 8);
    wire::lemma_le_bytes_len(view.self_node as nat, 8);
    wire::lemma_le_bytes_len(advertiser as nat, 8);
    wire::lemma_le_bytes_len(view.members.len(), 2);
    wire::lemma_byte_capacities();
    lemma_encoded_records(view, view.members.len(), 0);
    let bytes = encoded(view);
    assert(bytes.subrange(0, 4) =~= wire::le_bytes(MEMBERSHIP_MAGIC as nat, 4));
    assert(bytes.subrange(4, 6) =~= wire::le_bytes(MEMBERSHIP_VERSION as nat, 2));
    assert(bytes.subrange(6, 8) =~= wire::le_bytes(MEMBERSHIP_HEADER_LEN as nat, 2));
    assert(bytes.subrange(8, 16) =~= wire::le_bytes(view.epoch as nat, 8));
    assert(bytes.subrange(16, 24) =~= wire::le_bytes(view.self_node as nat, 8));
    assert(bytes.subrange(24, 32) =~= wire::le_bytes(advertiser as nat, 8));
    assert(bytes.subrange(32, 34) =~= wire::le_bytes(view.members.len(), 2));
    lemma_field(bytes, 0, 4, MEMBERSHIP_MAGIC as u64);
    lemma_field(bytes, 4, 2, MEMBERSHIP_VERSION as u64);
    lemma_field(bytes, 6, 2, MEMBERSHIP_HEADER_LEN as u64);
    lemma_field(bytes, 8, 8, view.epoch);
    lemma_field(bytes, 16, 8, view.self_node);
    lemma_field(bytes, 24, 8, advertiser);
    lemma_field(bytes, 32, 2, view.members.len() as u64);
}

/// The record of each member in the wire form.
proof fn lemma_encoded_member(view: SnapshotView, index: int)
    requires
        view.wf(),
        0 <= index < view.members.len(),
    ensures
        wire_member(encoded(view), index) == view.members[index],
        wire_record_ok(encoded(view), index),
        wire_accepts(encoded(view), index) == has_node(
            view.backends,
            view.members[index].node_id,
        ),
        encoded(view).subrange(record_at(index), record_at(index) + 16) == encoded_record(
            view,
            view.members[index],
        ),
{
    lemma_encoded_header(view);
    lemma_encoded_records(view, view.members.len(), index);
    wire::lemma_byte_capacities();
    let bytes = encoded(view);
    let member = view.members[index];
    let record = encoded_record(view, member);
    let at = record_at(index);
    wire::lemma_le_bytes_len(member.node_id as nat, 8);
    assert(bytes.subrange(at, at + 16) =~= record) by {
        assert(bytes.subrange(at, at + 16) =~= encoded_records(
            view,
            view.members.len(),
        ).subrange(index * 16, index * 16 + 16));
    }
    assert forall|k: int| 0 <= k < 16 implies bytes[at + k] == record[k] by {
        assert(bytes.subrange(at, at + 16)[k] == bytes[at + k]);
    }
    assert(bytes.subrange(at, at + 8) =~= wire::le_bytes(member.node_id as nat, 8)) by {
        assert forall|k: int| 0 <= k < 8 implies #[trigger] bytes.subrange(at, at + 8)[k]
            == wire::le_bytes(member.node_id as nat, 8)[k] by {
            assert(bytes[at + k] == record[k]);
        }
    }
    lemma_field(bytes, at, 8, member.node_id);
    assert(bytes[at + 8] == record[8]);
    assert(bytes[at + 9] == record[9]);
    assert(bytes[at + 10] == record[10]);
    assert(bytes[at + 11] == record[11]);
    assert(bytes[at + 12] == record[12]);
    assert(bytes[at + 13] == record[13]);
    assert(bytes[at + 14] == record[14]);
    assert(bytes[at + 15] == record[15]);
    assert(wire_member(bytes, index).mac =~= member.mac);
}

/// The tokens marked in the first `count` records.
proof fn lemma_encoded_eligible(view: SnapshotView, count: nat)
    requires
        view.wf(),
        count <= view.members.len(),
    ensures
        wire_eligible(encoded(view), count) == tokens_of(
            view.members.subrange(0, count as int).filter(
                |m: Backend| has_node(view.backends, m.node_id),
            ),
        ),
    decreases count,
{
    reveal(Seq::filter);
    let keep = |m: Backend| has_node(view.backends, m.node_id);
    if count > 0 {
        lemma_encoded_eligible(view, (count - 1) as nat);
        lemma_encoded_member(view, count - 1);
        let part = view.members.subrange(0, count as int);
        assert(part.drop_last() =~= view.members.subrange(0, count - 1));
        assert(tokens_of(part.filter(keep)) =~= wire_eligible(encoded(view), count));
    } else {
        assert(tokens_of(view.members.subrange(0, 0).filter(keep)) =~= Seq::<u64>::empty());
    }
}

/// Tokens of distinct members are distinct and known.
proof fn lemma_own_parts_acceptable(view: SnapshotView)
    requires
        view.wf(),
    ensures
        acceptable(view.members, tokens_of(view.backends), view.advertiser),
        assembled(
            view,
            view.epoch,
            view.self_node,
            view.advertiser,
            view.members,
            tokens_of(view.backends),
        ),
{
    let keep = |m: Backend| has_node(view.backends, m.node_id);
    lemma_filter_ascending(view.members, keep);
    let tokens = tokens_of(view.backends);
    view.members.lemma_filter_len(keep);
    assert forall|i: int, j: int| 0 <= i < j < tokens.len() implies tokens[i] != tokens[j] by {
        assert(view.backends[i].rank() < view.backends[j].rank());
    }
    assert forall|i: int| 0 <= i < tokens.len() implies has_node(
        view.members,
        #[trigger] tokens[i],
    ) by {
        assert(view.backends.contains(view.backends[i]));
        assert(view.members.contains(view.backends[i]));
        let k = choose|k: int| 0 <= k < view.members.len() && view.members[k] == view.backends[i];
        assert(view.members[k].node_id == tokens[i]);
    }
    assert forall|node: u64| tokens.contains(node) <==> has_node(view.backends, node) by {
        if tokens.contains(node) {
            let i = choose|i: int| 0 <= i < tokens.len() && tokens[i] == node;
            assert(view.backends[i].node_id == node);
        }
        if has_node(view.backends, node) {
            let i = choose|i: int|
                0 <= i < view.backends.len() && (#[trigger] view.backends[i]).node_id == node;
            assert(tokens[i] == node);
        }
    }
    lemma_filter_agree(view.members, keep, |m: Backend| tokens.contains(m.node_id));
}

/// The parts of a snapshot determine it.
pub proof fn law_assembly_is_deterministic(
    one: SnapshotView,
    two: SnapshotView,
    members: Seq<Backend>,
    eligible: Seq<u64>,
)
    requires
        assembled(one, one.epoch, one.self_node, one.advertiser, members, eligible),
        assembled(two, one.epoch, one.self_node, one.advertiser, members, eligible),
    ensures
        one == two,
{
    order::lemma_same_items(one.members, members);
    order::lemma_same_items(two.members, members);
    order::lemma_strictly_ascending_unique(one.members, two.members);
}

/// Decoding the wire form of a snapshot succeeds and yields that snapshot. A
/// snapshot whose advertiser has the token reserved for "none" is excluded.
pub proof fn law_snapshot_round_trip(view: SnapshotView)
    requires
        view.wf(),
        view.advertiser != Some(NO_ADVERTISER),
    ensures
        decodable(encoded(view)),
        forall|other: SnapshotView| decodes_to(encoded(view), other) <==> other == view,
{
    let bytes = encoded(view);
    lemma_encoded_header(view);
    assert forall|i: int| 0 <= i < wire_count(bytes) implies #[trigger] wire_record_ok(
        bytes,
        i,
    ) by {
        lemma_encoded_member(view, i);
    }
    assert(wire_members(bytes) =~= view.members) by {
        assert forall|i: int| 0 <= i < view.members.len() implies #[trigger] wire_members(bytes)[i]
            == view.members[i] by {
            lemma_encoded_member(view, i);
        }
    }
    lemma_encoded_eligible(view, view.members.len());
    assert(view.members.subrange(0, view.members.len() as int) =~= view.members);
    assert(wire_eligible(bytes, wire_count(bytes)) == tokens_of(view.backends));
    lemma_own_parts_acceptable(view);
    assert forall|other: SnapshotView| decodes_to(bytes, other) implies other == view by {
        law_assembly_is_deterministic(view, other, view.members, tokens_of(view.backends));
    }
}

/// One drained node and its drain generation, as hashed into a policy epoch.
pub open spec fn drain_bytes(marks: Seq<(u64, u64)>) -> Seq<u8>
    decreases marks.len(),
{
    if marks.len() == 0 {
        Seq::empty()
    } else {
        drain_bytes(marks.drop_last()) + wire::le_bytes(marks.last().0 as nat, 8) + wire::le_bytes(
            marks.last().1 as nat,
            8,
        )
    }
}

/// The order in which drain marks are hashed.
pub open spec fn mark_order() -> spec_fn((u64, u64), (u64, u64)) -> bool {
    |a: (u64, u64), b: (u64, u64)| a.rank() <= b.rank()
}

/// The epoch of a committed membership with these drain marks.
pub open spec fn policy_epoch(membership_epoch: u64, marks: Seq<(u64, u64)>) -> u64 {
    hash::avalanched(
        hash::fnv_fold(
            hash::FNV_OFFSET,
            POLICY_DOMAIN@ + wire::le_bytes(membership_epoch as nat, 8) + drain_bytes(
                marks.sort_by(mark_order()),
            ),
        ),
    )
}

/// The drain-mark order is total.
proof fn lemma_mark_order_total()
    ensures
        vstd::relations::total_ordering(mark_order()),
{
    assert forall|a: (u64, u64), b: (u64, u64)| a.rank() == b.rank() implies a == b by {
        assert(a.0 == b.0 && a.1 == b.1) by (nonlinear_arith)
            requires
                a.0 * 0x1_0000_0000_0000_0000 + a.1 == b.0 * 0x1_0000_0000_0000_0000 + b.1,
        ;
    }
}

/// Produce the load-balancing epoch from committed membership plus replicated
/// drain generations. The explicit hash is stable on every node and changes
/// only when the backend policy changes, not for unrelated catalog traffic.
pub fn load_balancing_epoch(membership_epoch: u64, draining_nodes: &[(u64, u64)]) -> (epoch: u64)
    ensures
        epoch == policy_epoch(membership_epoch, draining_nodes@),
{
    let marks: Vec<(u64, u64)> = order::sorted(draining_nodes);
    proof {
        lemma_mark_order_total();
        let arranged = draining_nodes@.sort_by(mark_order());
        draining_nodes@.lemma_sort_by_ensures(mark_order());
        assert(vstd::relations::sorted_by(marks@, mark_order()));
        vstd::seq_lib::lemma_sorted_unique(marks@, arranged, mark_order());
        assert(marks@ == arranged);
    }
    let mut input: Vec<u8> = Vec::new();
    wire::push_all(&mut input, &POLICY_DOMAIN);
    wire::push_le(&mut input, membership_epoch, 8);
    let ghost head = POLICY_DOMAIN@ + wire::le_bytes(membership_epoch as nat, 8);
    let mut index: usize = 0;
    assert(marks@.subrange(0, 0) =~= Seq::<(u64, u64)>::empty());
    assert(input@ =~= head + drain_bytes(marks@.subrange(0, 0)));
    while index < marks.len()
        invariant
            index <= marks@.len(),
            input@ == head + drain_bytes(marks@.subrange(0, index as int)),
        decreases marks@.len() - index,
    {
        let ghost before = input@;
        wire::push_le(&mut input, marks[index].0, 8);
        wire::push_le(&mut input, marks[index].1, 8);
        proof {
            let next = marks@.subrange(0, index + 1);
            assert(next.drop_last() =~= marks@.subrange(0, index as int));
            assert(input@ =~= head + drain_bytes(next));
        }
        index = index + 1;
    }
    assert(marks@.subrange(0, marks@.len() as int) =~= marks@);
    hash::avalanche(hash::fnv1a64(input.as_slice()))
}

/// The policy epoch does not depend on the order in which drains are listed.
pub proof fn law_epoch_ignores_order(
    membership_epoch: u64,
    one: Seq<(u64, u64)>,
    two: Seq<(u64, u64)>,
)
    requires
        one.to_multiset() == two.to_multiset(),
    ensures
        policy_epoch(membership_epoch, one) == policy_epoch(membership_epoch, two),
{
    lemma_mark_order_total();
    one.lemma_sort_by_ensures(mark_order());
    two.lemma_sort_by_ensures(mark_order());
    vstd::seq_lib::lemma_sorted_unique(
        one.sort_by(mark_order()),
        two.sort_by(mark_order()),
        mark_order(),
    );
}

/// What the rendezvous weight of a node for a flow is computed from.
pub open spec fn rendezvous_input(service: ServiceId, flow: FlowKey, node_id: u64) -> Seq<u8> {
    RENDEZVOUS_DOMAIN@ + service.address@ + seq![service.protocol] + wire::be_bytes(
        service.port as nat,
        2,
    ) + seq![flow.protocol] + flow.src_addr@ + flow.dst_addr@ + wire::be_bytes(
        flow.src_port as nat,
        2,
    ) + wire::be_bytes(flow.dst_port as nat, 2) + wire::le_bytes(node_id as nat, 8)
}

/// The rendezvous weight of a node for a flow.
pub open spec fn weight(service: ServiceId, flow: FlowKey, node_id: u64) -> u64 {
    hash::avalanched(hash::fnv_fold(hash::FNV_OFFSET, rendezvous_input(service, flow, node_id)))
}

/// Nodes compete by weight, and by token where weights are equal.
pub open spec fn standing(service: ServiceId, flow: FlowKey, backend: Backend) -> int {
    weight(service, flow, backend.node_id) * 0x1_0000_0000_0000_0000 + backend.node_id
}

/// The member of `backends` with the highest standing.
pub open spec fn winner(
    service: ServiceId,
    flow: FlowKey,
    backends: Seq<Backend>,
) -> Option<Backend>
    decreases backends.len(),
{
    if backends.len() == 0 {
        None
    } else {
        match winner(service, flow, backends.drop_last()) {
            Some(best) if standing(service, flow, best) > standing(
                service,
                flow,
                backends.last(),
            ) => Some(best),
            _ => Some(backends.last()),
        }
    }
}

/// The backend that a new flow of a service goes to.
pub open spec fn selected(
    service: ServiceId,
    flow: FlowKey,
    snapshot: SnapshotView,
) -> Option<Backend> {
    if service.valid() && flow.protocol == service.protocol {
        winner(service, flow, snapshot.backends)
    } else {
        None
    }
}

fn rendezvous_score(service: &ServiceId, flow: &FlowKey, node_id: u64) -> (score: u64)
    ensures
        score == weight(*service, *flow, node_id),
{
    let mut input: Vec<u8> = Vec::new();
    wire::push_all(&mut input, &RENDEZVOUS_DOMAIN);
    wire::push_all(&mut input, &service.address);
    input.push(service.protocol);
    wire::push_be(&mut input, service.port as u64, 2);
    input.push(flow.protocol);
    wire::push_all(&mut input, &flow.src_addr);
    wire::push_all(&mut input, &flow.dst_addr);
    wire::push_be(&mut input, flow.src_port as u64, 2);
    wire::push_be(&mut input, flow.dst_port as u64, 2);
    wire::push_le(&mut input, node_id, 8);
    assert(input@ =~= rendezvous_input(*service, *flow, node_id));
    hash::avalanche(hash::fnv1a64(input.as_slice()))
}

/// Select one backend using highest-random-weight (rendezvous) hashing.
///
/// The snapshot's epoch deliberately does not seed the score. The epoch
/// selects the backend *set* retained for a flow; keeping it out of the hash
/// means an addition only moves flows won by the new member instead of
/// reshuffling all connections.
pub fn select_backend(
    service: &ServiceId,
    flow: &FlowKey,
    snapshot: &BackendSnapshot,
) -> (backend: Option<Backend>)
    ensures
        backend == selected(*service, *flow, snapshot@),
{
    if !service.is_valid() || flow.protocol != service.protocol {
        return None;
    }
    let mut best: Option<(u64, Backend)> = None;
    let mut index: usize = 0;
    assert(snapshot@.backends.subrange(0, 0) =~= Seq::<Backend>::empty());
    while index < snapshot.backends.len()
        invariant
            index <= snapshot.backends@.len(),
            snapshot@.backends == snapshot.backends@,
            match best {
                Some((score, backend)) => score == weight(*service, *flow, backend.node_id)
                    && winner(*service, *flow, snapshot@.backends.subrange(0, index as int))
                    == Some(backend),
                None => winner(*service, *flow, snapshot@.backends.subrange(0, index as int))
                    is None,
            },
        decreases snapshot.backends@.len() - index,
    {
        let candidate: Backend = snapshot.backends[index];
        let score: u64 = rendezvous_score(service, flow, candidate.node_id);
        proof {
            let next = snapshot@.backends.subrange(0, index + 1);
            assert(next.drop_last() =~= snapshot@.backends.subrange(0, index as int));
            assert(next.last() == candidate);
        }
        match best {
            Some((high, backend)) => {
                if !(high > score || (high == score && backend.node_id > candidate.node_id)) {
                    best = Some((score, candidate));
                }
            },
            None => {
                best = Some((score, candidate));
            },
        }
        index = index + 1;
    }
    assert(snapshot@.backends.subrange(0, snapshot@.backends.len() as int)
        =~= snapshot@.backends);
    match best {
        Some((_, backend)) => Some(backend),
        None => None,
    }
}

/// The winner is a candidate that no candidate stands above.
proof fn lemma_winner(service: ServiceId, flow: FlowKey, backends: Seq<Backend>)
    ensures
        backends.len() > 0 <==> winner(service, flow, backends) is Some,
        winner(service, flow, backends) matches Some(best) ==> backends.contains(best) && forall|
            i: int,
        |
            0 <= i < backends.len() ==> standing(service, flow, #[trigger] backends[i])
                <= standing(service, flow, best),
    decreases backends.len(),
{
    if backends.len() > 0 {
        let rest = backends.drop_last();
        lemma_winner(service, flow, rest);
        let best = winner(service, flow, backends).unwrap();
        if rest.contains(best) {
            let k = choose|k: int| 0 <= k < rest.len() && rest[k] == best;
            assert(backends[k] == best);
        } else {
            assert(backends[backends.len() - 1] == best);
        }
        assert forall|i: int| 0 <= i < backends.len() implies standing(
            service,
            flow,
            #[trigger] backends[i],
        ) <= standing(service, flow, best) by {
            if i < rest.len() {
                assert(rest[i] == backends[i]);
            }
        }
    }
}

/// Backends of a snapshot stand at different heights.
proof fn lemma_standing_injective(service: ServiceId, flow: FlowKey, a: Backend, b: Backend)
    requires
        standing(service, flow, a) == standing(service, flow, b),
    ensures
        a.node_id == b.node_id,
{
}

/// A candidate that nobody stands above is the winner.
proof fn lemma_winner_unique(
    service: ServiceId,
    flow: FlowKey,
    backends: Seq<Backend>,
    best: Backend,
)
    requires
        distinct_members(backends),
        backends.contains(best),
        forall|i: int|
            0 <= i < backends.len() ==> standing(service, flow, #[trigger] backends[i])
                <= standing(service, flow, best),
    ensures
        winner(service, flow, backends) == Some(best),
{
    lemma_winner(service, flow, backends);
    let other = winner(service, flow, backends).unwrap();
    let i = choose|i: int| 0 <= i < backends.len() && backends[i] == best;
    let j = choose|j: int| 0 <= j < backends.len() && backends[j] == other;
    assert(standing(service, flow, backends[i]) <= standing(service, flow, other));
    assert(standing(service, flow, backends[j]) <= standing(service, flow, best));
    lemma_standing_injective(service, flow, best, other);
    if i < j {
        assert(backends[i].node_id != backends[j].node_id);
    } else if j < i {
        assert(backends[j].node_id != backends[i].node_id);
    }
}

/// Selection does not depend on the order of the candidates.
pub proof fn law_selection_ignores_order(
    service: ServiceId,
    flow: FlowKey,
    one: Seq<Backend>,
    two: Seq<Backend>,
)
    requires
        distinct_members(one),
        distinct_members(two),
        forall|b: Backend| one.contains(b) <==> two.contains(b),
    ensures
        winner(service, flow, one) == winner(service, flow, two),
{
    lemma_winner(service, flow, one);
    lemma_winner(service, flow, two);
    if one.len() == 0 {
        if two.len() > 0 {
            assert(two.contains(two[0]));
        }
    } else {
        let best = winner(service, flow, one).unwrap();
        assert forall|i: int| 0 <= i < two.len() implies standing(
            service,
            flow,
            #[trigger] two[i],
        ) <= standing(service, flow, best) by {
            assert(two.contains(two[i]));
            let k = choose|k: int| 0 <= k < one.len() && one[k] == two[i];
            assert(standing(service, flow, one[k]) <= standing(service, flow, best));
        }
        lemma_winner_unique(service, flow, two, best);
    }
}

/// Adding a member moves a flow to that member or not at all.
pub proof fn law_addition_moves_only_its_winners(
    service: ServiceId,
    flow: FlowKey,
    before: Seq<Backend>,
    after: Seq<Backend>,
    added: Backend,
)
    requires
        distinct_members(before),
        distinct_members(after),
        before.len() > 0,
        forall|b: Backend| after.contains(b) <==> before.contains(b) || b == added,
    ensures
        winner(service, flow, after) == winner(service, flow, before) || winner(
            service,
            flow,
            after,
        ) == Some(added),
{
    lemma_winner(service, flow, before);
    lemma_winner(service, flow, after);
    assert(before.contains(before[0]));
    assert(after.contains(before[0]));
    let best = winner(service, flow, after).unwrap();
    if best != added {
        assert(before.contains(best));
        assert forall|i: int| 0 <= i < before.len() implies standing(
            service,
            flow,
            #[trigger] before[i],
        ) <= standing(service, flow, best) by {
            assert(before.contains(before[i]));
            assert(after.contains(before[i]));
            let k = choose|k: int| 0 <= k < after.len() && after[k] == before[i];
            assert(standing(service, flow, after[k]) <= standing(service, flow, best));
        }
        lemma_winner_unique(service, flow, before, best);
    }
}

/// Removing other members leaves a flow with its surviving winner.
pub proof fn law_removal_preserves_survivors(
    service: ServiceId,
    flow: FlowKey,
    before: Seq<Backend>,
    after: Seq<Backend>,
    survivor: Backend,
)
    requires
        distinct_members(after),
        forall|b: Backend| after.contains(b) ==> before.contains(b),
        winner(service, flow, before) == Some(survivor),
        after.contains(survivor),
    ensures
        winner(service, flow, after) == Some(survivor),
{
    lemma_winner(service, flow, before);
    assert forall|i: int| 0 <= i < after.len() implies standing(
        service,
        flow,
        #[trigger] after[i],
    ) <= standing(service, flow, survivor) by {
        assert(after.contains(after[i]));
        let k = choose|k: int| 0 <= k < before.len() && before[k] == after[i];
        assert(standing(service, flow, before[k]) <= standing(service, flow, survivor));
    }
    lemma_winner_unique(service, flow, after, survivor);
}

/// Snapshots with the same accepting members select alike, whoever computes it
/// and whatever epoch labels them.
pub proof fn law_selection_needs_no_shared_state(
    service: ServiceId,
    flow: FlowKey,
    one: SnapshotView,
    two: SnapshotView,
)
    requires
        one.wf(),
        two.wf(),
        forall|b: Backend| one.backends.contains(b) <==> two.backends.contains(b),
    ensures
        selected(service, flow, one) == selected(service, flow, two),
{
    let keep_one = |m: Backend| has_node(one.backends, m.node_id);
    let keep_two = |m: Backend| has_node(two.backends, m.node_id);
    lemma_filter_ascending(one.members, keep_one);
    lemma_filter_ascending(two.members, keep_two);
    order::lemma_strictly_ascending_unique(one.backends, two.backends);
}

/// With every member drained nothing is selected and nobody advertises.
pub proof fn law_drained_snapshot_selects_nothing(
    service: ServiceId,
    flow: FlowKey,
    snapshot: SnapshotView,
)
    requires
        snapshot.wf(),
        snapshot.backends.len() == 0,
    ensures
        selected(service, flow, snapshot) is None,
        snapshot.advertiser is None,
{
}

/// The epoch that a live flow is pinned to.
#[derive(Clone, Copy, Debug, Eq, PartialEq)]
pub struct FlowBinding {
    pub flow: FlowKey,
    pub epoch: u64,
    pub last_seen: u64,
}

/// What a flow table holds.
pub struct FlowTableView {
    pub entries: Seq<FlowBinding>,
    pub capacity: nat,
    pub clock: u64,
}

impl FlowTableView {
    /// At most `capacity` flows, each bound once.
    pub open spec fn wf(self) -> bool {
        &&& self.entries.len() <= self.capacity
        &&& forall|i: int, j: int|
            0 <= i < j < self.entries.len() ==> (#[trigger] self.entries[i]).flow != (
            #[trigger] self.entries[j]).flow
    }

    /// Entry `index` binds `flow`.
    pub open spec fn binds(self, flow: FlowKey, index: int) -> bool {
        0 <= index < self.entries.len() && self.entries[index].flow == flow
    }

    /// Some entry binds `flow`.
    pub open spec fn knows(self, flow: FlowKey) -> bool {
        exists|i: int| #[trigger] self.binds(flow, i)
    }

    /// Entry `index` is the first of those seen least recently.
    pub open spec fn oldest(self, index: int) -> bool {
        &&& 0 <= index < self.entries.len()
        &&& forall|i: int|
            0 <= i < self.entries.len() ==> self.entries[index].last_seen <= (
            #[trigger] self.entries[i]).last_seen
        &&& forall|i: int|
            0 <= i < index ==> self.entries[index].last_seen < (
            #[trigger] self.entries[i]).last_seen
    }
}

/// The table clock after one more packet. It never reads zero.
pub open spec fn next_clock(clock: u64) -> u64 {
    if clock == u64::MAX {
        1
    } else {
        (clock + 1) as u64
    }
}

/// Removing entry `index` by moving the last entry into its place.
pub open spec fn swap_removed(entries: Seq<FlowBinding>, index: int) -> Seq<FlowBinding> {
    entries.update(index, entries.last()).drop_last()
}

/// `after` and `epoch` are the outcome of observing `packet` in `before`.
pub open spec fn observed(
    before: FlowTableView,
    packet: ParsedFlow,
    current_epoch: u64,
    after: FlowTableView,
    epoch: u64,
) -> bool {
    let clock = next_clock(before.clock);
    let fresh = FlowBinding { flow: packet.key, epoch: current_epoch, last_seen: clock };
    &&& after.capacity == before.capacity
    &&& after.clock == clock
    &&& if before.knows(packet.key) {
        forall|i: int| #[trigger]
            before.binds(packet.key, i) ==> {
                let bound = before.entries[i];
                &&& epoch == bound.epoch
                &&& after.entries == if packet.terminal {
                    swap_removed(before.entries, i)
                } else {
                    before.entries.update(
                        i,
                        FlowBinding { flow: bound.flow, epoch: bound.epoch, last_seen: clock },
                    )
                }
            }
    } else {
        &&& epoch == current_epoch
        &&& if packet.terminal || before.capacity == 0 {
            after.entries == before.entries
        } else if before.entries.len() < before.capacity {
            after.entries == before.entries.push(fresh)
        } else {
            exists|i: int| #[trigger]
                before.oldest(i) && after.entries == swap_removed(before.entries, i).push(fresh)
        }
    }
}

/// Bounded ingress-local flow-to-membership-epoch cache.
pub struct FlowEpochTable {
    entries: Vec<FlowBinding>,
    capacity: usize,
    clock: u64,
}

impl View for FlowEpochTable {
    type V = FlowTableView;

    closed spec fn view(&self) -> FlowTableView {
        FlowTableView {
            entries: self.entries@,
            capacity: self.capacity as nat,
            clock: self.clock,
        }
    }
}

/// The binding survives because its backend is still a member.
pub open spec fn keeps_backend(
    service: ServiceId,
    history: Seq<SnapshotView>,
    current: SnapshotView,
    entry: FlowBinding,
) -> bool {
    match snapshot_of(history, entry.epoch) {
        Some(snapshot) => match selected(service, entry.flow, snapshot) {
            Some(backend) => has_node(current.members, backend.node_id),
            None => false,
        },
        None => false,
    }
}

impl FlowEpochTable {
    pub fn new(capacity: usize) -> (table: Self)
        ensures
            table@.wf(),
            table@.entries.len() == 0,
            table@.capacity == capacity,
            table@.clock == 0,
    {
        Self { entries: Vec::new(), capacity, clock: 0 }
    }

    pub fn len(&self) -> (len: usize)
        ensures
            len == self@.entries.len(),
    {
        self.entries.len()
    }

    pub fn is_empty(&self) -> (empty: bool)
        ensures
            empty == (self@.entries.len() == 0),
    {
        self.entries.len() == 0
    }

    /// The index of the entry that binds `flow`.
    fn position(&self, flow: &FlowKey) -> (found: Option<usize>)
        ensures
            match found {
                Some(index) => self@.binds(*flow, index as int),
                None => !self@.knows(*flow),
            },
    {
        let mut index: usize = 0;
        while index < self.entries.len()
            invariant
                index <= self.entries@.len(),
                forall|i: int| 0 <= i < index ==> !#[trigger] self@.binds(*flow, i),
            decreases self.entries@.len() - index,
        {
            if self.entries[index].flow.same(flow) {
                return Some(index);
            }
            assert(!self@.binds(*flow, index as int));
            index = index + 1;
        }
        None
    }

    /// The index of the entry seen least recently.
    fn oldest_index(&self) -> (index: usize)
        requires
            self@.entries.len() > 0,
        ensures
            self@.oldest(index as int),
    {
        let mut best: usize = 0;
        let mut index: usize = 1;
        while index < self.entries.len()
            invariant
                best < index <= self.entries@.len(),
                self@.entries == self.entries@,
                forall|i: int|
                    0 <= i < index ==> self@.entries[best as int].last_seen <= (
                    #[trigger] self@.entries[i]).last_seen,
                forall|i: int|
                    0 <= i < best ==> self@.entries[best as int].last_seen < (
                    #[trigger] self@.entries[i]).last_seen,
            decreases self.entries@.len() - index,
        {
            if self.entries[index].last_seen < self.entries[best].last_seen {
                best = index;
            }
            index = index + 1;
        }
        best
    }

    /// Return the epoch to use for this packet. Existing entries win even for
    /// a retransmitted initial SYN. FIN/RST releases the entry after returning
    /// its pinned epoch for the terminal packet itself.
    pub fn observe(&mut self, packet: &ParsedFlow, current_epoch: u64) -> (epoch: u64)
        requires
            old(self)@.wf(),
        ensures
            final(self)@.wf(),
            observed(old(self)@, *packet, current_epoch, final(self)@, epoch),
    {
        let ghost before = self@;
        if self.clock == u64::MAX {
            self.clock = 1;
        } else {
            self.clock = self.clock + 1;
        }
        match self.position(&packet.key) {
            Some(index) => {
                assert(self@.binds(packet.key, index as int));
                assert(before.binds(packet.key, index as int));
                assert forall|i: int| #[trigger] before.binds(packet.key, i) implies i == index by {
                    if i < index {
                        assert(before.entries[i].flow != before.entries[index as int].flow);
                    } else if index < i {
                        assert(before.entries[index as int].flow != before.entries[i].flow);
                    }
                }
                let bound: FlowBinding = self.entries[index];
                if packet.terminal {
                    self.entries.swap_remove(index);
                    assert(self@.wf()) by {
                        lemma_swap_removed_wf(before, index as int);
                    }
                } else {
                    let clock: u64 = self.clock;
                    self.entries.set(
                        index,
                        FlowBinding { flow: bound.flow, epoch: bound.epoch, last_seen: clock },
                    );
                    assert(forall|i: int|
                        0 <= i < self@.entries.len() ==> (#[trigger] self@.entries[i]).flow
                            == before.entries[i].flow);
                }
                return bound.epoch;
            },
            None => {},
        }
        assert(!before.knows(packet.key)) by {
            assert(forall|i: int| before.binds(packet.key, i) ==> self@.binds(packet.key, i));
        }
        if !packet.terminal && self.capacity != 0 {
            if self.entries.len() == self.capacity {
                let oldest: usize = self.oldest_index();
                assert(before.oldest(oldest as int)) by {
                    assert(self@.oldest(oldest as int));
                }
                self.entries.swap_remove(oldest);
                proof {
                    lemma_swap_removed_wf(before, oldest as int);
                }
            }
            let clock: u64 = self.clock;
            let ghost room = self@.entries;
            self.entries.push(
                FlowBinding { flow: packet.key, epoch: current_epoch, last_seen: clock },
            );
            proof {
                assert forall|i: int| 0 <= i < room.len() implies (#[trigger] room[i]).flow
                    != packet.key by {
                    if before.entries.len() == before.capacity {
                        let k = choose|k: int|
                            0 <= k < before.entries.len() && #[trigger] before.entries[k]
                                == room[i];
                        assert(!before.binds(packet.key, k));
                    } else {
                        assert(!before.binds(packet.key, i));
                    }
                }
                assert(self@.entries == room.push(self@.entries.last()));
            }
        }
        current_epoch
    }

    /// Forget only flows whose previously selected backend is absent from a
    /// new committed set. Flows owned by surviving nodes retain their old
    /// epoch, while a reconnect formerly owned by a removed node can select
    /// an active backend on its next SYN.
    pub fn remove_absent_backends(
        &mut self,
        service: &ServiceId,
        history: &SnapshotHistory,
        current: &BackendSnapshot,
    ) -> (removed: usize)
        requires
            old(self)@.wf(),
        ensures
            final(self)@.wf(),
            final(self)@.capacity == old(self)@.capacity,
            final(self)@.clock == old(self)@.clock,
            final(self)@.entries == old(self)@.entries.filter(
                |entry: FlowBinding| keeps_backend(*service, history@.snapshots, current@, entry),
            ),
            removed == old(self)@.entries.len() - final(self)@.entries.len(),
    {
        let ghost keep = |entry: FlowBinding|
            keeps_backend(*service, history@.snapshots, current@, entry);
        let ghost start = self@.entries;
        let mut kept: Vec<FlowBinding> = Vec::new();
        let before: usize = self.entries.len();
        let mut index: usize = 0;
        proof {
            reveal(Seq::filter);
            assert(start.subrange(0, 0) =~= Seq::<FlowBinding>::empty());
        }
        while index < self.entries.len()
            invariant
                index <= self.entries@.len(),
                self.entries@ == start,
                self@ == old(self)@,
                keep == (|entry: FlowBinding|
                    keeps_backend(*service, history@.snapshots, current@, entry)),
                kept@ == start.subrange(0, index as int).filter(keep),
                kept@.len() <= index,
            decreases self.entries@.len() - index,
        {
            let entry: FlowBinding = self.entries[index];
            proof {
                reveal(Seq::filter);
                let next = start.subrange(0, index + 1);
                assert(next.drop_last() =~= start.subrange(0, index as int));
                assert(next.last() == entry);
            }
            let stays: bool = match history.get(entry.epoch) {
                Some(snapshot) => match select_backend(service, &entry.flow, snapshot) {
                    Some(backend) => contains_node(current.members.as_slice(), backend.node_id),
                    None => false,
                },
                None => false,
            };
            if stays {
                kept.push(entry);
            }
            index = index + 1;
        }
        assert(start.subrange(0, start.len() as int) =~= start);
        proof {
            lemma_filter_flows_wf(old(self)@, keep);
        }
        let removed: usize = before - kept.len();
        self.entries = kept;
        removed
    }
}

/// Removing one entry keeps the flows distinct.
proof fn lemma_swap_removed_wf(table: FlowTableView, index: int)
    requires
        table.wf(),
        0 <= index < table.entries.len(),
    ensures
        forall|i: int, j: int|
            0 <= i < j < swap_removed(table.entries, index).len() ==> (#[trigger] swap_removed(
                table.entries,
                index,
            )[i]).flow != (#[trigger] swap_removed(table.entries, index)[j]).flow,
        forall|i: int|
            0 <= i < swap_removed(table.entries, index).len() ==> exists|k: int|
                0 <= k < table.entries.len() && #[trigger] table.entries[k] == (
                #[trigger] swap_removed(table.entries, index)[i]),
{
    let out = swap_removed(table.entries, index);
    let last = table.entries.len() - 1;
    assert forall|i: int| 0 <= i < out.len() implies exists|k: int|
        0 <= k < table.entries.len() && #[trigger] table.entries[k] == (#[trigger] out[i]) by {
        if i == index {
            assert(table.entries[last] == out[i]);
        } else {
            assert(table.entries[i] == out[i]);
        }
    }
    assert forall|i: int, j: int| 0 <= i < j < out.len() implies (#[trigger] out[i]).flow != (
    #[trigger] out[j]).flow by {
        let a = if i == index {
            last
        } else {
            i
        };
        let b = if j == index {
            last
        } else {
            j
        };
        assert(out[i] == table.entries[a]);
        assert(out[j] == table.entries[b]);
        if a < b {
            assert(table.entries[a].flow != table.entries[b].flow);
        } else {
            assert(table.entries[b].flow != table.entries[a].flow);
        }
    }
}

/// Filtering keeps the flows distinct.
proof fn lemma_filter_flows_wf(table: FlowTableView, keep: spec_fn(FlowBinding) -> bool)
    requires
        table.wf(),
    ensures
        ({
            let out = table.entries.filter(keep);
            &&& out.len() <= table.entries.len()
            &&& forall|i: int, j: int|
                0 <= i < j < out.len() ==> (#[trigger] out[i]).flow != (#[trigger] out[j]).flow
            &&& forall|i: int|
                0 <= i < out.len() ==> exists|k: int|
                    0 <= k < table.entries.len() && #[trigger] table.entries[k] == (
                    #[trigger] out[i])
        }),
    decreases table.entries.len(),
{
    reveal(Seq::filter);
    if table.entries.len() > 0 {
        let rest = FlowTableView { entries: table.entries.drop_last(), ..table };
        assert(rest.wf());
        lemma_filter_flows_wf(rest, keep);
        let kept = rest.entries.filter(keep);
        let out = table.entries.filter(keep);
        let last = table.entries.len() - 1;
        assert forall|i: int| 0 <= i < out.len() implies exists|k: int|
            0 <= k < table.entries.len() && #[trigger] table.entries[k] == (#[trigger] out[i]) by {
            if i < kept.len() {
                assert(out[i] == kept[i]);
                let k = choose|k: int|
                    0 <= k < rest.entries.len() && #[trigger] rest.entries[k] == kept[i];
                assert(table.entries[k] == out[i]);
            } else {
                assert(table.entries[last] == out[i]);
            }
        }
        assert forall|i: int, j: int| 0 <= i < j < out.len() implies (#[trigger] out[i]).flow != (
        #[trigger] out[j]).flow by {
            assert(out[i] == kept[i]);
            if j < kept.len() {
                assert(out[j] == kept[j]);
            } else {
                let k = choose|k: int|
                    0 <= k < rest.entries.len() && #[trigger] rest.entries[k] == kept[i];
                assert(table.entries[k].flow != table.entries[last].flow);
            }
        }
    }
}

/// A flow keeps the epoch it was first observed with, also for a repeated
/// initial packet and also after the current epoch has moved on.
pub proof fn law_observed_flow_keeps_its_epoch(
    start: FlowTableView,
    first: ParsedFlow,
    first_epoch: u64,
    middle: FlowTableView,
    returned: u64,
    second: ParsedFlow,
    second_epoch: u64,
    end: FlowTableView,
    again: u64,
)
    requires
        start.wf(),
        middle.wf(),
        start.capacity > 0,
        first.key == second.key,
        !first.terminal,
        observed(start, first, first_epoch, middle, returned),
        observed(middle, second, second_epoch, end, again),
    ensures
        again == returned,
{
    if start.knows(first.key) {
        let i = choose|i: int| #[trigger] start.binds(first.key, i);
        assert(middle.binds(first.key, i));
    } else {
        let last = middle.entries.len() - 1;
        assert(middle.binds(first.key, last));
    }
}

/// A terminal packet is answered with the pinned epoch and ends the binding.
pub proof fn law_terminal_packet_releases_the_flow(
    before: FlowTableView,
    packet: ParsedFlow,
    current_epoch: u64,
    after: FlowTableView,
    epoch: u64,
)
    requires
        before.wf(),
        after.wf(),
        packet.terminal,
        observed(before, packet, current_epoch, after, epoch),
    ensures
        !after.knows(packet.key),
{
    if before.knows(packet.key) {
        let i = choose|i: int| #[trigger] before.binds(packet.key, i);
        let last = before.entries.len() - 1;
        assert forall|k: int| !#[trigger] after.binds(packet.key, k) by {
            if after.binds(packet.key, k) {
                let source = if k == i {
                    last
                } else {
                    k
                };
                assert(after.entries[k] == before.entries[source]);
                if source < i {
                    assert(before.entries[source].flow != before.entries[i].flow);
                } else if i < source {
                    assert(before.entries[i].flow != before.entries[source].flow);
                }
            }
        }
    } else {
        assert forall|k: int| !#[trigger] after.binds(packet.key, k) by {
            assert(!before.binds(packet.key, k));
        }
    }
}

/// What a snapshot history holds, oldest arrival first.
pub struct HistoryView {
    pub snapshots: Seq<SnapshotView>,
    pub capacity: nat,
}

impl HistoryView {
    /// At most `capacity` valid snapshots, one for each epoch.
    pub open spec fn wf(self) -> bool {
        &&& self.snapshots.len() <= self.capacity
        &&& forall|i: int| 0 <= i < self.snapshots.len() ==> (#[trigger] self.snapshots[i]).wf()
        &&& forall|i: int, j: int|
            0 <= i < j < self.snapshots.len() ==> (#[trigger] self.snapshots[i]).epoch != (
            #[trigger] self.snapshots[j]).epoch
    }
}

/// The index of the first snapshot of `epoch`, or the length if there is none.
pub open spec fn epoch_index(snapshots: Seq<SnapshotView>, epoch: u64) -> int
    decreases snapshots.len(),
{
    if snapshots.len() == 0 {
        0
    } else {
        let rest = epoch_index(snapshots.drop_last(), epoch);
        if rest < snapshots.len() - 1 || snapshots.last().epoch == epoch {
            rest
        } else {
            snapshots.len() as int
        }
    }
}

/// The retained snapshot of `epoch`.
pub open spec fn snapshot_of(snapshots: Seq<SnapshotView>, epoch: u64) -> Option<SnapshotView> {
    let index = epoch_index(snapshots, epoch);
    if index < snapshots.len() {
        Some(snapshots[index])
    } else {
        None
    }
}

/// The history after `snapshot` arrives: it replaces its epoch in place, or
/// joins at the end and pushes out the oldest arrival of a full history.
pub open spec fn installed(history: HistoryView, snapshot: SnapshotView) -> HistoryView {
    let index = epoch_index(history.snapshots, snapshot.epoch);
    HistoryView {
        capacity: history.capacity,
        snapshots: if history.capacity == 0 {
            history.snapshots
        } else if index < history.snapshots.len() {
            history.snapshots.update(index, snapshot)
        } else if history.snapshots.len() == history.capacity {
            history.snapshots.skip(1).push(snapshot)
        } else {
            history.snapshots.push(snapshot)
        },
    }
}

/// What `epoch_index` finds.
proof fn lemma_epoch_index(snapshots: Seq<SnapshotView>, epoch: u64)
    ensures
        0 <= epoch_index(snapshots, epoch) <= snapshots.len(),
        forall|i: int|
            0 <= i < epoch_index(snapshots, epoch) ==> (#[trigger] snapshots[i]).epoch != epoch,
        epoch_index(snapshots, epoch) < snapshots.len() ==> snapshots[epoch_index(
            snapshots,
            epoch,
        )].epoch == epoch,
    decreases snapshots.len(),
{
    if snapshots.len() > 0 {
        let rest = snapshots.drop_last();
        lemma_epoch_index(rest, epoch);
        assert forall|i: int| 0 <= i < epoch_index(snapshots, epoch) implies (
        #[trigger] snapshots[i]).epoch != epoch by {
            if i < rest.len() {
                assert(rest[i] == snapshots[i]);
            }
        }
    }
}

/// The index found is the only one there can be.
proof fn lemma_epoch_index_is(snapshots: Seq<SnapshotView>, epoch: u64, index: int)
    requires
        0 <= index <= snapshots.len(),
        forall|i: int| 0 <= i < index ==> (#[trigger] snapshots[i]).epoch != epoch,
        index < snapshots.len() ==> snapshots[index].epoch == epoch,
    ensures
        epoch_index(snapshots, epoch) == index,
{
    lemma_epoch_index(snapshots, epoch);
    let found = epoch_index(snapshots, epoch);
    if found < index {
        assert(snapshots[found].epoch != epoch);
    } else if index < found {
        assert(snapshots[index].epoch != epoch);
    }
}

/// A bounded set of recent immutable backend snapshots.
pub struct SnapshotHistory {
    snapshots: Vec<BackendSnapshot>,
    capacity: usize,
}

impl View for SnapshotHistory {
    type V = HistoryView;

    closed spec fn view(&self) -> HistoryView {
        HistoryView {
            snapshots: self.snapshots@.map_values(|snapshot: BackendSnapshot| snapshot@),
            capacity: self.capacity as nat,
        }
    }
}

impl SnapshotHistory {
    pub fn new(capacity: usize) -> (history: Self)
        ensures
            history@.wf(),
            history@.capacity == capacity,
            history@.snapshots.len() == 0,
    {
        Self { snapshots: Vec::new(), capacity }
    }

    /// The index of the snapshot of `epoch`, or the length if there is none.
    fn position(&self, epoch: u64) -> (index: usize)
        ensures
            index == epoch_index(self@.snapshots, epoch),
            index <= self@.snapshots.len(),
    {
        let mut index: usize = 0;
        while index < self.snapshots.len()
            invariant
                index <= self.snapshots@.len(),
                forall|i: int| 0 <= i < index ==> (#[trigger] self@.snapshots[i]).epoch != epoch,
            decreases self.snapshots@.len() - index,
        {
            if self.snapshots[index].epoch == epoch {
                assert(self@.snapshots[index as int].epoch == epoch);
                proof {
                    lemma_epoch_index_is(self@.snapshots, epoch, index as int);
                }
                return index;
            }
            assert(self@.snapshots[index as int].epoch != epoch);
            index = index + 1;
        }
        proof {
            lemma_epoch_index_is(self@.snapshots, epoch, index as int);
        }
        index
    }

    pub fn install(&mut self, snapshot: BackendSnapshot)
        requires
            old(self)@.wf(),
            snapshot@.wf(),
        ensures
            final(self)@.wf(),
            final(self)@ == installed(old(self)@, snapshot@),
    {
        proof {
            law_history_stays_bounded(self@, snapshot@);
        }
        if self.capacity == 0 {
            return;
        }
        let ghost before = self@;
        let ghost arrived = snapshot@;
        let epoch: u64 = snapshot.epoch;
        let index: usize = self.position(epoch);
        if index < self.snapshots.len() {
            self.snapshots.set(index, snapshot);
            assert(self@.snapshots =~= before.snapshots.update(index as int, arrived));
            return;
        }
        if self.snapshots.len() == self.capacity {
            self.snapshots.remove(0);
            assert(self@.snapshots =~= before.snapshots.skip(1));
        }
        let ghost room = self@.snapshots;
        self.snapshots.push(snapshot);
        assert(self@.snapshots =~= room.push(arrived));
    }

    pub fn current(&self) -> (snapshot: Option<&BackendSnapshot>)
        ensures
            match snapshot {
                Some(found) => self@.snapshots.len() > 0 && found@ == self@.snapshots.last(),
                None => self@.snapshots.len() == 0,
            },
            self@.wf() ==> (snapshot matches Some(found) ==> found@.wf()),
    {
        if self.snapshots.len() == 0 {
            None
        } else {
            Some(&self.snapshots[self.snapshots.len() - 1])
        }
    }

    pub fn get(&self, epoch: u64) -> (snapshot: Option<&BackendSnapshot>)
        ensures
            match snapshot {
                Some(found) => snapshot_of(self@.snapshots, epoch) == Some(found@),
                None => snapshot_of(self@.snapshots, epoch) is None,
            },
            snapshot matches Some(found) ==> found@.epoch == epoch,
            self@.wf() ==> (snapshot matches Some(found) ==> found@.wf()),
    {
        let index: usize = self.position(epoch);
        proof {
            lemma_epoch_index(self@.snapshots, epoch);
        }
        if index < self.snapshots.len() {
            Some(&self.snapshots[index])
        } else {
            None
        }
    }
}

/// Installing keeps the history bounded, every snapshot in it valid and every
/// epoch unique.
pub proof fn law_history_stays_bounded(history: HistoryView, snapshot: SnapshotView)
    requires
        history.wf(),
        snapshot.wf(),
    ensures
        installed(history, snapshot).wf(),
{
    lemma_epoch_index(history.snapshots, snapshot.epoch);
}

/// An installed snapshot is found under its epoch. It becomes the current one
/// unless it replaced a snapshot of the same epoch.
pub proof fn law_installed_snapshot_is_found(history: HistoryView, snapshot: SnapshotView)
    requires
        history.wf(),
        history.capacity > 0,
    ensures
        snapshot_of(installed(history, snapshot).snapshots, snapshot.epoch) == Some(snapshot),
        snapshot_of(history.snapshots, snapshot.epoch) is None ==> installed(
            history,
            snapshot,
        ).snapshots.last() == snapshot,
{
    lemma_epoch_index(history.snapshots, snapshot.epoch);
    let index = epoch_index(history.snapshots, snapshot.epoch);
    let after = installed(history, snapshot).snapshots;
    if index < history.snapshots.len() {
        lemma_epoch_index_is(after, snapshot.epoch, index);
    } else {
        let last = after.len() - 1;
        assert forall|i: int| 0 <= i < last implies (#[trigger] after[i]).epoch
            != snapshot.epoch by {
            if history.snapshots.len() == history.capacity {
                assert(after[i] == history.snapshots[i + 1]);
            } else {
                assert(after[i] == history.snapshots[i]);
            }
        }
        lemma_epoch_index_is(after, snapshot.epoch, last);
    }
}

/// A 16-bit network-order field.
pub open spec fn net16(frame: Seq<u8>, at: int) -> int {
    frame[at] * 256 + frame[at + 1]
}

/// The length of the IPv4 header of an Ethernet frame.
pub open spec fn ip_header_len(frame: Seq<u8>) -> int {
    (frame[14] % 16) * 4
}

/// Where the TCP header of an Ethernet/IPv4 frame starts.
pub open spec fn tcp_at(frame: Seq<u8>) -> int {
    14 + ip_header_len(frame)
}

/// The frame is an unfragmented, complete Ethernet/IPv4/TCP packet for the
/// service.
///
/// Non-initial fragments do not contain a stable TCP header. Initial
/// fragmented SYNs are also excluded so every participant makes the same
/// fail-closed decision without maintaining an IP reassembly side table.
pub open spec fn targets_service(frame: Seq<u8>, service: ServiceId) -> bool {
    let total_len = net16(frame, 16);
    &&& service.valid()
    &&& frame.len() >= 14 + 20 + 20
    &&& net16(frame, 12) == IPV4_ETHERTYPE
    &&& frame[14] / 16 == 4
    &&& frame[23] == service.protocol
    &&& ip_header_len(frame) >= 20
    &&& frame.len() - 14 >= ip_header_len(frame) + 20
    &&& ip_header_len(frame) + 20 <= total_len <= frame.len() - 14
    &&& net16(frame, 20) % 0x4000 == 0
    &&& frame.subrange(30, 34) == service.address@
    &&& net16(frame, tcp_at(frame) + 2) == service.port
    &&& 20 <= (frame[tcp_at(frame) + 12] / 16) * 4 <= total_len - ip_header_len(frame)
}

/// The flow of a packet for the service.
pub open spec fn flow_of(frame: Seq<u8>, service: ServiceId) -> ParsedFlow {
    let flags = frame[tcp_at(frame) + 13];
    ParsedFlow {
        key: FlowKey {
            protocol: service.protocol,
            src_addr: [frame[26], frame[27], frame[28], frame[29]],
            dst_addr: [frame[30], frame[31], frame[32], frame[33]],
            src_port: net16(frame, tcp_at(frame)) as u16,
            dst_port: net16(frame, tcp_at(frame) + 2) as u16,
        },
        initial_syn: (flags / 2) % 2 == 1 && (flags / 16) % 2 == 0,
        terminal: flags % 2 == 1 || (flags / 4) % 2 == 1,
    }
}

/// Read a 16-bit network-order field.
fn read_net16(frame: &[u8], at: usize) -> (value: u16)
    requires
        at + 2 <= frame@.len(),
    ensures
        value == net16(frame@, at as int),
{
    frame[at] as u16 * 256 + frame[at + 1] as u16
}

/// What a frame for the service says of its flow; nothing of any other frame.
pub open spec fn parsed_flow(frame: Seq<u8>, service: ServiceId) -> Option<ParsedFlow> {
    if targets_service(frame, service) {
        Some(flow_of(frame, service))
    } else {
        None
    }
}

/// Parse an Ethernet/IPv4/TCP frame only when it targets `service`.
pub fn parse_service_flow(frame: &[u8], service: &ServiceId) -> (parsed: Option<ParsedFlow>)
    ensures
        parsed == parsed_flow(frame@, *service),
{
    if !service.is_valid() || frame.len() < 14 + 20 + 20 || read_net16(frame, 12)
        != IPV4_ETHERTYPE {
        return None;
    }
    if frame[14] / 16 != 4 || frame[23] != service.protocol {
        return None;
    }
    let header_len: usize = (frame[14] % 16) as usize * 4;
    if header_len < 20 || frame.len() - 14 < header_len + 20 {
        return None;
    }
    let total_len: usize = read_net16(frame, 16) as usize;
    if total_len < header_len + 20 || total_len > frame.len() - 14 {
        return None;
    }
    if read_net16(frame, 20) % 0x4000 != 0 {
        return None;
    }
    let dst_addr: [u8; 4] = [frame[30], frame[31], frame[32], frame[33]];
    assert(dst_addr@ =~= frame@.subrange(30, 34));
    if !wire::bytes_equal(&dst_addr, &service.address) {
        return None;
    }
    let tcp: usize = 14 + header_len;
    let src_port: u16 = read_net16(frame, tcp);
    let dst_port: u16 = read_net16(frame, tcp + 2);
    let tcp_header_len: usize = (frame[tcp + 12] / 16) as usize * 4;
    if dst_port != service.port || tcp_header_len < 20 || tcp_header_len > total_len
        - header_len {
        return None;
    }
    let flags: u8 = frame[tcp + 13];
    let src_addr: [u8; 4] = [frame[26], frame[27], frame[28], frame[29]];
    let parsed: ParsedFlow = ParsedFlow {
        key: FlowKey { protocol: service.protocol, src_addr, dst_addr, src_port, dst_port },
        initial_syn: (flags / 2) % 2 == 1 && (flags / 16) % 2 == 0,
        terminal: flags % 2 == 1 || (flags / 4) % 2 == 1,
    };
    proof {
        let expected = flow_of(frame@, *service);
        assert(parsed.key.src_addr =~= expected.key.src_addr);
        assert(parsed.key.dst_addr =~= expected.key.dst_addr);
    }
    Some(parsed)
}

/// The frame asks for the hardware address of `vip`.
pub open spec fn asks_for_vip(frame: Seq<u8>, vip: [u8; 4]) -> bool {
    &&& frame.len() >= 42
    &&& net16(frame, 12) == ARP_ETHERTYPE
    &&& net16(frame, 14) == 1
    &&& net16(frame, 16) == IPV4_ETHERTYPE
    &&& frame[18] == 6
    &&& frame[19] == 4
    &&& net16(frame, 20) == 1
    &&& frame.subrange(38, 42) == vip@
}

pub fn is_arp_request_for_vip(frame: &[u8], vip: [u8; 4]) -> (asks: bool)
    ensures
        asks == asks_for_vip(frame@, vip),
{
    if frame.len() < 42 {
        return false;
    }
    let target: [u8; 4] = [frame[38], frame[39], frame[40], frame[41]];
    assert(target@ =~= frame@.subrange(38, 42));
    read_net16(frame, 12) == ARP_ETHERTYPE && read_net16(frame, 14) == 1 && read_net16(frame, 16)
        == IPV4_ETHERTYPE && frame[18] == 6 && frame[19] == 4 && read_net16(frame, 20) == 1
        && wire::bytes_equal(&target, &vip)
}

/// Whether this participant may advertise the VIP represented by `snapshot`.
/// Absence of a complete committed snapshot fails closed.
pub fn local_advertises_vip(snapshot: Option<&BackendSnapshot>) -> (advertises: bool)
    requires
        snapshot matches Some(known) ==> known@.wf(),
    ensures
        advertises == match snapshot {
            Some(known) => known@.advertiser == Some(known@.self_node),
            None => false,
        },
{
    match snapshot {
        Some(known) => match known.vip_advertiser() {
            Some(owner) => owner.node_id == known.self_node,
            None => false,
        },
        None => false,
    }
}

/// The frame buffer after wrapping its first `frame_len` bytes.
pub open spec fn enveloped(
    frame: Seq<u8>,
    frame_len: int,
    ingress_mac: [u8; 6],
    destination: [u8; 6],
) -> Seq<u8> {
    destination@ + ingress_mac@ + wire::be_bytes(FORWARDED_ETHERTYPE as nat, 2) + frame.subrange(
        6,
        frame_len,
    ) + frame.subrange(frame_len + FORWARD_ENVELOPE_LEN, frame.len() as int)
}

/// Move the bytes of `frame` from `from` up to `to` eight places further.
fn shift_right(frame: &mut [u8], from: usize, to: usize)
    requires
        from <= to,
        to + FORWARD_ENVELOPE_LEN <= old(frame)@.len(),
    ensures
        final(frame)@ == wire::splice(
            old(frame)@,
            from + FORWARD_ENVELOPE_LEN,
            old(frame)@.subrange(from as int, to as int),
        ),
{
    let ghost start = frame@;
    let total: usize = frame.len();
    let mut index: usize = to;
    while index > from
        invariant
            from <= index <= to,
            to + FORWARD_ENVELOPE_LEN <= start.len() == total,
            frame@.len() == start.len(),
            forall|i: int|
                0 <= i < start.len() ==> #[trigger] frame@[i] == if index + FORWARD_ENVELOPE_LEN
                    <= i < to + FORWARD_ENVELOPE_LEN {
                    start[i - FORWARD_ENVELOPE_LEN]
                } else {
                    start[i]
                },
        decreases index,
    {
        index = index - 1;
        frame[index + FORWARD_ENVELOPE_LEN] = frame[index];
    }
    assert(frame@ =~= wire::splice(
        start,
        from + FORWARD_ENVELOPE_LEN,
        start.subrange(from as int, to as int),
    ));
}

/// Move the bytes of `frame` from `from` up to `to` eight places back.
fn shift_left(frame: &mut [u8], from: usize, to: usize)
    requires
        FORWARD_ENVELOPE_LEN <= from <= to <= old(frame)@.len(),
    ensures
        final(frame)@ == wire::splice(
            old(frame)@,
            from - FORWARD_ENVELOPE_LEN,
            old(frame)@.subrange(from as int, to as int),
        ),
{
    let ghost start = frame@;
    let mut index: usize = from;
    while index < to
        invariant
            FORWARD_ENVELOPE_LEN <= from <= index <= to <= start.len(),
            frame@.len() == start.len(),
            forall|i: int|
                0 <= i < start.len() ==> #[trigger] frame@[i] == if from - FORWARD_ENVELOPE_LEN
                    <= i < index - FORWARD_ENVELOPE_LEN {
                    start[i + FORWARD_ENVELOPE_LEN]
                } else {
                    start[i]
                },
        decreases to - index,
    {
        frame[index - FORWARD_ENVELOPE_LEN] = frame[index];
        index = index + 1;
    }
    assert(frame@ =~= wire::splice(
        start,
        from - FORWARD_ENVELOPE_LEN,
        start.subrange(from as int, to as int),
    ));
}

/// Wrap an ordinary Ethernet frame for one-hop delivery to a selected
/// Charlotte backend. The original source MAC and EtherType are carried in a
/// compact in-frame envelope so the backend can restore the packet before
/// passing it to its local protocol stack. The private EtherType also prevents
/// a receiving frouter from rendezvous-selecting an already forwarded packet
/// a second time while membership epochs converge.
pub fn encapsulate_forwarded_frame(
    frame: &mut [u8],
    frame_len: usize,
    ingress_mac: [u8; 6],
    destination: [u8; 6],
) -> (forwarded_len: Option<usize>)
    ensures
        forwarded_len == if frame_len < 14 || frame_len + FORWARD_ENVELOPE_LEN > old(
            frame,
        )@.len() {
            None
        } else {
            Some((frame_len + FORWARD_ENVELOPE_LEN) as usize)
        },
        final(frame)@ == match forwarded_len {
            Some(_) => enveloped(old(frame)@, frame_len as int, ingress_mac, destination),
            None => old(frame)@,
        },
{
    if frame_len < 14 || frame.len() < FORWARD_ENVELOPE_LEN || frame_len > frame.len()
        - FORWARD_ENVELOPE_LEN {
        return None;
    }
    let ghost start = frame@;
    let original: [u8; 8] = [
        frame[6],
        frame[7],
        frame[8],
        frame[9],
        frame[10],
        frame[11],
        frame[12],
        frame[13],
    ];
    let ethertype: [u8; 2] = [
        (FORWARDED_ETHERTYPE / 256) as u8,
        (FORWARDED_ETHERTYPE % 256) as u8,
    ];
    shift_right(frame, 14, frame_len);
    wire::write_at(frame, 0, &destination);
    wire::write_at(frame, 6, &ingress_mac);
    wire::write_at(frame, 12, &ethertype);
    wire::write_at(frame, 14, &original);
    proof {
        assert(ethertype@ =~= wire::be_bytes(FORWARDED_ETHERTYPE as nat, 2)) by {
            reveal_with_fuel(wire::be_bytes, 3);
        }
        assert(frame@ =~= enveloped(start, frame_len as int, ingress_mac, destination));
    }
    Some(frame_len + FORWARD_ENVELOPE_LEN)
}

/// The frame buffer after unwrapping its first `frame_len` bytes.
pub open spec fn unwrapped(frame: Seq<u8>, frame_len: int) -> Seq<u8> {
    frame.subrange(0, 6) + frame.subrange(14, frame_len) + frame.subrange(
        frame_len - FORWARD_ENVELOPE_LEN,
        frame.len() as int,
    )
}

/// The frame carries a forwarding envelope.
pub open spec fn is_forwarded(frame: Seq<u8>, frame_len: int) -> bool {
    frame_len >= 14 + FORWARD_ENVELOPE_LEN && net16(frame, 12) == FORWARDED_ETHERTYPE
}

/// Remove a trusted one-hop Charlotte forwarding envelope and restore the
/// Ethernet source and EtherType seen at the ingress participant. The outer
/// destination remains the selected backend's local MAC.
pub fn decapsulate_forwarded_frame(
    frame: &mut [u8],
    frame_len: usize,
) -> (restored: Option<(usize, u16)>)
    requires
        frame_len >= 14 + FORWARD_ENVELOPE_LEN ==> old(frame)@.len() >= 14,
        is_forwarded(old(frame)@, frame_len as int) ==> frame_len <= old(frame)@.len(),
    ensures
        restored == if is_forwarded(old(frame)@, frame_len as int) {
            Some(((frame_len - FORWARD_ENVELOPE_LEN) as usize, net16(old(frame)@, 20) as u16))
        } else {
            None
        },
        final(frame)@ == match restored {
            Some(_) => unwrapped(old(frame)@, frame_len as int),
            None => old(frame)@,
        },
{
    if frame_len < 14 + FORWARD_ENVELOPE_LEN || read_net16(frame, 12) != FORWARDED_ETHERTYPE {
        return None;
    }
    let ghost start = frame@;
    let original: [u8; 8] = [
        frame[14],
        frame[15],
        frame[16],
        frame[17],
        frame[18],
        frame[19],
        frame[20],
        frame[21],
    ];
    let ethertype: u16 = read_net16(frame, 20);
    shift_left(frame, 14 + FORWARD_ENVELOPE_LEN, frame_len);
    wire::write_at(frame, 6, &original);
    assert(frame@ =~= unwrapped(start, frame_len as int));
    Some((frame_len - FORWARD_ENVELOPE_LEN, ethertype))
}

/// Unwrapping a wrapped frame restores everything but the destination, which
/// stays the selected backend.
pub proof fn law_forwarding_round_trip(
    frame: Seq<u8>,
    frame_len: int,
    ingress_mac: [u8; 6],
    destination: [u8; 6],
)
    requires
        14 <= frame_len,
        frame_len + FORWARD_ENVELOPE_LEN <= frame.len(),
    ensures
        ({
            let wrapped = enveloped(frame, frame_len, ingress_mac, destination);
            let forwarded_len = frame_len + FORWARD_ENVELOPE_LEN;
            let restored = unwrapped(wrapped, forwarded_len);
            &&& wrapped.len() == frame.len()
            &&& is_forwarded(wrapped, forwarded_len)
            &&& net16(wrapped, 20) == net16(frame, 12)
            &&& restored.subrange(0, frame_len) == destination@ + frame.subrange(6, frame_len)
        }),
{
    wire::lemma_be_bytes_len(FORWARDED_ETHERTYPE as nat, 2);
    reveal_with_fuel(wire::be_bytes, 3);
    let wrapped = enveloped(frame, frame_len, ingress_mac, destination);
    let restored = unwrapped(wrapped, frame_len + FORWARD_ENVELOPE_LEN);
    assert(wrapped[12] == (FORWARDED_ETHERTYPE / 256) as u8);
    assert(wrapped[13] == (FORWARDED_ETHERTYPE % 256) as u8);
    assert(restored.subrange(0, frame_len) =~= destination@ + frame.subrange(6, frame_len));
}

/// A gratuitous ARP reply that announces `vip` at `mac`.
pub open spec fn arp_announcement(mac: [u8; 6], vip: [u8; 4]) -> Seq<u8> {
    let broadcast = seq![0xffu8, 0xffu8, 0xffu8, 0xffu8, 0xffu8, 0xffu8];
    broadcast + mac@ + wire::be_bytes(ARP_ETHERTYPE as nat, 2) + wire::be_bytes(1, 2)
        + wire::be_bytes(IPV4_ETHERTYPE as nat, 2) + seq![6u8, 4u8] + wire::be_bytes(2, 2) + mac@
        + vip@ + broadcast + vip@
}

/// Construct an Ethernet/IPv4 gratuitous ARP reply for a newly selected VIP
/// advertiser. The frame has no internal Charlotte metadata and remains safe
/// for ordinary switches and hosts to consume.
pub fn gratuitous_arp(mac: [u8; 6], vip: [u8; 4]) -> (frame: [u8; 42])
    ensures
        frame@ == arp_announcement(mac, vip),
{
    let frame: [u8; 42] = [
        0xff, 0xff, 0xff, 0xff, 0xff, 0xff,
        mac[0], mac[1], mac[2], mac[3], mac[4], mac[5],
        0x08, 0x06,
        0x00, 0x01,
        0x08, 0x00,
        6, 4,
        0x00, 0x02,
        mac[0], mac[1], mac[2], mac[3], mac[4], mac[5],
        vip[0], vip[1], vip[2], vip[3],
        0xff, 0xff, 0xff, 0xff, 0xff, 0xff,
        vip[0], vip[1], vip[2], vip[3],
    ];
    proof {
        reveal_with_fuel(wire::be_bytes, 3);
        assert(frame@ =~= arp_announcement(mac, vip));
    }
    frame
}

/// A packet is parsed by what its bytes say. The low thirteen bits of the fragment
/// word and the bit for more fragments refuse it; the bit that forbids
/// fragmenting, and the reserved one, do not.
pub proof fn law_whole_packets_are_parsed(
    frame: Seq<u8>,
    service: ServiceId,
    words: int,
    data_words: int,
)
    requires
        service.valid(),
        5 <= words <= 15,
        5 <= data_words <= 15,
        frame.len() >= 14 + 4 * words + 20,
        frame[12] == 0x08,
        frame[13] == 0x00,
        frame[14] == 0x40 + words,
        frame[23] == 6,
        frame[20] == 0x00 || frame[20] == 0x40 || frame[20] == 0x80 || frame[20] == 0xc0,
        frame[21] == 0,
        4 * words + 20 <= frame[16] * 256 + frame[17] <= frame.len() - 14,
        4 * words + 4 * data_words <= frame[16] * 256 + frame[17],
        frame[30] == service.address[0],
        frame[31] == service.address[1],
        frame[32] == service.address[2],
        frame[33] == service.address[3],
        frame[14 + 4 * words + 2] * 256 + frame[14 + 4 * words + 3] == service.port,
        16 * data_words <= frame[14 + 4 * words + 12] < 16 * data_words + 16,
    ensures
        parsed_flow(frame, service) is Some,
        ({
            let tcp = 14 + 4 * words;
            let flow = parsed_flow(frame, service)->0;
            let flags = frame[tcp + 13];
            &&& flow.key.protocol == 6
            &&& flow.key.src_addr == [frame[26], frame[27], frame[28], frame[29]]
            &&& flow.key.dst_addr@ == service.address@
            &&& flow.key.src_port == frame[tcp] * 256 + frame[tcp + 1]
            &&& flow.key.dst_port == service.port
            &&& flow.initial_syn <==> flags & 2 != 0 && flags & 16 == 0
            &&& flow.terminal <==> flags & 1 != 0 || flags & 4 != 0
        }),
{
    let tcp = 14 + 4 * words;
    assert(frame[14] / 16 == 4);
    assert(frame[14] % 16 == words);
    assert(ip_header_len(frame) == 4 * words);
    assert(tcp_at(frame) == tcp);
    assert((frame[20] * 256) % 0x4000 == 0);
    assert(frame.subrange(30, 34) =~= service.address@);
    let offset = frame[tcp + 12];
    assert(offset / 16 == data_words);
    let flags = frame[tcp + 13];
    assert((flags / 2) % 2 == 1 <==> flags & 2 != 0) by (bit_vector);
    assert((flags / 16) % 2 == 0 <==> flags & 16 == 0) by (bit_vector);
    assert(flags % 2 == 1 <==> flags & 1 != 0) by (bit_vector);
    assert((flags / 4) % 2 == 1 <==> flags & 4 != 0) by (bit_vector);
    assert(flow_of(frame, service).key.dst_addr@ =~= service.address@);
}

/// A frame is a packet of the service only where it says so: it is long enough,
/// carries TCP over IPv4 in one piece, and goes to the service's address and port.
pub proof fn law_other_traffic_is_left_alone(frame: Seq<u8>, service: ServiceId)
    requires
        parsed_flow(frame, service) is Some,
    ensures
        service.port != 0,
        service.protocol == 6,
        frame.len() >= 54,
        frame[12] == 0x08,
        frame[13] == 0x00,
        0x45 <= frame[14] <= 0x4f,
        frame[23] == 6,
        frame[20] % 64 == 0,
        frame[21] == 0,
        forall|i: int| 0 <= i < 4 ==> #[trigger] frame[30 + i] == service.address[i],
        ({
            let tcp = 14 + 4 * (frame[14] - 0x40);
            let total = frame[16] * 256 + frame[17];
            &&& frame[tcp + 2] * 256 + frame[tcp + 3] == service.port
            &&& tcp + 20 <= 14 + total <= frame.len()
            &&& frame[tcp + 12] >= 0x50
            &&& tcp + 4 * (frame[tcp + 12] / 16) <= 14 + total
        }),
{
    assert forall|i: int| 0 <= i < 4 implies #[trigger] frame[30 + i] == service.address[i] by {
        assert(frame.subrange(30, 34)[i] == service.address@[i]);
    }
}

/// Whether a packet may be fragmented does not matter to how it is parsed: frames
/// that differ in that bit alone are parsed alike.
pub proof fn law_dont_fragment_is_ignored(frame: Seq<u8>, service: ServiceId)
    requires
        frame.len() >= 54,
        frame[20] % 128 < 64,
    ensures
        parsed_flow(frame.update(20, (frame[20] + 64) as u8), service) == parsed_flow(
            frame,
            service,
        ),
{
    let other = frame.update(20, (frame[20] + 64) as u8);
    assert(net16(other, 20) == net16(frame, 20) + 0x4000);
    assert(net16(other, 20) % 0x4000 == net16(frame, 20) % 0x4000);
    assert(other.subrange(30, 34) =~= frame.subrange(30, 34));
    assert(tcp_at(frame) >= 14 && (ip_header_len(frame) >= 20 ==> tcp_at(frame) >= 34));
}

/// An ARP request is taken up exactly where it asks who has the address.
pub proof fn law_arp_request_by_its_bytes(frame: Seq<u8>, vip: [u8; 4])
    requires
        frame.len() >= 42,
    ensures
        asks_for_vip(frame, vip) <==> frame.subrange(12, 22) == seq![
            0x08u8, 0x06u8, 0x00u8, 0x01u8, 0x08u8, 0x00u8, 6u8, 4u8, 0x00u8, 0x01u8,
        ] && frame[38] == vip[0] && frame[39] == vip[1] && frame[40] == vip[2] && frame[41]
            == vip[3],
{
    let start = seq![
        0x08u8, 0x06u8, 0x00u8, 0x01u8, 0x08u8, 0x00u8, 6u8, 4u8, 0x00u8, 0x01u8,
    ];
    let part = frame.subrange(12, 22);
    if asks_for_vip(frame, vip) {
        assert(part =~= start);
        let asked = frame.subrange(38, 42);
        assert(asked[0] == frame[38] && asked[1] == frame[39] && asked[2] == frame[40] && asked[3]
            == frame[41]);
        assert(vip@[0] == vip[0] && vip@[1] == vip[1] && vip@[2] == vip[2] && vip@[3] == vip[3]);
    }
    if part == start && frame[38] == vip[0] && frame[39] == vip[1] && frame[40] == vip[2]
        && frame[41] == vip[3] {
        assert(frame.subrange(38, 42) =~= vip@);
        assert(part[0] == frame[12] && part[1] == frame[13] && part[2] == frame[14] && part[3]
            == frame[15] && part[4] == frame[16] && part[5] == frame[17] && part[6] == frame[18]
            && part[7] == frame[19] && part[8] == frame[20] && part[9] == frame[21]);
    }
}

/// An announcement goes to everyone, from the given card, and says that the card
/// has the address; it is no request.
pub proof fn law_announcement_says_who_has_the_address(mac: [u8; 6], vip: [u8; 4])
    ensures
        ({
            let frame = arp_announcement(mac, vip);
            &&& frame.len() == 42
            &&& forall|i: int| 0 <= i < 6 ==> #[trigger] frame[i] == 0xff
            &&& frame.subrange(6, 12) == mac@
            &&& frame.subrange(12, 22) == seq![
                0x08u8, 0x06u8, 0x00u8, 0x01u8, 0x08u8, 0x00u8, 6u8, 4u8, 0x00u8, 0x02u8,
            ]
            &&& frame.subrange(22, 28) == mac@
            &&& frame.subrange(28, 32) == vip@
            &&& forall|i: int| 32 <= i < 38 ==> #[trigger] frame[i] == 0xff
            &&& frame.subrange(38, 42) == vip@
            &&& !asks_for_vip(frame, vip)
        }),
{
    reveal_with_fuel(wire::be_bytes, 3);
    let frame = arp_announcement(mac, vip);
    assert(frame.subrange(6, 12) =~= mac@);
    assert(frame.subrange(12, 22) =~= seq![
        0x08u8, 0x06u8, 0x00u8, 0x01u8, 0x08u8, 0x00u8, 6u8, 4u8, 0x00u8, 0x02u8,
    ]);
    assert(frame.subrange(22, 28) =~= mac@);
    assert(frame.subrange(28, 32) =~= vip@);
    assert(frame.subrange(38, 42) =~= vip@);
    assert(frame.subrange(12, 22)[9] == frame[21] && frame.subrange(12, 22)[8] == frame[20]);
}

/// A forwarded frame is addressed by the node that forwards it to the one that it
/// chose, and marked; the frame from the client follows, its source address on.
pub proof fn law_envelope_by_its_bytes(
    frame: Seq<u8>,
    frame_len: int,
    ingress_mac: [u8; 6],
    destination: [u8; 6],
)
    requires
        14 <= frame_len,
        frame_len + 8 <= frame.len(),
    ensures
        ({
            let wrapped = enveloped(frame, frame_len, ingress_mac, destination);
            &&& wrapped.len() == frame.len()
            &&& wrapped.subrange(0, 6) == destination@
            &&& wrapped.subrange(6, 12) == ingress_mac@
            &&& wrapped[12] == 0x88 && wrapped[13] == 0xb8
            &&& wrapped.subrange(14, frame_len + 8) == frame.subrange(6, frame_len)
            &&& wrapped.skip(frame_len + 8) == frame.skip(frame_len + 8)
        }),
{
    reveal_with_fuel(wire::be_bytes, 3);
    let wrapped = enveloped(frame, frame_len, ingress_mac, destination);
    assert(wrapped.subrange(0, 6) =~= destination@);
    assert(wrapped.subrange(6, 12) =~= ingress_mac@);
    assert(wrapped.subrange(14, frame_len + 8) =~= frame.subrange(6, frame_len));
    assert(wrapped.skip(frame_len + 8) =~= frame.skip(frame_len + 8));
}

/// A backend is selected exactly where the service is real, the flow is of its
/// protocol, and there is a backend. It is one of the backends, and none of them
/// weighs more; of equal weights the higher node has it.
pub proof fn law_selected_backend_weighs_most(
    service: ServiceId,
    flow: FlowKey,
    snapshot: SnapshotView,
    index: int,
)
    requires
        0 <= index < snapshot.backends.len(),
    ensures
        selected(service, flow, snapshot) is Some <==> service.port != 0 && service.protocol == 6
            && flow.protocol == 6 && exists|i: int| 0 <= i < 4 && service.address[i] != 0,
        selected(service, flow, snapshot) matches Some(best) ==> {
            let other = snapshot.backends[index];
            &&& snapshot.backends.contains(best)
            &&& weight(service, flow, other.node_id) <= weight(service, flow, best.node_id)
            &&& weight(service, flow, other.node_id) == weight(service, flow, best.node_id)
                ==> other.node_id <= best.node_id
        },
{
    lemma_winner(service, flow, snapshot.backends);
}

/// The weight of a node depends on every part of the service, the flow and the
/// node's number: what is hashed is different where any of them is.
pub proof fn law_weights_see_every_part(
    one: ServiceId,
    one_flow: FlowKey,
    one_node: u64,
    two: ServiceId,
    two_flow: FlowKey,
    two_node: u64,
)
    requires
        rendezvous_input(one, one_flow, one_node) == rendezvous_input(two, two_flow, two_node),
    ensures
        one == two,
        one_flow == two_flow,
        one_node == two_node,
{
    let a = rendezvous_input(one, one_flow, one_node);
    let b = rendezvous_input(two, two_flow, two_node);
    lemma_rendezvous_parts(one, one_flow, one_node);
    lemma_rendezvous_parts(two, two_flow, two_node);
    assert(one.address =~= two.address);
    assert(one_flow.src_addr =~= two_flow.src_addr);
    assert(one_flow.dst_addr =~= two_flow.dst_addr);
    wire::lemma_byte_capacities();
    wire::lemma_be_round_trip(one.port as nat, 2);
    wire::lemma_be_round_trip(two.port as nat, 2);
    wire::lemma_be_round_trip(one_flow.src_port as nat, 2);
    wire::lemma_be_round_trip(two_flow.src_port as nat, 2);
    wire::lemma_be_round_trip(one_flow.dst_port as nat, 2);
    wire::lemma_be_round_trip(two_flow.dst_port as nat, 2);
    wire::lemma_le_round_trip(one_node as nat, 8);
    wire::lemma_le_round_trip(two_node as nat, 8);
}

proof fn lemma_rendezvous_parts(service: ServiceId, flow: FlowKey, node_id: u64)
    ensures
        ({
            let input = rendezvous_input(service, flow, node_id);
            &&& input.len() == 55
            &&& input.subrange(0, 27) == RENDEZVOUS_DOMAIN@
            &&& input.subrange(27, 31) == service.address@
            &&& input[31] == service.protocol
            &&& input.subrange(32, 34) == wire::be_bytes(service.port as nat, 2)
            &&& input[34] == flow.protocol
            &&& input.subrange(35, 39) == flow.src_addr@
            &&& input.subrange(39, 43) == flow.dst_addr@
            &&& input.subrange(43, 45) == wire::be_bytes(flow.src_port as nat, 2)
            &&& input.subrange(45, 47) == wire::be_bytes(flow.dst_port as nat, 2)
            &&& input.subrange(47, 55) == wire::le_bytes(node_id as nat, 8)
        }),
{
    let input = rendezvous_input(service, flow, node_id);
    wire::lemma_be_bytes_len(service.port as nat, 2);
    wire::lemma_be_bytes_len(flow.src_port as nat, 2);
    wire::lemma_be_bytes_len(flow.dst_port as nat, 2);
    wire::lemma_le_bytes_len(node_id as nat, 8);
    assert(input.subrange(0, 27) =~= RENDEZVOUS_DOMAIN@);
    assert(input.subrange(27, 31) =~= service.address@);
    assert(input.subrange(32, 34) =~= wire::be_bytes(service.port as nat, 2));
    assert(input.subrange(35, 39) =~= flow.src_addr@);
    assert(input.subrange(39, 43) =~= flow.dst_addr@);
    assert(input.subrange(43, 45) =~= wire::be_bytes(flow.src_port as nat, 2));
    assert(input.subrange(45, 47) =~= wire::be_bytes(flow.dst_port as nat, 2));
    assert(input.subrange(47, 55) =~= wire::le_bytes(node_id as nat, 8));
}

/// A new flow is bound to the epoch of its first packet, and takes the place of
/// the flow that has been quiet longest where the table is full; all others stay.
pub proof fn law_new_flow_displaces_the_quietest(
    before: FlowTableView,
    packet: ParsedFlow,
    current_epoch: u64,
    after: FlowTableView,
    epoch: u64,
    other: int,
)
    requires
        before.wf(),
        before.capacity > 0,
        !packet.terminal,
        !before.knows(packet.key),
        observed(before, packet, current_epoch, after, epoch),
        0 <= other < before.entries.len(),
    ensures
        epoch == current_epoch,
        after.knows(packet.key),
        after.entries.last().flow == packet.key,
        after.entries.last().epoch == current_epoch,
        after.entries.last().last_seen == after.clock,
        before.entries.len() < before.capacity ==> after.entries.contains(before.entries[other]),
        before.entries.len() == before.capacity ==> after.entries.contains(before.entries[other])
            || forall|i: int|
            0 <= i < before.entries.len() ==> before.entries[other].last_seen <= (
            #[trigger] before.entries[i]).last_seen,
        after.entries.len() == if before.entries.len() < before.capacity {
            before.entries.len() + 1
        } else {
            before.entries.len()
        },
{
    let clock = next_clock(before.clock);
    let fresh = FlowBinding { flow: packet.key, epoch: current_epoch, last_seen: clock };
    assert(after.binds(packet.key, after.entries.len() - 1)) by {
        if before.entries.len() < before.capacity {
            assert(after.entries == before.entries.push(fresh));
        }
    }
    if before.entries.len() < before.capacity {
        assert(after.entries[other] == before.entries[other]);
    } else {
        let i = choose|i: int| #[trigger]
            before.oldest(i) && after.entries == swap_removed(before.entries, i).push(fresh);
        let last = before.entries.len() - 1;
        if other != i {
            let at = if other == last {
                i
            } else {
                other
            };
            assert(after.entries[at] == before.entries[other]);
        }
    }
}

/// A packet of a known flow refreshes it, and leaves every other flow as it is.
pub proof fn law_known_flow_is_refreshed(
    before: FlowTableView,
    packet: ParsedFlow,
    current_epoch: u64,
    after: FlowTableView,
    epoch: u64,
    index: int,
    other: int,
)
    requires
        before.wf(),
        before.binds(packet.key, index),
        observed(before, packet, current_epoch, after, epoch),
        0 <= other < before.entries.len(),
        other != index,
    ensures
        epoch == before.entries[index].epoch,
        !packet.terminal ==> after.entries.len() == before.entries.len()
            && after.entries[index].flow == packet.key && after.entries[index].epoch == epoch
            && after.entries[index].last_seen == after.clock && after.entries[other]
            == before.entries[other],
        packet.terminal ==> after.entries.len() == before.entries.len() - 1
            && after.entries.contains(before.entries[other]),
        before.clock < u64::MAX ==> after.clock == before.clock + 1,
        after.clock > 0,
{
    if packet.terminal {
        let last = before.entries.len() - 1;
        let at = if other == last {
            index
        } else {
            other
        };
        assert(after.entries[at] == before.entries[other]);
    }
}

/// Installing a snapshot loses no other but the oldest, and that only where the
/// history is full.
pub proof fn law_history_loses_only_the_oldest(
    history: HistoryView,
    snapshot: SnapshotView,
    index: int,
)
    requires
        history.wf(),
        history.capacity > 0,
        0 <= index < history.snapshots.len(),
        history.snapshots[index].epoch != snapshot.epoch,
    ensures
        installed(history, snapshot).snapshots.contains(history.snapshots[index]) || (index == 0
            && history.snapshots.len() == history.capacity),
{
    lemma_epoch_index(history.snapshots, snapshot.epoch);
    let at = epoch_index(history.snapshots, snapshot.epoch);
    let after = installed(history, snapshot).snapshots;
    if at < history.snapshots.len() {
        assert(after[index] == history.snapshots[index]);
    } else if history.snapshots.len() == history.capacity {
        if index > 0 {
            assert(after[index - 1] == history.snapshots[index]);
        }
    } else {
        assert(after[index] == history.snapshots[index]);
    }
}

proof fn lemma_membership_start()
    ensures
        wire::le_bytes(MEMBERSHIP_MAGIC as nat, 4) == seq![0x4cu8, 0x42u8, 0x4du8, 0x31u8],
        wire::le_bytes(MEMBERSHIP_VERSION as nat, 2) == seq![2u8, 0u8],
        wire::le_bytes(MEMBERSHIP_HEADER_LEN as nat, 2) == seq![40u8, 0u8],
{
    reveal_with_fuel(wire::le_bytes, 5);
    assert(wire::le_bytes(MEMBERSHIP_MAGIC as nat, 4) =~= seq![0x4cu8, 0x42u8, 0x4du8, 0x31u8]);
    assert(wire::le_bytes(MEMBERSHIP_VERSION as nat, 2) =~= seq![2u8, 0u8]);
    assert(wire::le_bytes(MEMBERSHIP_HEADER_LEN as nat, 2) =~= seq![40u8, 0u8]);
}

/// The wire form starts with the letters `LBM1`, version 2 and 40 bytes of header,
/// then the epoch, the node and its advertiser; 16 bytes follow for each of at
/// most 64 members.
#[verifier::spinoff_prover]
#[verifier::rlimit(40)]
pub proof fn law_snapshot_by_its_bytes(view: SnapshotView, index: int)
    requires
        view.wf(),
        0 <= index < view.members.len(),
    ensures
        ({
            let bytes = encoded(view);
            let at = 40 + 16 * index;
            &&& view.members.len() <= 64
            &&& bytes.len() == 40 + 16 * view.members.len()
            &&& bytes.subrange(0, 8) == seq![
                0x4cu8, 0x42u8, 0x4du8, 0x31u8, 2u8, 0u8, 40u8, 0u8,
            ]
            &&& bytes.subrange(8, 16) == wire::le_bytes(view.epoch as nat, 8)
            &&& bytes.subrange(16, 24) == wire::le_bytes(view.self_node as nat, 8)
            &&& view.advertiser is Some ==> bytes.subrange(24, 32) == wire::le_bytes(
                view.advertiser->0 as nat,
                8,
            )
            &&& view.advertiser is None ==> bytes.subrange(24, 32) == wire::le_bytes(
                0xffff_ffff_ffff_ffff,
                8,
            )
            &&& bytes.subrange(32, 34) == wire::le_bytes(view.members.len(), 2)
            &&& bytes.subrange(at, at + 8) == wire::le_bytes(
                view.members[index].node_id as nat,
                8,
            )
            &&& bytes.subrange(at + 8, at + 14) == view.members[index].mac@
            &&& bytes[at + 14] == if has_node(view.backends, view.members[index].node_id) {
                1u8
            } else {
                0u8
            }
            &&& bytes[at + 15] == 0
        }),
{
    let bytes = encoded(view);
    lemma_encoded_header(view);
    lemma_encoded_member(view, index);
    let at = record_at(index);
    let member = view.members[index];
    let record = encoded_record(view, member);
    wire::lemma_le_bytes_len(member.node_id as nat, 8);
    let part = bytes.subrange(at, at + 16);
    assert(bytes.subrange(at, at + 8) =~= part.subrange(0, 8));
    assert(record.subrange(0, 8) =~= wire::le_bytes(member.node_id as nat, 8));
    assert(bytes.subrange(at + 8, at + 14) =~= part.subrange(8, 14));
    assert(record.subrange(8, 14) =~= member.mac@);
    assert(part[14] == bytes[at + 14] && part[15] == bytes[at + 15]);
    lemma_membership_start();
    assert(bytes.subrange(0, 8) =~= bytes.subrange(0, 4) + bytes.subrange(4, 6) + bytes.subrange(
        6,
        8,
    ));
}

/// A flow stays bound exactly as long as the backend that its epoch selects is still a
/// member.
pub proof fn law_flows_outlive_their_epoch(
    service: ServiceId,
    history: Seq<SnapshotView>,
    current: SnapshotView,
    entry: FlowBinding,
    snapshot: SnapshotView,
    backend: Backend,
)
    requires
        snapshot_of(history, entry.epoch) == Some(snapshot),
        selected(service, entry.flow, snapshot) == Some(backend),
    ensures
        keeps_backend(service, history, current, entry) <==> exists|i: int|
            0 <= i < current.members.len() && (#[trigger] current.members[i]).node_id
                == backend.node_id,
{
}

/// The lowest node is a member, and none is lower.
pub proof fn law_lowest_node_is_least(members: Seq<Backend>, index: int)
    requires
        0 <= index < members.len(),
    ensures
        lowest_node(members) is Some,
        lowest_node(members)->0 <= members[index].node_id,
        exists|i: int|
            0 <= i < members.len() && (#[trigger] members[i]).node_id == lowest_node(members)->0,
    decreases members.len(),
{
    let before = members.drop_last();
    let last = members.len() - 1;
    if before.len() > 0 {
        law_lowest_node_is_least(
            before,
            if index < last {
                index
            } else {
                0
            },
        );
        let low = lowest_node(before)->0;
        let at = choose|i: int| 0 <= i < before.len() && (#[trigger] before[i]).node_id == low;
        assert(members[at].node_id == low);
        if index < last {
            assert(before[index] == members[index]);
        }
    }
    assert(members[last].node_id == members.last().node_id);
}

} // verus!
