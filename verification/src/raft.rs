//! The service around a Raft node: where it keeps its state, which peers it
//! looks up, which cluster it applies to, and what it answers.
//!
//! The consensus itself, the network and the name service belong to the
//! caller.
use vstd::prelude::*;

use crate::hash;
use crate::order;
use crate::text;
use crate::wire;

verus! {

/// The time between two looks at the clock, in milliseconds.
pub const LOOP_TICK_MS: u64 = 25;

/// The time between two questions to discovery, in milliseconds.
pub const DISCO_QUERY_MS: u64 = 2_000;

/// How long an application to a cluster waits for its reply, in milliseconds.
pub const JOIN_RETRY_MS: u64 = 1_000;

/// The election timeout of a node that is given none, in milliseconds.
pub const DEFAULT_ELECTION_MS: u64 = 150;

/// "default"
pub const DEFAULT_CLUSTER: [u8; 7] = [100, 101, 102, 97, 117, 108, 116];

/// "r1"
pub const DEFAULT_NODE: [u8; 2] = [114, 49];

/// "event:membership:"
pub const MEMBERSHIP_EVENT: [u8; 17] = [
    101, 118, 101, 110, 116, 58, 109, 101, 109, 98, 101, 114, 115, 104, 105, 112, 58,
];

/// What the namespace of a node's stored objects is computed from.
pub open spec fn namespace_input(cluster_id: Seq<u8>, node_id: Seq<u8>) -> Seq<u8> {
    cluster_id + seq![0xffu8] + node_id
}

/// The namespace of a node's stored objects.
pub open spec fn namespace_of(cluster_id: Seq<u8>, node_id: Seq<u8>) -> u64 {
    hash::fnv_fold(hash::FNV_OFFSET, namespace_input(cluster_id, node_id))
}

/// The namespace of a node's objects: a hash of its cluster and its name.
pub fn persistent_namespace(cluster_id: &[u8], node_id: &[u8]) -> (namespace: u64)
    ensures
        namespace == namespace_of(cluster_id@, node_id@),
{
    let mut namespace: u64 = hash::FNV_OFFSET;
    hash::hash_bytes(&mut namespace, cluster_id);
    hash::hash_bytes(&mut namespace, [0xffu8].as_slice());
    hash::hash_bytes(&mut namespace, node_id);
    proof {
        assert([0xffu8]@ =~= seq![0xffu8]);
        hash::lemma_fnv_fold_concat(hash::FNV_OFFSET, cluster_id@, seq![0xffu8]);
        hash::lemma_fnv_fold_concat(hash::FNV_OFFSET, cluster_id@ + seq![0xffu8], node_id@);
    }
    namespace
}

/// Where a node keeps its state.
#[derive(Clone, Copy, Debug, PartialEq, Eq, Structural)]
pub enum StoragePolicy {
    Memory,
    /// On disk, if there is one.
    Optional,
    /// On disk, or not at all.
    Required,
}

/// The policy that a configured number stands for.
pub open spec fn policy_for(configured: Option<u64>) -> StoragePolicy {
    match configured {
        Some(1) => StoragePolicy::Optional,
        Some(2) => StoragePolicy::Required,
        _ => StoragePolicy::Memory,
    }
}

/// The storage that a configured number stands for.
pub fn storage_policy(configured: Option<u64>) -> (policy: StoragePolicy)
    ensures
        policy == policy_for(configured),
{
    match configured {
        Some(number) => if number == 1 {
            StoragePolicy::Optional
        } else if number == 2 {
            StoragePolicy::Required
        } else {
            StoragePolicy::Memory
        },
        None => StoragePolicy::Memory,
    }
}

/// Where a node's state ends up.
#[derive(Clone, Copy, Debug, PartialEq, Eq, Structural)]
pub enum Storage {
    Disk,
    Memory,
    /// The node does not start.
    Missing,
}

/// Where the log and the state are kept.
pub open spec fn storage_for(policy: StoragePolicy, log_opened: bool, state_opened: bool) -> Storage {
    if policy != StoragePolicy::Memory && log_opened && state_opened {
        Storage::Disk
    } else if policy == StoragePolicy::Required {
        Storage::Missing
    } else {
        Storage::Memory
    }
}

/// Where a node's state ends up, given whether the log and the state could be
/// opened on disk.
pub fn choose_storage(policy: StoragePolicy, log_opened: bool, state_opened: bool) -> (storage:
    Storage)
    ensures
        storage == storage_for(policy, log_opened, state_opened),
{
    match policy {
        StoragePolicy::Memory => Storage::Memory,
        StoragePolicy::Optional => if log_opened && state_opened {
            Storage::Disk
        } else {
            Storage::Memory
        },
        StoragePolicy::Required => if log_opened && state_opened {
            Storage::Disk
        } else {
            Storage::Missing
        },
    }
}

/// The cluster that a node belongs to.
pub fn cluster_name(configured: Option<&[u8]>) -> (name: Vec<u8>)
    ensures
        name@ == match configured {
            Some(bytes) => if bytes@.len() > 0 {
                bytes@
            } else {
                DEFAULT_CLUSTER@
            },
            None => DEFAULT_CLUSTER@,
        },
{
    let mut name: Vec<u8> = Vec::new();
    match configured {
        Some(bytes) => if bytes.len() > 0 {
            wire::push_all(&mut name, bytes);
            assert(name@ =~= bytes@);
            return name;
        },
        None => {},
    }
    wire::push_all(&mut name, DEFAULT_CLUSTER.as_slice());
    assert(name@ =~= DEFAULT_CLUSTER@);
    name
}

/// The name of a node that is configured: text that is not empty.
pub fn node_name(configured: &[u8]) -> (name: Vec<u8>)
    ensures
        name@ == if configured@.len() > 0 && vstd::utf8::valid_utf8(configured@) {
            configured@
        } else {
            DEFAULT_NODE@
        },
{
    let mut name: Vec<u8> = Vec::new();
    if configured.len() > 0 && text::is_utf8(configured) {
        wire::push_all(&mut name, configured);
        assert(name@ =~= configured@);
    } else {
        wire::push_all(&mut name, DEFAULT_NODE.as_slice());
        assert(name@ =~= DEFAULT_NODE@);
    }
    name
}

/// A quarter of the election timeout, within bounds.
pub open spec fn interval_for(election_timeout_ms: u64) -> u64 {
    if election_timeout_ms / 4 < 25 {
        25
    } else if election_timeout_ms / 4 > 250 {
        250
    } else {
        election_timeout_ms / 4
    }
}

/// Whether a leader's heartbeat is due.
pub open spec fn beats(leader: bool, now: u64, last: u64, interval: u64) -> bool {
    leader && (if now > last {
        now - last
    } else {
        0
    }) >= interval
}

/// The time between two heartbeats: often enough to stay leader, and no more
/// often than that.
pub fn heartbeat_interval(election_timeout_ms: u64) -> (interval: u64)
    ensures
        interval == interval_for(election_timeout_ms),
{
    let quarter: u64 = election_timeout_ms / 4;
    if quarter < 25 {
        25
    } else if quarter > 250 {
        250
    } else {
        quarter
    }
}

/// Whether a heartbeat is due.
pub fn heartbeat_due(leader: bool, now: u64, last: u64, interval: u64) -> (due: bool)
    ensures
        due == beats(leader, now, last, interval),
{
    let since: u64 = if now > last {
        now - last
    } else {
        0
    };
    leader && since >= interval
}

/// What a look at a pending lookup found.
#[derive(Clone, Copy, Debug, PartialEq, Eq, Structural)]
pub enum LookupPoll {
    Answered { generation: i64, connection: u64 },
    Pending,
    Failed,
}

/// What to do about a service that is looked up.
#[derive(Clone, Copy, Debug, PartialEq, Eq, Structural)]
pub enum LookupStep {
    /// Ask the name service.
    Ask,
    /// The question is still open.
    Wait,
    /// Forget the question; the next look asks again.
    Forget,
    /// Forget the question and use the connection.
    Connect { connection: u64 },
}

/// What to do about a service that is not connected.
pub open spec fn lookup_next(pending: bool, poll: LookupPoll) -> LookupStep {
    if !pending {
        LookupStep::Ask
    } else {
        match poll {
            LookupPoll::Answered { generation, connection } => if generation >= 1 && connection
                != 0 {
                LookupStep::Connect { connection }
            } else {
                LookupStep::Forget
            },
            LookupPoll::Pending => LookupStep::Wait,
            LookupPoll::Failed => LookupStep::Forget,
        }
    }
}

/// Decide about a service that is not connected: at most one question is open
/// at a time.
pub fn lookup_step(pending: bool, poll: LookupPoll) -> (step: LookupStep)
    ensures
        step == lookup_next(pending, poll),
{
    if !pending {
        return LookupStep::Ask;
    }
    match poll {
        LookupPoll::Answered { generation, connection } => if generation >= 1 && connection != 0 {
            LookupStep::Connect { connection }
        } else {
            LookupStep::Forget
        },
        LookupPoll::Pending => LookupStep::Wait,
        LookupPoll::Failed => LookupStep::Forget,
    }
}

/// A node of the cluster.
pub struct Peer {
    pub id: Vec<u8>,
    pub service_name: u64,
}

#[verifier::ext_equal]
pub struct PeerView {
    pub id: Seq<u8>,
    pub service_name: u64,
}

impl View for Peer {
    type V = PeerView;

    open spec fn view(&self) -> PeerView {
        PeerView { id: self.id@, service_name: self.service_name }
    }
}

pub open spec fn peer_views(peers: Seq<Peer>) -> Seq<PeerView> {
    Seq::new(peers.len(), |i: int| peers[i]@)
}

/// A peer that is looked up, and the question that is open about it, if any.
pub struct PeerSpec {
    pub id: Vec<u8>,
    pub name: u64,
    pub pending: u64,
}

#[verifier::ext_equal]
pub struct SpecView {
    pub id: Seq<u8>,
    pub name: u64,
    pub pending: u64,
}

impl View for PeerSpec {
    type V = SpecView;

    open spec fn view(&self) -> SpecView {
        SpecView { id: self.id@, name: self.name, pending: self.pending }
    }
}

pub open spec fn spec_views(specs: Seq<PeerSpec>) -> Seq<SpecView> {
    Seq::new(specs.len(), |i: int| specs[i]@)
}

/// A node is among the peers.
pub open spec fn is_active(peers: Seq<PeerView>, id: Seq<u8>) -> bool {
    exists|i: int| 0 <= i < peers.len() && (#[trigger] peers[i]).id == id
}

/// A node is looked up.
pub open spec fn is_tracked(specs: Seq<SpecView>, id: Seq<u8>) -> bool {
    exists|i: int| 0 <= i < specs.len() && (#[trigger] specs[i]).id == id
}

/// The lookups of nodes that are among the peers, or of those that are not.
pub open spec fn select(specs: Seq<SpecView>, peers: Seq<PeerView>, active: bool) -> Seq<SpecView>
    decreases specs.len(),
{
    if specs.len() == 0 {
        Seq::empty()
    } else {
        let before = select(specs.drop_last(), peers, active);
        if is_active(peers, specs.last().id) == active {
            before.push(specs.last())
        } else {
            before
        }
    }
}

/// The lookups with one more for each of the first `count` peers that has none
/// and is not the node itself.
pub open spec fn extended(
    specs: Seq<SpecView>,
    peers: Seq<PeerView>,
    me: Seq<u8>,
    count: nat,
) -> Seq<SpecView>
    decreases count,
{
    if count == 0 {
        specs
    } else {
        let before = extended(specs, peers, me, (count - 1) as nat);
        let peer = peers[count - 1];
        if peer.id == me || is_tracked(before, peer.id) {
            before
        } else {
            before.push(SpecView { id: peer.id, name: peer.service_name, pending: 0 })
        }
    }
}

fn active(peers: &Vec<Peer>, id: &Vec<u8>) -> (found: bool)
    ensures
        found == is_active(peer_views(peers@), id@),
{
    let ghost views = peer_views(peers@);
    let mut index: usize = 0;
    while index < peers.len()
        invariant
            index <= peers@.len(),
            views == peer_views(peers@),
            forall|i: int| 0 <= i < index ==> (#[trigger] views[i]).id != id@,
        decreases peers@.len() - index,
    {
        if wire::bytes_equal(peers[index].id.as_slice(), id.as_slice()) {
            assert(views[index as int].id == id@);
            return true;
        }
        index += 1;
    }
    false
}

fn has_spec(specs: &Vec<PeerSpec>, id: &Vec<u8>) -> (found: bool)
    ensures
        found == is_tracked(spec_views(specs@), id@),
{
    let ghost views = spec_views(specs@);
    let mut index: usize = 0;
    while index < specs.len()
        invariant
            index <= specs@.len(),
            views == spec_views(specs@),
            forall|i: int| 0 <= i < index ==> (#[trigger] views[i]).id != id@,
        decreases specs@.len() - index,
    {
        if wire::bytes_equal(specs[index].id.as_slice(), id.as_slice()) {
            assert(views[index as int].id == id@);
            return true;
        }
        index += 1;
    }
    false
}

/// Follow the cluster's members and those about to join, in `peers`: keep the
/// lookups of the nodes that are among them, hand back the others, and add one
/// for each that has none.
pub fn reconcile(specs: &mut Vec<PeerSpec>, peers: &Vec<Peer>, me: &Vec<u8>) -> (dropped: Vec<
    PeerSpec,
>)
    ensures
        spec_views(final(specs)@) == extended(
            select(spec_views(old(specs)@), peer_views(peers@), true),
            peer_views(peers@),
            me@,
            peers@.len(),
        ),
        spec_views(dropped@) == select(spec_views(old(specs)@), peer_views(peers@), false),
{
    let ghost before = spec_views(specs@);
    let ghost views = peer_views(peers@);
    let total: usize = specs.len();
    let mut dropped: Vec<PeerSpec> = Vec::new();
    let mut kept: Vec<PeerSpec> = Vec::new();
    let mut done: usize = 0;
    assert(before.take(0) =~= Seq::empty());
    assert(spec_views(kept@) =~= Seq::empty());
    assert(spec_views(dropped@) =~= Seq::empty());
    assert(before.skip(0) =~= before);
    while done < total
        invariant
            done <= total == before.len(),
            views == peer_views(peers@),
            spec_views(specs@) == before.skip(done as int),
            spec_views(kept@) == select(before.take(done as int), views, true),
            spec_views(dropped@) == select(before.take(done as int), views, false),
        decreases total - done,
    {
        let ghost rest = specs@;
        assert(spec_views(rest).len() == rest.len());
        let spec = specs.remove(0);
        proof {
            assert(spec@ == before.skip(done as int)[0]);
            assert(before.take(done + 1).drop_last() =~= before.take(done as int));
            assert(before.take(done + 1).last() == spec@);
            assert(spec_views(specs@) =~= before.skip(done + 1)) by {
                assert forall|i: int| 0 <= i < specs@.len() implies spec_views(specs@)[i]
                    == before.skip(done + 1)[i] by {
                    assert(spec_views(rest)[i + 1] == before.skip(done as int)[i + 1]);
                }
            }
        }
        if active(peers, &spec.id) {
            let ghost some = kept@;
            kept.push(spec);
            assert(spec_views(kept@) =~= spec_views(some).push(spec@));
        } else {
            let ghost some = dropped@;
            dropped.push(spec);
            assert(spec_views(dropped@) =~= spec_views(some).push(spec@));
        }
        done += 1;
    }
    assert(before.take(total as int) =~= before);
    let ghost base = spec_views(kept@);
    let mut index: usize = 0;
    while index < peers.len()
        invariant
            index <= peers@.len(),
            views == peer_views(peers@),
            spec_views(kept@) == extended(base, views, me@, index as nat),
        decreases peers@.len() - index,
    {
        let peer = &peers[index];
        assert(views[index as int] == peer@);
        if !wire::bytes_equal(peer.id.as_slice(), me.as_slice()) && !has_spec(&kept, &peer.id) {
            let ghost some = kept@;
            let id: Vec<u8> = wire::copy_range(peer.id.as_slice(), 0, peer.id.len());
            assert(id@ =~= peer.id@);
            kept.push(PeerSpec { id, name: peer.service_name, pending: 0 });
            assert(spec_views(kept@) =~= spec_views(some).push(
                SpecView { id: peer.id@, name: peer.service_name, pending: 0 },
            ));
        }
        index += 1;
    }
    *specs = kept;
    dropped
}

proof fn lemma_select(specs: Seq<SpecView>, peers: Seq<PeerView>, active: bool, i: int)
    requires
        0 <= i < select(specs, peers, active).len(),
    ensures
        is_active(peers, select(specs, peers, active)[i].id) == active,
        specs.contains(select(specs, peers, active)[i]),
    decreases specs.len(),
{
    let before = select(specs.drop_last(), peers, active);
    if i < before.len() {
        lemma_select(specs.drop_last(), peers, active, i);
        let j = choose|j: int| 0 <= j < specs.drop_last().len() && specs.drop_last()[j] == before[i];
        assert(specs[j] == before[i]);
    } else {
        assert(specs[specs.len() - 1] == specs.last());
    }
}

proof fn lemma_extended(
    specs: Seq<SpecView>,
    peers: Seq<PeerView>,
    me: Seq<u8>,
    count: nat,
    i: int,
)
    requires
        count <= peers.len(),
    ensures
        extended(specs, peers, me, count).len() >= specs.len(),
        0 <= i < specs.len() ==> extended(specs, peers, me, count)[i] == specs[i],
        specs.len() <= i < extended(specs, peers, me, count).len() ==> is_active(
            peers,
            extended(specs, peers, me, count)[i].id,
        ),
    decreases count,
{
    if count > 0 {
        lemma_extended(specs, peers, me, (count - 1) as nat, i);
        assert(peers[count - 1].id == peers[count - 1].id);
    }
}

proof fn lemma_extended_covers(
    specs: Seq<SpecView>,
    peers: Seq<PeerView>,
    me: Seq<u8>,
    count: nat,
    place: int,
)
    requires
        0 <= place < count <= peers.len(),
        peers[place].id != me,
    ensures
        is_tracked(extended(specs, peers, me, count), peers[place].id),
    decreases count,
{
    let before = extended(specs, peers, me, (count - 1) as nat);
    let after = extended(specs, peers, me, count);
    let id = peers[place].id;
    if place < count - 1 {
        lemma_extended_covers(specs, peers, me, (count - 1) as nat, place);
        let i = choose|i: int| 0 <= i < before.len() && (#[trigger] before[i]).id == id;
        assert(after[i].id == id);
    } else if !is_tracked(before, id) {
        assert(after[before.len() as int].id == id);
    }
}

/// Exactly the cluster's nodes are looked up: every node but this one, and no
/// node that left.
pub proof fn law_lookups_follow_the_cluster(
    specs: Seq<SpecView>,
    peers: Seq<PeerView>,
    me: Seq<u8>,
    id: Seq<u8>,
)
    ensures
        ({
            let after = extended(select(specs, peers, true), peers, me, peers.len());
            &&& is_active(peers, id) && id != me ==> is_tracked(after, id)
            &&& is_tracked(after, id) ==> is_active(peers, id)
        }),
{
    let kept = select(specs, peers, true);
    let after = extended(kept, peers, me, peers.len());
    if is_active(peers, id) && id != me {
        let place = choose|i: int| 0 <= i < peers.len() && (#[trigger] peers[i]).id == id;
        lemma_extended_covers(kept, peers, me, peers.len(), place);
    }
    if is_tracked(after, id) {
        let i = choose|i: int| 0 <= i < after.len() && (#[trigger] after[i]).id == id;
        lemma_extended(kept, peers, me, peers.len(), i);
        if i < kept.len() {
            lemma_select(specs, peers, true, i);
        }
    }
}


/// What discovery says of a node of the segment.
pub struct Neighbor {
    pub leader: bool,
    pub raft_id: Vec<u8>,
    /// The node that this one takes for the leader; empty if none.
    pub leader_id: Vec<u8>,
}

#[verifier::ext_equal]
pub struct NeighborView {
    pub leader: bool,
    pub raft_id: Seq<u8>,
    pub leader_id: Seq<u8>,
}

impl View for Neighbor {
    type V = NeighborView;

    open spec fn view(&self) -> NeighborView {
        NeighborView {
            leader: self.leader,
            raft_id: self.raft_id@,
            leader_id: self.leader_id@,
        }
    }
}

pub open spec fn neighbor_views(neighbors: Seq<Neighbor>) -> Seq<NeighborView> {
    Seq::new(neighbors.len(), |i: int| neighbors[i]@)
}

/// A node may apply to a neighbor: one with a name, and a smaller one.
pub open spec fn eligible(me: Seq<u8>, neighbor: NeighborView) -> bool {
    neighbor.raft_id.len() > 0 && order::bytes_before(neighbor.raft_id, me)
}

/// `index` is the first of the eligible neighbors with the smallest name.
pub open spec fn is_anchor(me: Seq<u8>, neighbors: Seq<NeighborView>, index: int) -> bool {
    &&& 0 <= index < neighbors.len()
    &&& eligible(me, neighbors[index])
    &&& forall|i: int|
        0 <= i < neighbors.len() && eligible(me, #[trigger] neighbors[i]) ==> {
            ||| i == index
            ||| order::bytes_before(neighbors[index].raft_id, neighbors[i].raft_id)
            ||| (neighbors[i].raft_id == neighbors[index].raft_id && index < i)
        }
}

/// The neighbor to apply to, if any is eligible.
pub fn choose_anchor(me: &[u8], neighbors: &Vec<Neighbor>) -> (anchor: Option<usize>)
    ensures
        match anchor {
            Some(index) => is_anchor(me@, neighbor_views(neighbors@), index as int),
            None => forall|i: int|
                0 <= i < neighbors@.len() ==> !eligible(
                    me@,
                    #[trigger] neighbor_views(neighbors@)[i],
                ),
        },
{
    let ghost views = neighbor_views(neighbors@);
    let mut best: Option<usize> = None;
    let mut index: usize = 0;
    while index < neighbors.len()
        invariant
            index <= neighbors@.len(),
            views == neighbor_views(neighbors@),
            match best {
                Some(best) => best < index && is_anchor(me@, views.take(index as int), best as int),
                None => forall|i: int| 0 <= i < index ==> !eligible(me@, #[trigger] views[i]),
            },
        decreases neighbors@.len() - index,
    {
        let candidate = &neighbors[index];
        assert(views[index as int] == candidate@);
        let ghost before = views.take(index as int);
        let ghost after = views.take(index + 1);
        assert(forall|i: int| 0 <= i < index ==> before[i] == views[i] && after[i] == views[i]);
        assert(after[index as int] == candidate@);
        if candidate.raft_id.len() > 0 && order::is_before(candidate.raft_id.as_slice(), me) {
            match best {
                Some(place) => {
                    let current = &neighbors[place];
                    assert(views[place as int] == current@);
                    if order::is_before(
                        candidate.raft_id.as_slice(),
                        current.raft_id.as_slice(),
                    ) {
                        proof {
                            assert forall|i: int|
                                0 <= i < after.len() && eligible(
                                    me@,
                                    #[trigger] after[i],
                                ) implies i == index || order::bytes_before(
                                candidate@.raft_id,
                                after[i].raft_id,
                            ) by {
                                if i < index {
                                    assert(eligible(me@, before[i]));
                                    if order::bytes_before(current@.raft_id, before[i].raft_id) {
                                        order::lemma_before_transitive(
                                            candidate@.raft_id,
                                            current@.raft_id,
                                            before[i].raft_id,
                                        );
                                    }
                                }
                            }
                        }
                        best = Some(index);
                    } else {
                        proof {
                            order::lemma_before_total(candidate@.raft_id, current@.raft_id);
                            assert forall|i: int|
                                0 <= i < after.len() && eligible(
                                    me@,
                                    #[trigger] after[i],
                                ) implies {
                                ||| i == place
                                ||| order::bytes_before(after[place as int].raft_id, after[i].raft_id)
                                ||| (after[i].raft_id == after[place as int].raft_id && place < i)
                            } by {
                                if i < index {
                                    assert(eligible(me@, before[i]));
                                }
                            }
                        }
                    }
                },
                None => {
                    assert forall|i: int|
                        0 <= i < after.len() && eligible(me@, #[trigger] after[i]) implies i
                        == index by {
                        if i < index {
                            assert(!eligible(me@, views[i]));
                        }
                    }
                    best = Some(index);
                },
            }
        } else {
            assert(!eligible(me@, views[index as int]));
            match best {
                Some(place) => {
                    assert forall|i: int|
                        0 <= i < after.len() && eligible(me@, #[trigger] after[i]) implies {
                        ||| i == place
                        ||| order::bytes_before(after[place as int].raft_id, after[i].raft_id)
                        ||| (after[i].raft_id == after[place as int].raft_id && place < i)
                    } by {
                        if i < index {
                            assert(eligible(me@, before[i]));
                        }
                    }
                    assert(eligible(me@, before[place as int]));
                },
                None => {},
            }
        }
        index += 1;
    }
    assert(views.take(index as int) =~= views);
    best
}

/// Two nodes never apply to each other: only the larger name applies.
pub proof fn law_only_the_larger_name_applies(one: NeighborView, two: NeighborView)
    requires
        eligible(one.raft_id, two),
    ensures
        !eligible(two.raft_id, one),
{
    if order::bytes_before(one.raft_id, two.raft_id) {
        order::lemma_before_transitive(one.raft_id, two.raft_id, one.raft_id);
        order::lemma_not_before_itself(one.raft_id);
    }
}

/// Where an application to a cluster stands.
#[derive(Clone, Copy, Debug, PartialEq, Eq, Structural)]
pub struct Joining {
    pub pending: bool,
    pub retry_at_ms: u64,
    pub accepted: bool,
    pub attempts: u32,
    pub requests_received: u32,
    pub replies_received: u32,
    pub next_query_ms: u64,
}

/// What a node is in its own cluster.
#[derive(Clone, Copy, Debug, PartialEq, Eq, Structural)]
pub enum Role {
    Follower,
    Candidate,
    Leader,
}

/// The number of a role.
pub fn role_number(role: Role) -> (number: u32)
    ensures
        number == match role {
            Role::Follower => 1u32,
            Role::Candidate => 2,
            Role::Leader => 3,
        },
{
    match role {
        Role::Follower => 1,
        Role::Candidate => 2,
        Role::Leader => 3,
    }
}

pub open spec fn one_more(count: u32) -> u32 {
    if count == u32::MAX {
        count
    } else {
        (count + 1) as u32
    }
}

fn bump(count: u32) -> (next: u32)
    ensures
        next == one_more(count),
{
    if count == u32::MAX {
        count
    } else {
        count + 1
    }
}

/// A node's own standing, as far as an application depends on it.
#[derive(Clone, Copy, Debug, PartialEq, Eq)]
pub struct Standing {
    pub role: Role,
    pub members: usize,
    pub joining: bool,
    /// The application that is under way goes to this target.
    pub joining_from_target: bool,
}

/// A node without company may apply, once.
pub open spec fn may_apply(joining: Joining, standing: Standing) -> bool {
    &&& !joining.accepted
    &&& !joining.pending
    &&& standing.members == 1
    &&& standing.role == Role::Leader || (standing.joining && standing.joining_from_target)
}

impl Joining {
    /// The application once it may have waited for too long.
    pub open spec fn expired(self, now: u64) -> Joining {
        if self.pending && now >= self.retry_at_ms {
            Joining { pending: false, next_query_ms: now, ..self }
        } else {
            self
        }
    }

    /// The application, and whether discovery is asked about neighbors now.
    pub open spec fn queried(self, connected: bool, querying: bool, now: u64) -> (Joining, bool) {
        if connected && !querying && now >= self.next_query_ms {
            (Joining { next_query_ms: (now + DISCO_QUERY_MS) as u64, ..self }, true)
        } else {
            (self, false)
        }
    }

    /// The application once it was sent.
    pub open spec fn after_application(self, now: u64) -> Joining {
        Joining {
            pending: true,
            attempts: one_more(self.attempts),
            retry_at_ms: if now > u64::MAX - JOIN_RETRY_MS {
                u64::MAX
            } else {
                (now + JOIN_RETRY_MS) as u64
            },
            ..self
        }
    }

    /// The application once it was answered.
    pub open spec fn after_reply(self, index: Option<u64>) -> Joining {
        Joining {
            replies_received: one_more(self.replies_received),
            pending: self.pending && index is None,
            accepted: self.accepted || (index matches Some(index) && index > 0),
            ..self
        }
    }

    pub fn new() -> (joining: Joining)
        ensures
            joining == (Joining {
                pending: false,
                retry_at_ms: 0,
                accepted: false,
                attempts: 0,
                requests_received: 0,
                replies_received: 0,
                next_query_ms: 0,
            }),
    {
        Joining {
            pending: false,
            retry_at_ms: 0,
            accepted: false,
            attempts: 0,
            requests_received: 0,
            replies_received: 0,
            next_query_ms: 0,
        }
    }

    /// Give up waiting for a reply that is overdue, and look around at once.
    pub fn expire(&mut self, now: u64)
        ensures
            *final(self) == old(self).expired(now),
    {
        if self.pending && now >= self.retry_at_ms {
            self.pending = false;
            self.next_query_ms = now;
        }
    }

    /// Whether to ask discovery. If so, the next question is due later.
    pub fn query_due(&mut self, connected: bool, querying: bool, now: u64) -> (due: bool)
        requires
            now <= u64::MAX - DISCO_QUERY_MS,
        ensures
            (*final(self), due) == old(self).queried(connected, querying, now),
    {
        if connected && !querying && now >= self.next_query_ms {
            self.next_query_ms = now + DISCO_QUERY_MS;
            true
        } else {
            false
        }
    }

    /// Whether to apply now.
    pub fn applies(&self, standing: &Standing) -> (applies: bool)
        ensures
            applies == may_apply(*self, *standing),
    {
        let entitled: bool = match standing.role {
            Role::Leader => true,
            Role::Follower => standing.joining && standing.joining_from_target,
            Role::Candidate => standing.joining && standing.joining_from_target,
        };
        !self.accepted && !self.pending && standing.members == 1 && entitled
    }

    /// An application was sent.
    pub fn applied(&mut self, now: u64)
        ensures
            *final(self) == old(self).after_application(now),
    {
        self.pending = true;
        self.attempts = bump(self.attempts);
        self.retry_at_ms = now.saturating_add(JOIN_RETRY_MS);
    }

    /// Another node applied.
    pub fn requested(&mut self)
        ensures
            *final(self) == (Joining {
                requests_received: one_more(old(self).requests_received),
                ..*old(self)
            }),
    {
        self.requests_received = bump(self.requests_received);
    }

    /// A reply arrived: the index of the entry that admits this node, zero if
    /// it is refused, nothing if the reply makes no sense.
    pub fn replied(&mut self, index: Option<u64>)
        ensures
            *final(self) == old(self).after_reply(index),
    {
        self.replies_received = bump(self.replies_received);
        match index {
            Some(index) => {
                self.pending = false;
                if index > 0 {
                    self.accepted = true;
                }
            },
            None => {},
        }
    }
}

/// A node that was admitted does not apply again.
pub proof fn law_admitted_node_does_not_apply(joining: Joining, standing: Standing)
    requires
        joining.accepted,
    ensures
        !may_apply(joining, standing),
{
}

/// Whether to apply to the neighbor itself or to the leader that it names:
/// true for the leader, which must be one that can be reached.
pub fn follow_hint(neighbor_leads: bool, has_hint: bool, hint_reachable: bool) -> (follow: bool)
    ensures
        follow == (!neighbor_leads && has_hint && hint_reachable),
{
    !neighbor_leads && has_hint && hint_reachable
}

/// The shortest frame: addresses, type and one byte.
pub const MIN_FRAME_LEN: usize = 15;

pub const MAX_FRAME_LEN: usize = 4096;

/// Who sent a frame, and what it carries.
pub struct Frame<'a> {
    pub source: [u8; 6],
    pub payload: &'a [u8],
}

/// Who sent a frame of `len` bytes, and what it carries.
pub open spec fn framed(memory: Seq<u8>, len: int) -> Option<(Seq<u8>, Seq<u8>)> {
    if MIN_FRAME_LEN <= len <= MAX_FRAME_LEN {
        Some((memory.subrange(6, 12), memory.subrange(14, len)))
    } else {
        None
    }
}

/// Take a frame out of the memory that it came in.
pub fn read_frame<'a>(memory: &'a [u8], len: usize) -> (frame: Option<Frame<'a>>)
    requires
        len <= memory@.len(),
    ensures
        match frame {
            Some(frame) => framed(memory@, len as int) == Some(
                (frame.source@, frame.payload@),
            ),
            None => framed(memory@, len as int) is None,
        },
{
    if len < MIN_FRAME_LEN || len > MAX_FRAME_LEN {
        return None;
    }
    let source: [u8; 6] = [memory[6], memory[7], memory[8], memory[9], memory[10], memory[11]];
    assert(source@ =~= memory@.subrange(6, 12));
    Some(Frame { source, payload: vstd::slice::slice_subrange(memory, 14, len) })
}

/// The tags of the application and its reply.
#[derive(Clone, Copy, Debug, PartialEq, Eq)]
pub struct JoinTags {
    pub request: u8,
    pub reply: u8,
}

/// What a frame is about.
#[derive(Clone, Copy, Debug, PartialEq, Eq, Structural)]
pub enum FrameKind {
    /// A request or a response of the consensus, with its place among them.
    Consensus { place: usize },
    JoinRequest,
    JoinReply,
    Other,
}

/// What a frame's first byte says of it.
pub open spec fn kind_of(tag: u8, tags: JoinTags) -> FrameKind {
    if 1 <= tag <= 6 {
        FrameKind::Consensus { place: (tag - 1) as usize }
    } else if tag == tags.request {
        FrameKind::JoinRequest
    } else if tag == tags.reply {
        FrameKind::JoinReply
    } else {
        FrameKind::Other
    }
}

/// Sort a frame by its tag.
pub fn frame_kind(tag: u8, tags: &JoinTags) -> (kind: FrameKind)
    ensures
        kind == kind_of(tag, *tags),
{
    if tag >= 1 && tag <= 6 {
        FrameKind::Consensus { place: tag as usize - 1 }
    } else if tag == tags.request {
        FrameKind::JoinRequest
    } else if tag == tags.reply {
        FrameKind::JoinReply
    } else {
        FrameKind::Other
    }
}

/// The answer to a status request, bit by bit: the role, the term from bit 8
/// on, and the commit index from bit 32 on.
pub open spec fn packed_status(role: u32, term: u64, commit_index: u64) -> u64 {
    role as u64 | (term << 8) | (commit_index << 32)
}

/// The answer to a status request.
pub fn status_word(role: Role, term: u64, commit_index: u64) -> (word: i64)
    ensures
        word == packed_status(
            match role {
                Role::Follower => 1u32,
                Role::Candidate => 2,
                Role::Leader => 3,
            },
            term,
            commit_index,
        ) as i64,
{
    let word: u64 = role_number(role) as u64 | (term << 8) | (commit_index << 32);
    word as i64
}

/// Role, term and commit index can be read from a status, as long as the term
/// fits in 24 bits and the index in 32.
pub proof fn law_status_is_readable(role: u32, term: u64, commit_index: u64)
    requires
        role < 256,
        term < 0x100_0000,
        commit_index < 0x1_0000_0000,
    ensures
        packed_status(role, term, commit_index) & 0xff == role,
        (packed_status(role, term, commit_index) >> 8) & 0xff_ffff == term,
        packed_status(role, term, commit_index) >> 32 == commit_index,
{
    let word = packed_status(role, term, commit_index);
    assert(word & 0xff == role && (word >> 8) & 0xff_ffff == term && word >> 32 == commit_index)
        by (bit_vector)
        requires
            word == role as u64 | (term << 8) | (commit_index << 32),
            role < 256,
            term < 0x100_0000,
            commit_index < 0x1_0000_0000,
    ;
}

/// A payload is at hand and not too long.
pub fn payload_fits(has_memory: bool, len: u64, limit: usize) -> (fits: bool)
    ensures
        fits == (has_memory && len <= limit),
{
    has_memory && len <= limit as u64
}

/// The name in a request to remove a node: its length, then itself.
pub open spec fn removal_of(payload: Seq<u8>) -> Option<Seq<u8>> {
    if payload.len() == 0 {
        None
    } else {
        let len = payload[0] as int;
        if len == 0 || payload.len() < 1 + len || !vstd::utf8::valid_utf8(
            payload.subrange(1, 1 + len),
        ) {
            None
        } else {
            Some(payload.subrange(1, 1 + len))
        }
    }
}

/// Understand a request to remove a node.
pub fn decode_removal(payload: &[u8]) -> (id: Option<Vec<u8>>)
    ensures
        match id {
            Some(id) => removal_of(payload@) == Some(id@),
            None => removal_of(payload@) is None,
        },
{
    if payload.len() == 0 {
        return None;
    }
    let len: usize = payload[0] as usize;
    if len == 0 || payload.len() < 1 + len {
        return None;
    }
    let id: Vec<u8> = wire::copy_range(payload, 1, len);
    if text::is_utf8(id.as_slice()) {
        Some(id)
    } else {
        None
    }
}

/// What to do about a request to remove a node.
#[derive(Clone, Debug, PartialEq, Eq)]
pub enum Removal {
    /// The request makes no sense.
    Malformed,
    NotLeader,
    /// No member would be left.
    LastMember,
    /// Propose the members at these places.
    Propose { members: Vec<usize> },
}

/// The places of the members other than `id`, among the first `count`.
pub open spec fn others(members: Seq<PeerView>, id: Seq<u8>, count: nat) -> Seq<usize>
    decreases count,
{
    if count == 0 {
        Seq::empty()
    } else {
        let before = others(members, id, (count - 1) as nat);
        if members[count - 1].id != id {
            before.push((count - 1) as usize)
        } else {
            before
        }
    }
}

/// Decide about a request to remove a node.
pub fn remove_member(id: &Option<Vec<u8>>, leader: bool, members: &Vec<Peer>) -> (removal: Removal)
    ensures
        match id {
            None => removal == Removal::Malformed,
            Some(id) => {
                let left = others(peer_views(members@), id@, members@.len());
                if !leader {
                    removal == Removal::NotLeader
                } else if left.len() == 0 {
                    removal == Removal::LastMember
                } else {
                    removal matches Removal::Propose { members } && members@ == left
                }
            },
        },
{
    match id {
        None => Removal::Malformed,
        Some(id) => {
            if !leader {
                return Removal::NotLeader;
            }
            let ghost views = peer_views(members@);
            let mut left: Vec<usize> = Vec::new();
            let mut index: usize = 0;
            while index < members.len()
                invariant
                    index <= members@.len(),
                    views == peer_views(members@),
                    left@ == others(views, id@, index as nat),
                decreases members@.len() - index,
            {
                assert(views[index as int].id == members@[index as int].id@);
                if !wire::bytes_equal(members[index].id.as_slice(), id.as_slice()) {
                    left.push(index);
                }
                index += 1;
            }
            if left.len() == 0 {
                Removal::LastMember
            } else {
                Removal::Propose { members: left }
            }
        },
    }
}

/// The members whose admission was announced, and the announcement that is
/// under way.
pub struct Announcements {
    pub announced: Vec<Vec<u8>>,
    pub current: Vec<u8>,
}

/// The names of an announcement list.
pub open spec fn names(list: Seq<Vec<u8>>) -> Seq<Seq<u8>> {
    Seq::new(list.len(), |i: int| list[i]@)
}

/// A member's admission is yet to be announced.
pub open spec fn unannounced(announced: Seq<Seq<u8>>, me: Seq<u8>, member: PeerView) -> bool {
    member.id != me && !announced.contains(member.id)
}

fn is_announced(announced: &Vec<Vec<u8>>, id: &Vec<u8>) -> (found: bool)
    ensures
        found == names(announced@).contains(id@),
{
    let mut index: usize = 0;
    while index < announced.len()
        invariant
            index <= announced@.len(),
            forall|i: int| 0 <= i < index ==> names(announced@)[i] != id@,
        decreases announced@.len() - index,
    {
        if wire::bytes_equal(announced[index].as_slice(), id.as_slice()) {
            assert(names(announced@)[index as int] == id@);
            return true;
        }
        index += 1;
    }
    false
}

impl Announcements {
    pub fn new() -> (announcements: Announcements)
        ensures
            names(announcements.announced@) == Seq::<Seq<u8>>::empty(),
            announcements.current@ == Seq::<u8>::empty(),
    {
        let announcements = Announcements { announced: Vec::new(), current: Vec::new() };
        assert(names(announcements.announced@) =~= Seq::<Seq<u8>>::empty());
        announcements
    }

    /// The event to fire next: that of the first member whose admission was
    /// not announced. Only the leader announces.
    pub fn next(&mut self, leader: bool, me: &Vec<u8>, members: &Vec<Peer>) -> (event: Option<
        Vec<u8>,
    >)
        ensures
            final(self).announced@ == old(self).announced@,
            ({
                let announced = names(old(self).announced@);
                let views = peer_views(members@);
                match event {
                    Some(event) => {
                        &&& leader
                        &&& exists|i: int|
                            0 <= i < views.len() && unannounced(
                                announced,
                                me@,
                                #[trigger] views[i],
                            ) && (forall|j: int|
                                0 <= j < i ==> !unannounced(announced, me@, #[trigger] views[j]))
                                && final(self).current@ == views[i].id && event@
                                == MEMBERSHIP_EVENT@ + views[i].id
                    },
                    None => {
                        &&& *final(self) == *old(self)
                        &&& !leader || forall|j: int|
                            0 <= j < views.len() ==> !unannounced(
                                announced,
                                me@,
                                #[trigger] views[j],
                            )
                    },
                }
            }),
    {
        if !leader {
            return None;
        }
        let ghost views = peer_views(members@);
        let ghost announced = names(self.announced@);
        let mut index: usize = 0;
        while index < members.len()
            invariant
                index <= members@.len(),
                views == peer_views(members@),
                announced == names(self.announced@),
                *self == *old(self),
                leader,
                forall|j: int|
                    0 <= j < index ==> !unannounced(announced, me@, #[trigger] views[j]),
            decreases members@.len() - index,
        {
            let member = &members[index];
            assert(views[index as int] == member@);
            if !wire::bytes_equal(member.id.as_slice(), me.as_slice()) && !is_announced(
                &self.announced,
                &member.id,
            ) {
                assert(unannounced(announced, me@, views[index as int]));
                let mut event: Vec<u8> = Vec::new();
                wire::push_all(&mut event, MEMBERSHIP_EVENT.as_slice());
                wire::push_all(&mut event, member.id.as_slice());
                assert(event@ =~= MEMBERSHIP_EVENT@ + member.id@);
                let current: Vec<u8> = wire::copy_range(member.id.as_slice(), 0, member.id.len());
                assert(current@ =~= member.id@);
                self.current = current;
                return Some(event);
            }
            index += 1;
        }
        None
    }

    /// An event was fired, or was refused; what was refused comes up again.
    pub fn fired(&mut self, result: i64)
        ensures
            final(self).current@ == Seq::<u8>::empty(),
            names(final(self).announced@) == if result > 0 {
                names(old(self).announced@).push(old(self).current@)
            } else {
                names(old(self).announced@)
            },
    {
        let ghost before = self.announced@;
        let mut current: Vec<u8> = Vec::new();
        std::mem::swap(&mut current, &mut self.current);
        if result > 0 {
            self.announced.push(current);
            assert(names(self.announced@) =~= names(before).push(old(self).current@));
        }
    }
}

/// A member whose admission was announced is not announced again.
pub proof fn law_announcements_are_made_once(
    announced: Seq<Seq<u8>>,
    me: Seq<u8>,
    member: PeerView,
)
    ensures
        !unannounced(announced.push(member.id), me, member),
{
    let after = announced.push(member.id);
    assert(after[announced.len() as int] == member.id);
}

/// What the node has and does, one bit for each.
pub open spec fn posture(
    net: bool,
    router: bool,
    discovery: bool,
    joining: Joining,
    node_joining: bool,
) -> int {
    (if net {
        1int
    } else {
        0
    }) + (if router {
        2int
    } else {
        0
    }) + (if discovery {
        4int
    } else {
        0
    }) + (if joining.pending {
        8int
    } else {
        0
    }) + (if joining.accepted {
        16int
    } else {
        0
    }) + (if node_joining {
        32int
    } else {
        0
    })
}

/// What the service is connected to and where its application stands, one bit
/// each.
pub fn posture_bits(
    net: bool,
    router: bool,
    discovery: bool,
    joining: &Joining,
    node_joining: bool,
) -> (bits: u32)
    ensures
        bits == posture(net, router, discovery, *joining, node_joining),
{
    let mut bits: u32 = 0;
    if net {
        bits = bits + 1;
    }
    if router {
        bits = bits + 2;
    }
    if discovery {
        bits = bits + 4;
    }
    if joining.pending {
        bits = bits + 8;
    }
    if joining.accepted {
        bits = bits + 16;
    }
    if node_joining {
        bits = bits + 32;
    }
    bits
}

/// The numbers of the requests.
#[derive(Clone, Copy, Debug, PartialEq, Eq)]
pub struct Opcodes {
    pub vote: u32,
    pub append: u32,
    pub snapshot: u32,
    pub frame: u32,
    pub status: u32,
    pub cluster_status: u32,
    pub add_server: u32,
    pub remove_server: u32,
}

/// A request by its kind.
#[derive(Clone, Copy, Debug, PartialEq, Eq, Structural)]
pub enum Operation {
    Vote,
    Append,
    Snapshot,
    Frame,
    Status,
    ClusterStatus,
    AddServer,
    RemoveServer,
    Unknown,
}

/// The kind of request that a number stands for.
pub open spec fn operation_for(codes: Opcodes, opcode: u32) -> Operation {
    if opcode == codes.vote {
        Operation::Vote
    } else if opcode == codes.append {
        Operation::Append
    } else if opcode == codes.snapshot {
        Operation::Snapshot
    } else if opcode == codes.frame {
        Operation::Frame
    } else if opcode == codes.status {
        Operation::Status
    } else if opcode == codes.cluster_status {
        Operation::ClusterStatus
    } else if opcode == codes.add_server {
        Operation::AddServer
    } else if opcode == codes.remove_server {
        Operation::RemoveServer
    } else {
        Operation::Unknown
    }
}

/// Tell a request's kind by its number.
pub fn operation_of(codes: &Opcodes, opcode: u32) -> (operation: Operation)
    ensures
        operation == operation_for(*codes, opcode),
{
    if opcode == codes.vote {
        Operation::Vote
    } else if opcode == codes.append {
        Operation::Append
    } else if opcode == codes.snapshot {
        Operation::Snapshot
    } else if opcode == codes.frame {
        Operation::Frame
    } else if opcode == codes.status {
        Operation::Status
    } else if opcode == codes.cluster_status {
        Operation::ClusterStatus
    } else if opcode == codes.add_server {
        Operation::AddServer
    } else if opcode == codes.remove_server {
        Operation::RemoveServer
    } else {
        Operation::Unknown
    }
}

/// Nodes of different names, or of clusters of different names, have namespaces
/// computed from different bytes: no name holds the byte between the two.
pub proof fn law_namespaces_tell_names_apart(
    cluster: Seq<u8>,
    node: Seq<u8>,
    other_cluster: Seq<u8>,
    other_node: Seq<u8>,
)
    requires
        !cluster.contains(0xffu8),
        !other_cluster.contains(0xffu8),
        namespace_input(cluster, node) == namespace_input(other_cluster, other_node),
    ensures
        cluster == other_cluster,
        node == other_node,
{
    let one = namespace_input(cluster, node);
    let two = namespace_input(other_cluster, other_node);
    let a = cluster.len() as int;
    let b = other_cluster.len() as int;
    assert(one[a] == 0xff);
    assert(two[b] == 0xff);
    if a < b {
        assert(two[a] == other_cluster[a]);
        assert(other_cluster.contains(other_cluster[a]));
    }
    if b < a {
        assert(one[b] == cluster[b]);
        assert(cluster.contains(cluster[b]));
    }
    assert(one.take(a) =~= cluster);
    assert(two.take(b) =~= other_cluster);
    assert(one.skip(a + 1) =~= node);
    assert(two.skip(b + 1) =~= other_node);
}

/// A node keeps its log on disk where it may and can; one that must and cannot does
/// not start; one that need not goes on in memory.
pub proof fn law_storage_follows_the_policy(policy: StoragePolicy, log: bool, state: bool)
    ensures
        storage_for(policy, log, state) == Storage::Disk <==> policy != StoragePolicy::Memory && log
            && state,
        storage_for(policy, log, state) == Storage::Missing <==> policy == StoragePolicy::Required
            && !(log && state),
{
}

/// Four heartbeats fit in an election timeout, as far as a heartbeat takes from 25
/// to 250 milliseconds; only a leader sends them.
pub proof fn law_four_heartbeats_fit(election_timeout_ms: u64, now: u64, last: u64)
    ensures
        25 <= interval_for(election_timeout_ms) <= 250,
        100 <= election_timeout_ms <= 1003 ==> 4 * interval_for(election_timeout_ms)
            <= election_timeout_ms < 4 * interval_for(election_timeout_ms) + 4,
        election_timeout_ms < 100 ==> interval_for(election_timeout_ms) == 25,
        election_timeout_ms > 1003 ==> interval_for(election_timeout_ms) == 250,
        !beats(false, now, last, 0),
        now >= last ==> forall|interval: u64| #[trigger]
            beats(true, now, last, interval) <==> last + interval <= now,
        now < last ==> forall|interval: u64| #[trigger]
            beats(true, now, last, interval) <==> interval == 0,
{
}

/// A node that applied waits for its answer, for a second, and applies again only
/// when it was not admitted; an answer with an index admits it for good.
pub proof fn law_application_is_answered_or_repeated(
    joining: Joining,
    standing: Standing,
    now: u64,
    later: u64,
    index: u64,
)
    requires
        now <= u64::MAX - 2_000,
        joining.attempts < u32::MAX,
        joining.replies_received < u32::MAX,
    ensures
        ({
            let sent = joining.after_application(now);
            &&& sent.pending
            &&& sent.attempts == joining.attempts + 1
            &&& !may_apply(sent, standing)
            &&& later < now + 1_000 ==> sent.expired(later) == sent
            &&& later >= now + 1_000 ==> !sent.expired(later).pending && sent.expired(
                later,
            ).next_query_ms == later
            &&& sent.after_reply(None).pending
            &&& sent.after_reply(None).accepted == joining.accepted
            &&& !sent.after_reply(Some(index)).pending
            &&& index > 0 ==> sent.after_reply(Some(index)).accepted && !may_apply(
                sent.after_reply(Some(index)),
                standing,
            )
            &&& sent.after_reply(Some(0)).accepted == joining.accepted
            &&& sent.after_reply(Some(index)).replies_received == joining.replies_received + 1
        }),
        may_apply(joining, standing) ==> standing.members == 1 && !joining.accepted
            && !joining.pending,
        !joining.accepted && !joining.pending && standing.members == 1 ==> (may_apply(
            joining,
            standing,
        ) <==> standing.role == Role::Leader || (standing.joining && standing.joining_from_target)),
{
}

/// Neighbors are asked for at most every two seconds, one query at a time.
pub proof fn law_queries_come_every_two_seconds(joining: Joining, now: u64, later: u64)
    requires
        now <= u64::MAX - 2_000,
        now <= later,
    ensures
        joining.queried(true, false, now).1 <==> now >= joining.next_query_ms,
        !joining.queried(false, false, now).1,
        !joining.queried(true, true, now).1,
        joining.queried(true, false, now).1 ==> (joining.queried(true, false, now).0.queried(
            true,
            false,
            later,
        ).1 <==> later >= now + 2_000),
        joining.queried(true, true, now).0 == joining,
{
}

/// A lookup that waits is asked again only after it failed, and a peer is connected
/// only by an answer with a generation and a connection.
pub proof fn law_lookups_wait_for_their_answer(poll: LookupPoll, generation: i64, connection: u64)
    ensures
        lookup_next(false, poll) == LookupStep::Ask,
        lookup_next(true, LookupPoll::Pending) == LookupStep::Wait,
        lookup_next(true, LookupPoll::Failed) == LookupStep::Forget,
        lookup_next(true, LookupPoll::Answered { generation, connection }) == (
        LookupStep::Connect { connection }) <==> generation > 0 && connection != 0,
        generation <= 0 || connection == 0 ==> lookup_next(
            true,
            LookupPoll::Answered { generation, connection },
        ) == LookupStep::Forget,
{
}

/// The six messages of the consensus have the first tags in turn; a joining node's
/// have their own.
pub proof fn law_frames_by_their_tag(tag: u8, tags: JoinTags)
    requires
        tags.request > 6,
        tags.reply > 6,
        tags.request != tags.reply,
    ensures
        kind_of(tag, tags) is Consensus <==> 1 <= tag <= 6,
        kind_of(tag, tags) is Consensus ==> kind_of(tag, tags)->place + 1 == tag,
        kind_of(tag, tags) == FrameKind::JoinRequest <==> tag == tags.request,
        kind_of(tag, tags) == FrameKind::JoinReply <==> tag == tags.reply,
{
}

/// Each of the six bits of the posture says one thing.
pub proof fn law_posture_is_readable(
    net: bool,
    router: bool,
    discovery: bool,
    joining: Joining,
    node_joining: bool,
)
    ensures
        ({
            let bits = posture(net, router, discovery, joining, node_joining);
            &&& 0 <= bits < 64
            &&& bits % 2 == 1 <==> net
            &&& (bits / 2) % 2 == 1 <==> router
            &&& (bits / 4) % 2 == 1 <==> discovery
            &&& (bits / 8) % 2 == 1 <==> joining.pending
            &&& (bits / 16) % 2 == 1 <==> joining.accepted
            &&& bits / 32 == 1 <==> node_joining
        }),
{
}

/// A removal names its member by a length and as many bytes of text, and leaves
/// every member of another name, in order.
pub proof fn law_removal_leaves_the_others(
    id: Seq<u8>,
    rest: Seq<u8>,
    members: Seq<PeerView>,
    index: int,
)
    requires
        0 < id.len() <= 255,
        vstd::utf8::valid_utf8(id),
        0 <= index < members.len() <= usize::MAX,
    ensures
        removal_of(seq![id.len() as u8] + id + rest) == Some(id),
        others(members, id, members.len()).contains(index as usize) <==> members[index].id != id,
        removal_of(seq![0u8] + rest) is None,
{
    let payload = seq![id.len() as u8] + id + rest;
    assert(payload.subrange(1, 1 + id.len() as int) =~= id);
    lemma_others(members, id, members.len(), index);
}

proof fn lemma_others(members: Seq<PeerView>, id: Seq<u8>, count: nat, index: int)
    requires
        count <= members.len() <= usize::MAX,
        0 <= index < members.len(),
    ensures
        others(members, id, count).contains(index as usize) <==> index < count
            && members[index].id != id,
        forall|i: int|
            0 <= i < others(members, id, count).len() ==> #[trigger] others(members, id, count)[i]
                < count,
    decreases count,
{
    if count > 0 {
        lemma_others(members, id, (count - 1) as nat, index);
        let before = others(members, id, (count - 1) as nat);
        let all = others(members, id, count);
        if members[count - 1].id != id {
            assert(all[before.len() as int] == count - 1);
            if before.contains(index as usize) {
                let k = choose|k: int| 0 <= k < before.len() && before[k] == index as usize;
                assert(all[k] == index as usize);
            }
            if all.contains(index as usize) {
                let k = choose|k: int| 0 <= k < all.len() && all[k] == index as usize;
                if k < before.len() {
                    assert(before[k] == index as usize);
                }
            }
        }
    }
}

/// A request is carried out by its own number alone.
pub proof fn law_operations_by_their_number(codes: Opcodes, opcode: u32)
    ensures
        match operation_for(codes, opcode) {
            Operation::Vote => opcode == codes.vote,
            Operation::Append => opcode == codes.append,
            Operation::Snapshot => opcode == codes.snapshot,
            Operation::Frame => opcode == codes.frame,
            Operation::Status => opcode == codes.status,
            Operation::ClusterStatus => opcode == codes.cluster_status,
            Operation::AddServer => opcode == codes.add_server,
            Operation::RemoveServer => opcode == codes.remove_server,
            Operation::Unknown => opcode != codes.vote && opcode != codes.append && opcode
                != codes.snapshot && opcode != codes.frame && opcode != codes.status && opcode
                != codes.cluster_status && opcode != codes.add_server && opcode
                != codes.remove_server,
        },
{
}

/// A node joins one anchor: of the neighbors whose names come before its own, the one
/// whose name comes first.
pub proof fn law_anchor_is_the_first_name(
    me: Seq<u8>,
    neighbors: Seq<NeighborView>,
    one: int,
    two: int,
)
    requires
        is_anchor(me, neighbors, one),
        is_anchor(me, neighbors, two),
    ensures
        one == two,
        neighbors[one].raft_id.len() > 0,
        order::bytes_before(neighbors[one].raft_id, me),
{
    if one != two {
        assert(eligible(me, neighbors[one]) && eligible(me, neighbors[two]));
        let a = neighbors[one].raft_id;
        let b = neighbors[two].raft_id;
        order::lemma_not_before_itself(a);
        order::lemma_not_before_itself(b);
        if order::bytes_before(a, b) && order::bytes_before(b, a) {
            order::lemma_before_transitive(a, b, a);
        }
    }
}

/// A frame is read where it has from 15 to 4096 bytes: its sender stands in its second
/// six, and what it carries from the fifteenth on.
pub proof fn law_frames_are_read_by_their_bytes(memory: Seq<u8>, len: int)
    requires
        len <= memory.len(),
    ensures
        framed(memory, len) is Some <==> 15 <= len <= 4096,
        framed(memory, len) matches Some((source, payload)) ==> {
            &&& source.len() == 6
            &&& source[0] == memory[6] && source[5] == memory[11]
            &&& payload.len() == len - 14
            &&& payload[0] == memory[14]
            &&& payload.last() == memory[len - 1]
        },
        policy_for(None) == StoragePolicy::Memory,
        policy_for(Some(1)) == StoragePolicy::Optional,
        policy_for(Some(2)) == StoragePolicy::Required,
        forall|number: u64|
            number != 1 && number != 2 ==> #[trigger] policy_for(Some(number))
                == StoragePolicy::Memory,
{
}

} // verus!
