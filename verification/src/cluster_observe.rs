//! Bounded wire snapshot for the cluster observability keyhole.
//!
//! The Raft/DNS service produces this binary representation; presentation
//! adapters turn it into JSON or another operator-facing format. Keeping the
//! control plane free of HTML/JSON also gives non-browser tools the same
//! versioned, strictly decoded view.
//!
//! The format is canonical: a valid snapshot has one image, and decoding
//! accepts exactly the images of valid snapshots.
use vstd::prelude::*;

use crate::cluster_ingress::ServiceId;
use crate::order;
use crate::order::Ranked;
use crate::wire;

verus! {

/// "CLOBSV1\0"
pub const MAGIC: [u8; 8] = [0x43, 0x4c, 0x4f, 0x42, 0x53, 0x56, 0x31, 0x00];

pub const VERSION: u16 = 1;

pub const HEADER_LEN: usize = 72;

pub const NODE_RECORD_LEN: usize = 60;

pub const DEPLOYMENT_RECORD_LEN: usize = 36;

pub const INGRESS_RECORD_LEN: usize = 32;

pub const MAX_SNAPSHOT_LEN: usize = 65536;

pub const MAX_NODES: usize = 32;

pub const MAX_DEPLOYMENTS: usize = 256;

pub const FLAG_FRESH_COMMITTED: u16 = 1;

pub const FLAG_LOCAL_LEADER: u16 = 2;

pub const FLAG_TRUNCATED: u16 = 4;

pub const NODE_MEMBER: u16 = 1;

pub const NODE_SELF: u16 = 2;

pub const NODE_LEADER: u16 = 4;

pub const NODE_DRAINING: u16 = 8;

pub const NODE_CAPACITY_PRESENT: u16 = 16;

pub const NODE_CAPACITY_FRESH: u16 = 32;

pub const NODE_MAC_PRESENT: u16 = 64;

/// Every defined node flag.
pub const NODE_FLAGS: u16 = 127;

pub const INGRESS_PROJECTION_PRESENT: u8 = 1;

#[derive(Clone, Copy, Debug, Default, Eq, PartialEq)]
pub struct ControllerCounters {
    pub capacity_reports_accepted: u32,
    pub capacity_commands_proposed: u32,
    pub placement_reassignments: u32,
    pub forced_reassignments: u32,
}

#[derive(Clone, Copy, Debug, Eq, PartialEq)]
pub struct Node {
    pub node_key: u64,
    pub flags: u16,
    pub mac: [u8; 6],
    pub capacity_boot_nonce: u64,
    pub capacity_epoch: u64,
    pub free_frames: u64,
    pub usable_frames: u64,
    pub committed_frames: u64,
    pub cpu_load_permille: u16,
}

#[derive(Clone, Debug, Eq, PartialEq)]
pub struct Deployment {
    pub name: Vec<u8>,
    pub state: u8,
    pub generation: u64,
    pub service_generation: u64,
    pub object_id: u64,
    pub demand_frames: u64,
    pub desired_nodes: Vec<u64>,
    pub ready_nodes: Vec<u64>,
}

#[derive(Clone, Debug, Eq, PartialEq)]
pub struct Ingress {
    pub service: ServiceId,
    pub backend_name: Option<Vec<u8>>,
    pub projection_present: bool,
    pub member_count: u16,
    pub advertiser_node: Option<u64>,
    pub epoch: u64,
    pub eligible_nodes: Vec<u64>,
}

#[derive(Clone, Debug, Eq, PartialEq)]
pub struct Snapshot {
    pub flags: u16,
    pub state: u8,
    pub term: u64,
    pub commit_index: u64,
    pub membership_epoch: u64,
    pub observed_millis: u64,
    pub leader_id: Vec<u8>,
    pub self_id: Vec<u8>,
    pub controller: ControllerCounters,
    pub nodes: Vec<Node>,
    pub deployments: Vec<Deployment>,
    pub ingress: Vec<Ingress>,
}

/// What a deployment record says.
#[verifier::ext_equal]
pub struct DeploymentView {
    pub name: Seq<u8>,
    pub state: u8,
    pub generation: u64,
    pub service_generation: u64,
    pub object_id: u64,
    pub demand_frames: u64,
    pub desired_nodes: Seq<u64>,
    pub ready_nodes: Seq<u64>,
}

/// What an ingress record says.
#[verifier::ext_equal]
pub struct IngressView {
    pub service: ServiceId,
    pub backend_name: Option<Seq<u8>>,
    pub projection_present: bool,
    pub member_count: u16,
    pub advertiser_node: Option<u64>,
    pub epoch: u64,
    pub eligible_nodes: Seq<u64>,
}

/// What a snapshot says.
#[verifier::ext_equal]
pub struct SnapshotView {
    pub flags: u16,
    pub state: u8,
    pub term: u64,
    pub commit_index: u64,
    pub membership_epoch: u64,
    pub observed_millis: u64,
    pub leader_id: Seq<u8>,
    pub self_id: Seq<u8>,
    pub controller: ControllerCounters,
    pub nodes: Seq<Node>,
    pub deployments: Seq<DeploymentView>,
    pub ingress: Seq<IngressView>,
}

impl View for Deployment {
    type V = DeploymentView;

    open spec fn view(&self) -> DeploymentView {
        DeploymentView {
            name: self.name@,
            state: self.state,
            generation: self.generation,
            service_generation: self.service_generation,
            object_id: self.object_id,
            demand_frames: self.demand_frames,
            desired_nodes: self.desired_nodes@,
            ready_nodes: self.ready_nodes@,
        }
    }
}

impl View for Ingress {
    type V = IngressView;

    open spec fn view(&self) -> IngressView {
        IngressView {
            service: self.service,
            backend_name: match self.backend_name {
                Some(name) => Some(name@),
                None => None,
            },
            projection_present: self.projection_present,
            member_count: self.member_count,
            advertiser_node: self.advertiser_node,
            epoch: self.epoch,
            eligible_nodes: self.eligible_nodes@,
        }
    }
}

impl View for Snapshot {
    type V = SnapshotView;

    open spec fn view(&self) -> SnapshotView {
        SnapshotView {
            flags: self.flags,
            state: self.state,
            term: self.term,
            commit_index: self.commit_index,
            membership_epoch: self.membership_epoch,
            observed_millis: self.observed_millis,
            leader_id: self.leader_id@,
            self_id: self.self_id@,
            controller: self.controller,
            nodes: self.nodes@,
            deployments: deployments_views(self.deployments@),
            ingress: ingress_views(self.ingress@),
        }
    }
}

/// The naming rule of deployable artifacts.
pub trait ArtifactNames {
    /// Whether an artifact may have this name.
    spec fn allows(&self, name: Seq<u8>) -> bool;

    /// Whether an artifact may have this name.
    fn accepts(&self, name: &[u8]) -> (ok: bool)
        ensures
            ok == self.allows(name@),
    ;
}

/// A naming rule that lists the known artifacts.
pub struct ArtifactCatalog {
    pub names: Vec<Vec<u8>>,
}

impl ArtifactNames for ArtifactCatalog {
    open spec fn allows(&self, name: Seq<u8>) -> bool {
        exists|i: int| 0 <= i < self.names@.len() && (#[trigger] self.names@[i])@ == name
    }

    fn accepts(&self, name: &[u8]) -> (ok: bool) {
        let mut index: usize = 0;
        while index < self.names.len()
            invariant
                index <= self.names@.len(),
                forall|i: int| 0 <= i < index ==> (#[trigger] self.names@[i])@ != name@,
            decreases self.names@.len() - index,
        {
            if wire::bytes_equal(self.names[index].as_slice(), name) {
                return true;
            }
            index = index + 1;
        }
        false
    }
}

/// Deployment-wide limits and rollout states.
#[derive(Clone, Copy, Debug, Eq, PartialEq)]
pub struct Limits {
    /// The most ingress services a cluster may publish.
    pub max_ingress: usize,
    pub rollout_committed: u8,
    pub rollout_ready: u8,
    pub rollout_replacing: u8,
}

impl Limits {
    /// A state that a committed rollout can be in.
    pub open spec fn rollout(self, state: u8) -> bool {
        state == self.rollout_committed || state == self.rollout_ready || state
            == self.rollout_replacing
    }
}

impl Ranked for ServiceId {
    open spec fn rank(self) -> int {
        (((self.address[0] * 256 + self.address[1]) * 256 + self.address[2]) * 256
            + self.address[3]) * 0x100_0000 + self.protocol * 0x1_0000 + self.port
    }

    fn precedes(&self, other: &Self) -> (before: bool) {
        let one: u64 = ((self.address[0] as u64 * 256 + self.address[1] as u64) * 256
            + self.address[2] as u64) * 256 + self.address[3] as u64;
        let two: u64 = ((other.address[0] as u64 * 256 + other.address[1] as u64) * 256
            + other.address[2] as u64) * 256 + other.address[3] as u64;
        let mine: u64 = one * 0x100_0000 + self.protocol as u64 * 0x1_0000 + self.port as u64;
        let theirs: u64 = two * 0x100_0000 + other.protocol as u64 * 0x1_0000 + other.port as u64;
        mine < theirs
    }
}

/// A flag whose value is the power of two `flag` is set.
pub open spec fn has_flag(flags: u16, flag: u16) -> bool {
    (flags / flag) % 2 == 1
}

/// Nonzero node keys in strictly ascending order.
pub open spec fn node_keys_ok(nodes: Seq<u64>) -> bool {
    &&& nodes.len() <= MAX_NODES
    &&& forall|i: int| 0 <= i < nodes.len() ==> #[trigger] nodes[i] != 0
    &&& order::strictly_ascending(nodes)
}

/// A node record whose parts agree with its flags.
pub open spec fn node_ok(node: Node) -> bool {
    let present = has_flag(node.flags, NODE_CAPACITY_PRESENT);
    &&& node.node_key != 0
    &&& node.flags <= NODE_FLAGS
    &&& has_flag(node.flags, NODE_CAPACITY_FRESH) ==> present
    &&& !present ==> node.capacity_boot_nonce == 0 && node.capacity_epoch == 0
        && node.free_frames == 0 && node.usable_frames == 0 && node.cpu_load_permille == 0
    &&& present ==> node.cpu_load_permille <= 1_000 || node.cpu_load_permille == u16::MAX
    &&& !has_flag(node.flags, NODE_MAC_PRESENT) ==> forall|i: int|
        0 <= i < 6 ==> node.mac[i] == 0
}

/// A deployment record with a legal name, state and node lists.
pub open spec fn deployment_ok<N: ArtifactNames>(
    deployment: DeploymentView,
    limits: Limits,
    names: &N,
) -> bool {
    &&& names.allows(deployment.name)
    &&& deployment.name.len() <= u8::MAX
    &&& limits.rollout(deployment.state)
    &&& node_keys_ok(deployment.desired_nodes)
    &&& node_keys_ok(deployment.ready_nodes)
}

/// An ingress record that reports a projection only where there is one.
pub open spec fn ingress_ok<N: ArtifactNames>(ingress: IngressView, names: &N) -> bool {
    &&& ingress.service.valid()
    &&& ingress.backend_name matches Some(name) ==> names.allows(name) && name.len() <= u8::MAX
    &&& node_keys_ok(ingress.eligible_nodes)
    &&& ingress.member_count <= MAX_NODES
    &&& !ingress.projection_present ==> ingress.member_count == 0 && ingress.advertiser_node
        is None && ingress.epoch == 0 && ingress.eligible_nodes.len() == 0
}

/// A snapshot that may be published.
pub open spec fn snapshot_ok<N: ArtifactNames>(
    view: SnapshotView,
    limits: Limits,
    names: &N,
) -> bool {
    &&& view.flags <= 7
    &&& 1 <= view.state <= 3
    &&& 0 < view.self_id.len() <= u8::MAX
    &&& view.leader_id.len() <= u8::MAX
    &&& view.nodes.len() <= MAX_NODES
    &&& view.deployments.len() <= MAX_DEPLOYMENTS
    &&& view.ingress.len() <= limits.max_ingress
    &&& forall|i: int| 0 <= i < view.nodes.len() ==> node_ok(#[trigger] view.nodes[i])
    &&& forall|i: int, j: int|
        0 <= i < view.nodes.len() && j == i + 1 && j < view.nodes.len() ==> (
        #[trigger] view.nodes[i]).node_key < (#[trigger] view.nodes[j]).node_key
    &&& forall|i: int|
        0 <= i < view.deployments.len() ==> deployment_ok(
            #[trigger] view.deployments[i],
            limits,
            names,
        )
    &&& forall|i: int, j: int|
        0 <= i < view.deployments.len() && j == i + 1 && j < view.deployments.len()
            ==> order::bytes_before(
            (#[trigger] view.deployments[i]).name,
            (#[trigger] view.deployments[j]).name,
        )
    &&& forall|i: int|
        0 <= i < view.ingress.len() ==> ingress_ok(#[trigger] view.ingress[i], names)
    &&& forall|i: int, j: int|
        0 <= i < view.ingress.len() && j == i + 1 && j < view.ingress.len() ==> (
        #[trigger] view.ingress[i]).service.rank() < (#[trigger] view.ingress[j]).service.rank()
}

/// Whether a node key list is nonzero and strictly ascending.
fn valid_nodes(nodes: &[u64]) -> (ok: bool)
    ensures
        ok == node_keys_ok(nodes@),
{
    if nodes.len() > MAX_NODES {
        return false;
    }
    let mut index: usize = 0;
    while index < nodes.len()
        invariant
            index <= nodes@.len(),
            forall|i: int| 0 <= i < index ==> #[trigger] nodes@[i] != 0,
            forall|i: int, j: int| 0 <= i < j < index ==> nodes@[i] < nodes@[j],
        decreases nodes@.len() - index,
    {
        if nodes[index] == 0 {
            return false;
        }
        if index > 0 && nodes[index - 1] >= nodes[index] {
            assert(nodes@[index - 1].rank() >= nodes@[index as int].rank());
            return false;
        }
        proof {
            assert forall|i: int| 0 <= i < index implies nodes@[i] < nodes@[index as int] by {
                if i < index - 1 {
                    assert(nodes@[i] < nodes@[index - 1]);
                }
            }
        }
        index = index + 1;
    }
    true
}

/// Whether a node record's parts agree with its flags.
fn valid_node(node: &Node) -> (ok: bool)
    ensures
        ok == node_ok(*node),
{
    let present: bool = (node.flags / NODE_CAPACITY_PRESENT) % 2 == 1;
    let fresh: bool = (node.flags / NODE_CAPACITY_FRESH) % 2 == 1;
    let mac_present: bool = (node.flags / NODE_MAC_PRESENT) % 2 == 1;
    let mac_zero: bool = wire::all_zero(&node.mac, 0, 6);
    node.node_key != 0 && node.flags <= NODE_FLAGS && (!fresh || present) && (present || (
    node.capacity_boot_nonce == 0 && node.capacity_epoch == 0 && node.free_frames == 0
        && node.usable_frames == 0 && node.cpu_load_permille == 0)) && (!present
        || node.cpu_load_permille <= 1_000 || node.cpu_load_permille == u16::MAX) && (mac_present
        || mac_zero)
}

/// Whether a deployment record is legal.
fn valid_deployment<N: ArtifactNames>(
    deployment: &Deployment,
    limits: &Limits,
    names: &N,
) -> (ok: bool)
    ensures
        ok == deployment_ok(deployment@, *limits, names),
{
    names.accepts(deployment.name.as_slice()) && deployment.name.len() <= 255 && (
    deployment.state == limits.rollout_committed || deployment.state == limits.rollout_ready
        || deployment.state == limits.rollout_replacing) && valid_nodes(
        deployment.desired_nodes.as_slice(),
    ) && valid_nodes(deployment.ready_nodes.as_slice())
}

/// Whether an ingress record is legal.
fn valid_ingress<N: ArtifactNames>(ingress: &Ingress, names: &N) -> (ok: bool)
    ensures
        ok == ingress_ok(ingress@, names),
{
    let name_ok: bool = match &ingress.backend_name {
        Some(name) => names.accepts(name.as_slice()) && name.len() <= 255,
        None => true,
    };
    ingress.service.is_valid() && name_ok && valid_nodes(ingress.eligible_nodes.as_slice())
        && ingress.member_count <= MAX_NODES as u16 && (ingress.projection_present || (
    ingress.member_count == 0 && ingress.advertiser_node.is_none() && ingress.epoch == 0
        && ingress.eligible_nodes.len() == 0))
}

/// Whether a snapshot may be published.
pub fn valid<N: ArtifactNames>(snapshot: &Snapshot, limits: &Limits, names: &N) -> (ok: bool)
    ensures
        ok == snapshot_ok(snapshot@, *limits, names),
{
    if snapshot.flags > 7 || snapshot.state < 1 || snapshot.state > 3 || snapshot.self_id.len()
        == 0 || snapshot.self_id.len() > 255 || snapshot.leader_id.len() > 255
        || snapshot.nodes.len() > MAX_NODES || snapshot.deployments.len() > MAX_DEPLOYMENTS
        || snapshot.ingress.len() > limits.max_ingress {
        return false;
    }
    let ghost view = snapshot@;
    let mut index: usize = 0;
    while index < snapshot.nodes.len()
        invariant
            index <= snapshot.nodes@.len(),
            view == snapshot@,
            forall|i: int| 0 <= i < index ==> node_ok(#[trigger] view.nodes[i]),
            forall|i: int, j: int|
                0 <= i && j == i + 1 && j < index ==> (#[trigger] view.nodes[i]).node_key < (
                #[trigger] view.nodes[j]).node_key,
        decreases snapshot.nodes@.len() - index,
    {
        if !valid_node(&snapshot.nodes[index]) {
            assert(!node_ok(view.nodes[index as int]));
            return false;
        }
        if index > 0 && snapshot.nodes[index - 1].node_key >= snapshot.nodes[index].node_key {
            assert(view.nodes[index - 1].node_key >= view.nodes[index as int].node_key);
            return false;
        }
        index = index + 1;
    }
    let mut index: usize = 0;
    while index < snapshot.deployments.len()
        invariant
            index <= snapshot.deployments@.len(),
            view == snapshot@,
            forall|i: int|
                0 <= i < index ==> deployment_ok(#[trigger] view.deployments[i], *limits, names),
            forall|i: int, j: int|
                0 <= i && j == i + 1 && j < index ==> order::bytes_before(
                    (#[trigger] view.deployments[i]).name,
                    (#[trigger] view.deployments[j]).name,
                ),
        decreases snapshot.deployments@.len() - index,
    {
        assert(view.deployments[index as int] == snapshot.deployments@[index as int]@);
        if !valid_deployment(&snapshot.deployments[index], limits, names) {
            assert(!deployment_ok(view.deployments[index as int], *limits, names));
            return false;
        }
        if index > 0 && !order::is_before(
            snapshot.deployments[index - 1].name.as_slice(),
            snapshot.deployments[index].name.as_slice(),
        ) {
            assert(!order::bytes_before(
                view.deployments[index - 1].name,
                view.deployments[index as int].name,
            ));
            return false;
        }
        index = index + 1;
    }
    let mut index: usize = 0;
    while index < snapshot.ingress.len()
        invariant
            index <= snapshot.ingress@.len(),
            view == snapshot@,
            forall|i: int| 0 <= i < index ==> ingress_ok(#[trigger] view.ingress[i], names),
            forall|i: int, j: int|
                0 <= i && j == i + 1 && j < index ==> (#[trigger] view.ingress[i]).service.rank()
                    < (#[trigger] view.ingress[j]).service.rank(),
        decreases snapshot.ingress@.len() - index,
    {
        assert(view.ingress[index as int] == snapshot.ingress@[index as int]@);
        if !valid_ingress(&snapshot.ingress[index], names) {
            assert(!ingress_ok(view.ingress[index as int], names));
            return false;
        }
        if index > 0 && !snapshot.ingress[index - 1].service.precedes(
            &snapshot.ingress[index].service,
        ) {
            assert(view.ingress[index - 1].service.rank() >= view.ingress[index as
                int].service.rank());
            return false;
        }
        index = index + 1;
    }
    true
}

/// The fixed header of a snapshot image.
pub open spec fn header_code(view: SnapshotView) -> Seq<u8> {
    MAGIC@ + wire::le_bytes(VERSION as nat, 2) + wire::le_bytes(view.flags as nat, 2) + seq![
        view.state,
    ] + seq![view.leader_id.len() as u8] + seq![view.self_id.len() as u8] + seq![0u8]
        + wire::le_bytes(view.term as nat, 8) + wire::le_bytes(view.commit_index as nat, 8)
        + wire::le_bytes(view.membership_epoch as nat, 8) + wire::le_bytes(
        view.observed_millis as nat,
        8,
    ) + wire::le_bytes(view.nodes.len(), 2) + wire::le_bytes(view.deployments.len(), 2)
        + wire::le_bytes(view.ingress.len(), 2) + wire::le_bytes(0, 2) + wire::le_bytes(
        view.controller.capacity_reports_accepted as nat,
        4,
    ) + wire::le_bytes(view.controller.capacity_commands_proposed as nat, 4) + wire::le_bytes(
        view.controller.placement_reassignments as nat,
        4,
    ) + wire::le_bytes(view.controller.forced_reassignments as nat, 4)
}

/// A node record.
pub open spec fn node_code(node: Node) -> Seq<u8> {
    wire::le_bytes(node.node_key as nat, 8) + wire::le_bytes(node.flags as nat, 2) + node.mac@
        + wire::le_bytes(node.capacity_boot_nonce as nat, 8) + wire::le_bytes(
        node.capacity_epoch as nat,
        8,
    ) + wire::le_bytes(node.free_frames as nat, 8) + wire::le_bytes(node.usable_frames as nat, 8)
        + wire::le_bytes(node.committed_frames as nat, 8) + wire::le_bytes(
        node.cpu_load_permille as nat,
        2,
    ) + wire::le_bytes(0, 2)
}

/// A deployment record.
pub open spec fn deployment_code(deployment: DeploymentView) -> Seq<u8> {
    seq![deployment.name.len() as u8] + seq![deployment.state] + seq![
        deployment.desired_nodes.len() as u8,
    ] + seq![deployment.ready_nodes.len() as u8] + wire::le_bytes(
        deployment.generation as nat,
        8,
    ) + wire::le_bytes(deployment.service_generation as nat, 8) + wire::le_bytes(
        deployment.object_id as nat,
        8,
    ) + wire::le_bytes(deployment.demand_frames as nat, 8) + deployment.name + wire::le_list(
        deployment.desired_nodes,
    ) + wire::le_list(deployment.ready_nodes)
}

/// The backend name bytes of an ingress record. No name is an empty name.
pub open spec fn backend_bytes(ingress: IngressView) -> Seq<u8> {
    match ingress.backend_name {
        Some(name) => name,
        None => Seq::empty(),
    }
}

/// The advertiser field of an ingress record. No advertiser is zero.
pub open spec fn advertiser_field(ingress: IngressView) -> u64 {
    match ingress.advertiser_node {
        Some(node) => node,
        None => 0,
    }
}

/// An ingress record.
pub open spec fn ingress_code(ingress: IngressView) -> Seq<u8> {
    ingress.service.address@ + seq![ingress.service.protocol] + seq![
        backend_bytes(ingress).len() as u8,
    ] + seq![ingress.eligible_nodes.len() as u8] + seq![
        if ingress.projection_present {
            1u8
        } else {
            0u8
        },
    ] + wire::le_bytes(ingress.service.port as nat, 2) + wire::le_bytes(
        ingress.member_count as nat,
        2,
    ) + wire::le_bytes(advertiser_field(ingress) as nat, 8) + wire::le_bytes(
        ingress.epoch as nat,
        8,
    ) + wire::le_bytes(0, 4) + backend_bytes(ingress) + wire::le_list(ingress.eligible_nodes)
}

/// How node records are written.
pub open spec fn node_coder() -> spec_fn(Node) -> Seq<u8> {
    |node: Node| node_code(node)
}

/// How deployment records are written.
pub open spec fn deployment_coder() -> spec_fn(DeploymentView) -> Seq<u8> {
    |deployment: DeploymentView| deployment_code(deployment)
}

/// How ingress records are written.
pub open spec fn ingress_coder() -> spec_fn(IngressView) -> Seq<u8> {
    |ingress: IngressView| ingress_code(ingress)
}

/// The image of a snapshot.
pub open spec fn image(view: SnapshotView) -> Seq<u8> {
    header_code(view) + view.leader_id + view.self_id + wire::records(view.nodes, node_coder())
        + wire::records(view.deployments, deployment_coder()) + wire::records(
        view.ingress,
        ingress_coder(),
    )
}

/// An absent backend name or advertiser is written as an empty name or a zero,
/// so a present one that is empty or zero has no image of its own.
pub open spec fn canonical(view: SnapshotView) -> bool {
    forall|i: int|
        0 <= i < view.ingress.len() ==> canonical_ingress(#[trigger] view.ingress[i])
}

/// The record distinguishes what is absent from what is present.
pub open spec fn canonical_ingress(ingress: IngressView) -> bool {
    &&& ingress.backend_name matches Some(name) ==> name.len() > 0
    &&& ingress.advertiser_node != Some(0u64)
}

/// `bytes` is the image of the publishable snapshot `view`.
pub open spec fn is_image<N: ArtifactNames>(
    bytes: Seq<u8>,
    view: SnapshotView,
    limits: Limits,
    names: &N,
) -> bool {
    &&& snapshot_ok(view, limits, names)
    &&& canonical(view)
    &&& bytes == image(view)
    &&& bytes.len() <= MAX_SNAPSHOT_LEN
}

/// Where the parts of a header stand.
proof fn lemma_header_fields(bytes: Seq<u8>, view: SnapshotView)
    requires
        view.leader_id.len() <= u8::MAX,
        view.self_id.len() <= u8::MAX,
        view.nodes.len() <= u16::MAX,
        view.deployments.len() <= u16::MAX,
        view.ingress.len() <= u16::MAX,
    ensures
        header_code(view).len() == HEADER_LEN,
        wire::holds(bytes, 0, header_code(view)) <==> {
            &&& bytes.len() >= HEADER_LEN
            &&& wire::holds(bytes, 0, MAGIC@)
            &&& wire::field(bytes, 8, 2) == VERSION
            &&& wire::field(bytes, 10, 2) == view.flags
            &&& bytes[12] == view.state
            &&& bytes[13] == view.leader_id.len()
            &&& bytes[14] == view.self_id.len()
            &&& bytes[15] == 0
            &&& wire::field(bytes, 16, 8) == view.term
            &&& wire::field(bytes, 24, 8) == view.commit_index
            &&& wire::field(bytes, 32, 8) == view.membership_epoch
            &&& wire::field(bytes, 40, 8) == view.observed_millis
            &&& wire::field(bytes, 48, 2) == view.nodes.len()
            &&& wire::field(bytes, 50, 2) == view.deployments.len()
            &&& wire::field(bytes, 52, 2) == view.ingress.len()
            &&& wire::field(bytes, 54, 2) == 0
            &&& wire::field(bytes, 56, 4) == view.controller.capacity_reports_accepted
            &&& wire::field(bytes, 60, 4) == view.controller.capacity_commands_proposed
            &&& wire::field(bytes, 64, 4) == view.controller.placement_reassignments
            &&& wire::field(bytes, 68, 4) == view.controller.forced_reassignments
        },
{
    wire::lemma_byte_capacities();
    let c0 = MAGIC@;
    let p1 = wire::le_bytes(VERSION as nat, 2);
    let p2 = wire::le_bytes(view.flags as nat, 2);
    let p3 = seq![view.state];
    let p4 = seq![view.leader_id.len() as u8];
    let p5 = seq![view.self_id.len() as u8];
    let p6 = seq![0u8];
    let p7 = wire::le_bytes(view.term as nat, 8);
    let p8 = wire::le_bytes(view.commit_index as nat, 8);
    let p9 = wire::le_bytes(view.membership_epoch as nat, 8);
    let p10 = wire::le_bytes(view.observed_millis as nat, 8);
    let p11 = wire::le_bytes(view.nodes.len(), 2);
    let p12 = wire::le_bytes(view.deployments.len(), 2);
    let p13 = wire::le_bytes(view.ingress.len(), 2);
    let p14 = wire::le_bytes(0, 2);
    let p15 = wire::le_bytes(view.controller.capacity_reports_accepted as nat, 4);
    let p16 = wire::le_bytes(view.controller.capacity_commands_proposed as nat, 4);
    let p17 = wire::le_bytes(view.controller.placement_reassignments as nat, 4);
    let p18 = wire::le_bytes(view.controller.forced_reassignments as nat, 4);
    wire::lemma_le_bytes_len(VERSION as nat, 2);
    wire::lemma_le_bytes_len(view.flags as nat, 2);
    wire::lemma_le_bytes_len(view.term as nat, 8);
    wire::lemma_le_bytes_len(view.commit_index as nat, 8);
    wire::lemma_le_bytes_len(view.membership_epoch as nat, 8);
    wire::lemma_le_bytes_len(view.observed_millis as nat, 8);
    wire::lemma_le_bytes_len(view.nodes.len(), 2);
    wire::lemma_le_bytes_len(view.deployments.len(), 2);
    wire::lemma_le_bytes_len(view.ingress.len(), 2);
    wire::lemma_le_bytes_len(0, 2);
    wire::lemma_le_bytes_len(view.controller.capacity_reports_accepted as nat, 4);
    wire::lemma_le_bytes_len(view.controller.capacity_commands_proposed as nat, 4);
    wire::lemma_le_bytes_len(view.controller.placement_reassignments as nat, 4);
    wire::lemma_le_bytes_len(view.controller.forced_reassignments as nat, 4);
    let c1 = c0 + p1;
    let c2 = c1 + p2;
    let c3 = c2 + p3;
    let c4 = c3 + p4;
    let c5 = c4 + p5;
    let c6 = c5 + p6;
    let c7 = c6 + p7;
    let c8 = c7 + p8;
    let c9 = c8 + p9;
    let c10 = c9 + p10;
    let c11 = c10 + p11;
    let c12 = c11 + p12;
    let c13 = c12 + p13;
    let c14 = c13 + p14;
    let c15 = c14 + p15;
    let c16 = c15 + p16;
    let c17 = c16 + p17;
    wire::lemma_holds_concat(bytes, 0, c0, p1);
    wire::lemma_holds_concat(bytes, 0, c1, p2);
    wire::lemma_holds_concat(bytes, 0, c2, p3);
    wire::lemma_holds_concat(bytes, 0, c3, p4);
    wire::lemma_holds_concat(bytes, 0, c4, p5);
    wire::lemma_holds_concat(bytes, 0, c5, p6);
    wire::lemma_holds_concat(bytes, 0, c6, p7);
    wire::lemma_holds_concat(bytes, 0, c7, p8);
    wire::lemma_holds_concat(bytes, 0, c8, p9);
    wire::lemma_holds_concat(bytes, 0, c9, p10);
    wire::lemma_holds_concat(bytes, 0, c10, p11);
    wire::lemma_holds_concat(bytes, 0, c11, p12);
    wire::lemma_holds_concat(bytes, 0, c12, p13);
    wire::lemma_holds_concat(bytes, 0, c13, p14);
    wire::lemma_holds_concat(bytes, 0, c14, p15);
    wire::lemma_holds_concat(bytes, 0, c15, p16);
    wire::lemma_holds_concat(bytes, 0, c16, p17);
    wire::lemma_holds_concat(bytes, 0, c17, p18);
    assert(header_code(view) == c17 + p18);
    if bytes.len() >= HEADER_LEN {
        wire::lemma_holds_le(bytes, 8, VERSION as nat, 2);
        wire::lemma_holds_le(bytes, 10, view.flags as nat, 2);
        wire::lemma_holds_byte(bytes, 12, view.state);
        wire::lemma_holds_byte(bytes, 13, view.leader_id.len() as u8);
        wire::lemma_holds_byte(bytes, 14, view.self_id.len() as u8);
        wire::lemma_holds_byte(bytes, 15, 0u8);
        wire::lemma_holds_le(bytes, 16, view.term as nat, 8);
        wire::lemma_holds_le(bytes, 24, view.commit_index as nat, 8);
        wire::lemma_holds_le(bytes, 32, view.membership_epoch as nat, 8);
        wire::lemma_holds_le(bytes, 40, view.observed_millis as nat, 8);
        wire::lemma_holds_le(bytes, 48, view.nodes.len(), 2);
        wire::lemma_holds_le(bytes, 50, view.deployments.len(), 2);
        wire::lemma_holds_le(bytes, 52, view.ingress.len(), 2);
        wire::lemma_holds_le(bytes, 54, 0, 2);
        wire::lemma_holds_le(bytes, 56, view.controller.capacity_reports_accepted as nat, 4);
        wire::lemma_holds_le(bytes, 60, view.controller.capacity_commands_proposed as nat, 4);
        wire::lemma_holds_le(bytes, 64, view.controller.placement_reassignments as nat, 4);
        wire::lemma_holds_le(bytes, 68, view.controller.forced_reassignments as nat, 4);
    }
}

/// Where the parts of a node record stand.
proof fn lemma_node_fields(bytes: Seq<u8>, at: int, node: Node)
    requires
        0 <= at,
    ensures
        node_code(node).len() == NODE_RECORD_LEN,
        wire::holds(bytes, at, node_code(node)) <==> {
            &&& at + NODE_RECORD_LEN <= bytes.len()
            &&& wire::field(bytes, at, 8) == node.node_key
            &&& wire::field(bytes, at + 8, 2) == node.flags
            &&& wire::holds(bytes, at + 10, node.mac@)
            &&& wire::field(bytes, at + 16, 8) == node.capacity_boot_nonce
            &&& wire::field(bytes, at + 24, 8) == node.capacity_epoch
            &&& wire::field(bytes, at + 32, 8) == node.free_frames
            &&& wire::field(bytes, at + 40, 8) == node.usable_frames
            &&& wire::field(bytes, at + 48, 8) == node.committed_frames
            &&& wire::field(bytes, at + 56, 2) == node.cpu_load_permille
            &&& wire::field(bytes, at + 58, 2) == 0
        },
{
    wire::lemma_byte_capacities();
    let c0 = wire::le_bytes(node.node_key as nat, 8);
    let p1 = wire::le_bytes(node.flags as nat, 2);
    let p2 = node.mac@;
    let p3 = wire::le_bytes(node.capacity_boot_nonce as nat, 8);
    let p4 = wire::le_bytes(node.capacity_epoch as nat, 8);
    let p5 = wire::le_bytes(node.free_frames as nat, 8);
    let p6 = wire::le_bytes(node.usable_frames as nat, 8);
    let p7 = wire::le_bytes(node.committed_frames as nat, 8);
    let p8 = wire::le_bytes(node.cpu_load_permille as nat, 2);
    let p9 = wire::le_bytes(0, 2);
    wire::lemma_le_bytes_len(node.node_key as nat, 8);
    wire::lemma_le_bytes_len(node.flags as nat, 2);
    wire::lemma_le_bytes_len(node.capacity_boot_nonce as nat, 8);
    wire::lemma_le_bytes_len(node.capacity_epoch as nat, 8);
    wire::lemma_le_bytes_len(node.free_frames as nat, 8);
    wire::lemma_le_bytes_len(node.usable_frames as nat, 8);
    wire::lemma_le_bytes_len(node.committed_frames as nat, 8);
    wire::lemma_le_bytes_len(node.cpu_load_permille as nat, 2);
    wire::lemma_le_bytes_len(0, 2);
    let c1 = c0 + p1;
    let c2 = c1 + p2;
    let c3 = c2 + p3;
    let c4 = c3 + p4;
    let c5 = c4 + p5;
    let c6 = c5 + p6;
    let c7 = c6 + p7;
    let c8 = c7 + p8;
    wire::lemma_holds_concat(bytes, at, c0, p1);
    wire::lemma_holds_concat(bytes, at, c1, p2);
    wire::lemma_holds_concat(bytes, at, c2, p3);
    wire::lemma_holds_concat(bytes, at, c3, p4);
    wire::lemma_holds_concat(bytes, at, c4, p5);
    wire::lemma_holds_concat(bytes, at, c5, p6);
    wire::lemma_holds_concat(bytes, at, c6, p7);
    wire::lemma_holds_concat(bytes, at, c7, p8);
    wire::lemma_holds_concat(bytes, at, c8, p9);
    assert(node_code(node) == c8 + p9);
    if at + NODE_RECORD_LEN <= bytes.len() {
        wire::lemma_holds_le(bytes, at, node.node_key as nat, 8);
        wire::lemma_holds_le(bytes, at + 8, node.flags as nat, 2);
        wire::lemma_holds_le(bytes, at + 16, node.capacity_boot_nonce as nat, 8);
        wire::lemma_holds_le(bytes, at + 24, node.capacity_epoch as nat, 8);
        wire::lemma_holds_le(bytes, at + 32, node.free_frames as nat, 8);
        wire::lemma_holds_le(bytes, at + 40, node.usable_frames as nat, 8);
        wire::lemma_holds_le(bytes, at + 48, node.committed_frames as nat, 8);
        wire::lemma_holds_le(bytes, at + 56, node.cpu_load_permille as nat, 2);
        wire::lemma_holds_le(bytes, at + 58, 0, 2);
    }
}

/// Where the parts of a deployment record stand.
proof fn lemma_deployment_fields(bytes: Seq<u8>, at: int, deployment: DeploymentView)
    requires
        0 <= at,
        deployment.name.len() <= u8::MAX,
        deployment.desired_nodes.len() <= u8::MAX,
        deployment.ready_nodes.len() <= u8::MAX,
    ensures
        deployment_code(deployment).len() == DEPLOYMENT_RECORD_LEN + deployment.name.len() + 8
            * deployment.desired_nodes.len() + 8 * deployment.ready_nodes.len(),
        wire::holds(bytes, at, deployment_code(deployment)) <==> {
            let names_at = at + DEPLOYMENT_RECORD_LEN;
            let desired_at = names_at + deployment.name.len();
            let ready_at = desired_at + 8 * deployment.desired_nodes.len();
            &&& at + DEPLOYMENT_RECORD_LEN <= bytes.len()
            &&& bytes[at] == deployment.name.len()
            &&& bytes[at + 1] == deployment.state
            &&& bytes[at + 2] == deployment.desired_nodes.len()
            &&& bytes[at + 3] == deployment.ready_nodes.len()
            &&& wire::field(bytes, at + 4, 8) == deployment.generation
            &&& wire::field(bytes, at + 12, 8) == deployment.service_generation
            &&& wire::field(bytes, at + 20, 8) == deployment.object_id
            &&& wire::field(bytes, at + 28, 8) == deployment.demand_frames
            &&& wire::holds(bytes, names_at, deployment.name)
            &&& wire::holds(bytes, desired_at, wire::le_list(deployment.desired_nodes))
            &&& wire::holds(bytes, ready_at, wire::le_list(deployment.ready_nodes))
        },
{
    wire::lemma_byte_capacities();
    let c0 = seq![deployment.name.len() as u8];
    let p1 = seq![deployment.state];
    let p2 = seq![deployment.desired_nodes.len() as u8];
    let p3 = seq![deployment.ready_nodes.len() as u8];
    let p4 = wire::le_bytes(deployment.generation as nat, 8);
    let p5 = wire::le_bytes(deployment.service_generation as nat, 8);
    let p6 = wire::le_bytes(deployment.object_id as nat, 8);
    let p7 = wire::le_bytes(deployment.demand_frames as nat, 8);
    let p8 = deployment.name;
    let p9 = wire::le_list(deployment.desired_nodes);
    let p10 = wire::le_list(deployment.ready_nodes);
    wire::lemma_le_bytes_len(deployment.generation as nat, 8);
    wire::lemma_le_bytes_len(deployment.service_generation as nat, 8);
    wire::lemma_le_bytes_len(deployment.object_id as nat, 8);
    wire::lemma_le_bytes_len(deployment.demand_frames as nat, 8);
    wire::lemma_le_list_len(deployment.desired_nodes);
    wire::lemma_le_list_len(deployment.ready_nodes);
    let c1 = c0 + p1;
    let c2 = c1 + p2;
    let c3 = c2 + p3;
    let c4 = c3 + p4;
    let c5 = c4 + p5;
    let c6 = c5 + p6;
    let c7 = c6 + p7;
    let c8 = c7 + p8;
    let c9 = c8 + p9;
    wire::lemma_holds_concat(bytes, at, c0, p1);
    wire::lemma_holds_concat(bytes, at, c1, p2);
    wire::lemma_holds_concat(bytes, at, c2, p3);
    wire::lemma_holds_concat(bytes, at, c3, p4);
    wire::lemma_holds_concat(bytes, at, c4, p5);
    wire::lemma_holds_concat(bytes, at, c5, p6);
    wire::lemma_holds_concat(bytes, at, c6, p7);
    wire::lemma_holds_concat(bytes, at, c7, p8);
    wire::lemma_holds_concat(bytes, at, c8, p9);
    wire::lemma_holds_concat(bytes, at, c9, p10);
    assert(deployment_code(deployment) == c9 + p10);
    if at + DEPLOYMENT_RECORD_LEN <= bytes.len() {
        wire::lemma_holds_byte(bytes, at, deployment.name.len() as u8);
        wire::lemma_holds_byte(bytes, at + 1, deployment.state);
        wire::lemma_holds_byte(bytes, at + 2, deployment.desired_nodes.len() as u8);
        wire::lemma_holds_byte(bytes, at + 3, deployment.ready_nodes.len() as u8);
        wire::lemma_holds_le(bytes, at + 4, deployment.generation as nat, 8);
        wire::lemma_holds_le(bytes, at + 12, deployment.service_generation as nat, 8);
        wire::lemma_holds_le(bytes, at + 20, deployment.object_id as nat, 8);
        wire::lemma_holds_le(bytes, at + 28, deployment.demand_frames as nat, 8);
    }
}

/// Where the parts of an ingress record stand.
proof fn lemma_ingress_fields(bytes: Seq<u8>, at: int, ingress: IngressView)
    requires
        0 <= at,
        backend_bytes(ingress).len() <= u8::MAX,
        ingress.eligible_nodes.len() <= u8::MAX,
    ensures
        ingress_code(ingress).len() == INGRESS_RECORD_LEN + backend_bytes(ingress).len() + 8
            * ingress.eligible_nodes.len(),
        wire::holds(bytes, at, ingress_code(ingress)) <==> {
            let name_at = at + INGRESS_RECORD_LEN;
            let eligible_at = name_at + backend_bytes(ingress).len();
            &&& at + INGRESS_RECORD_LEN <= bytes.len()
            &&& wire::holds(bytes, at, ingress.service.address@)
            &&& bytes[at + 4] == ingress.service.protocol
            &&& bytes[at + 5] == backend_bytes(ingress).len()
            &&& bytes[at + 6] == ingress.eligible_nodes.len()
            &&& bytes[at + 7] == if ingress.projection_present {
                1int
            } else {
                0int
            }
            &&& wire::field(bytes, at + 8, 2) == ingress.service.port
            &&& wire::field(bytes, at + 10, 2) == ingress.member_count
            &&& wire::field(bytes, at + 12, 8) == advertiser_field(ingress)
            &&& wire::field(bytes, at + 20, 8) == ingress.epoch
            &&& wire::field(bytes, at + 28, 4) == 0
            &&& wire::holds(bytes, name_at, backend_bytes(ingress))
            &&& wire::holds(bytes, eligible_at, wire::le_list(ingress.eligible_nodes))
        },
{
    wire::lemma_byte_capacities();
    let flag = if ingress.projection_present {
        1u8
    } else {
        0u8
    };
    let c0 = ingress.service.address@;
    let p1 = seq![ingress.service.protocol];
    let p2 = seq![backend_bytes(ingress).len() as u8];
    let p3 = seq![ingress.eligible_nodes.len() as u8];
    let p4 = seq![flag];
    let p5 = wire::le_bytes(ingress.service.port as nat, 2);
    let p6 = wire::le_bytes(ingress.member_count as nat, 2);
    let p7 = wire::le_bytes(advertiser_field(ingress) as nat, 8);
    let p8 = wire::le_bytes(ingress.epoch as nat, 8);
    let p9 = wire::le_bytes(0, 4);
    let p10 = backend_bytes(ingress);
    let p11 = wire::le_list(ingress.eligible_nodes);
    wire::lemma_le_bytes_len(ingress.service.port as nat, 2);
    wire::lemma_le_bytes_len(ingress.member_count as nat, 2);
    wire::lemma_le_bytes_len(advertiser_field(ingress) as nat, 8);
    wire::lemma_le_bytes_len(ingress.epoch as nat, 8);
    wire::lemma_le_bytes_len(0, 4);
    wire::lemma_le_list_len(ingress.eligible_nodes);
    let c1 = c0 + p1;
    let c2 = c1 + p2;
    let c3 = c2 + p3;
    let c4 = c3 + p4;
    let c5 = c4 + p5;
    let c6 = c5 + p6;
    let c7 = c6 + p7;
    let c8 = c7 + p8;
    let c9 = c8 + p9;
    let c10 = c9 + p10;
    wire::lemma_holds_concat(bytes, at, c0, p1);
    wire::lemma_holds_concat(bytes, at, c1, p2);
    wire::lemma_holds_concat(bytes, at, c2, p3);
    wire::lemma_holds_concat(bytes, at, c3, p4);
    wire::lemma_holds_concat(bytes, at, c4, p5);
    wire::lemma_holds_concat(bytes, at, c5, p6);
    wire::lemma_holds_concat(bytes, at, c6, p7);
    wire::lemma_holds_concat(bytes, at, c7, p8);
    wire::lemma_holds_concat(bytes, at, c8, p9);
    wire::lemma_holds_concat(bytes, at, c9, p10);
    wire::lemma_holds_concat(bytes, at, c10, p11);
    assert(ingress_code(ingress) == c10 + p11);
    if at + INGRESS_RECORD_LEN <= bytes.len() {
        wire::lemma_holds_byte(bytes, at + 4, ingress.service.protocol);
        wire::lemma_holds_byte(bytes, at + 5, backend_bytes(ingress).len() as u8);
        wire::lemma_holds_byte(bytes, at + 6, ingress.eligible_nodes.len() as u8);
        wire::lemma_holds_byte(bytes, at + 7, flag);
        wire::lemma_holds_le(bytes, at + 8, ingress.service.port as nat, 2);
        wire::lemma_holds_le(bytes, at + 10, ingress.member_count as nat, 2);
        wire::lemma_holds_le(bytes, at + 12, advertiser_field(ingress) as nat, 8);
        wire::lemma_holds_le(bytes, at + 20, ingress.epoch as nat, 8);
        wire::lemma_holds_le(bytes, at + 28, 0, 4);
    }
}

/// Where the parts of an image stand.
proof fn lemma_image_parts(bytes: Seq<u8>, view: SnapshotView)
    ensures
        bytes == image(view) <==> {
            let leader_at = header_code(view).len() as int;
            let self_at = leader_at + view.leader_id.len();
            let nodes_at = self_at + view.self_id.len();
            let deployments_at = nodes_at + wire::records(view.nodes, node_coder()).len();
            let ingress_at = deployments_at + wire::records(
                view.deployments,
                deployment_coder(),
            ).len();
            let end = ingress_at + wire::records(view.ingress, ingress_coder()).len();
            &&& wire::holds(bytes, 0, header_code(view))
            &&& wire::holds(bytes, leader_at, view.leader_id)
            &&& wire::holds(bytes, self_at, view.self_id)
            &&& wire::holds(bytes, nodes_at, wire::records(view.nodes, node_coder()))
            &&& wire::holds(
                bytes,
                deployments_at,
                wire::records(view.deployments, deployment_coder()),
            )
            &&& wire::holds(bytes, ingress_at, wire::records(view.ingress, ingress_coder()))
            &&& end == bytes.len()
        },
{
    let c0 = header_code(view);
    let c1 = c0 + view.leader_id;
    let c2 = c1 + view.self_id;
    let c3 = c2 + wire::records(view.nodes, node_coder());
    let c4 = c3 + wire::records(view.deployments, deployment_coder());
    let c5 = c4 + wire::records(view.ingress, ingress_coder());
    assert(image(view) == c5);
    wire::lemma_holds_concat(bytes, 0, c0, view.leader_id);
    wire::lemma_holds_concat(bytes, 0, c1, view.self_id);
    wire::lemma_holds_concat(bytes, 0, c2, wire::records(view.nodes, node_coder()));
    wire::lemma_holds_concat(bytes, 0, c3, wire::records(view.deployments, deployment_coder()));
    wire::lemma_holds_concat(bytes, 0, c4, wire::records(view.ingress, ingress_coder()));
    assert(bytes.subrange(0, bytes.len() as int) =~= bytes);
}

/// The lengths of a deployment record fit its length bytes.
pub open spec fn deployment_shape(deployment: DeploymentView) -> bool {
    &&& deployment.name.len() <= u8::MAX
    &&& deployment.desired_nodes.len() <= u8::MAX
    &&& deployment.ready_nodes.len() <= u8::MAX
}

/// The lengths of an ingress record fit its length bytes.
pub open spec fn ingress_shape(ingress: IngressView) -> bool {
    &&& backend_bytes(ingress).len() <= u8::MAX
    &&& ingress.eligible_nodes.len() <= u8::MAX
    &&& canonical_ingress(ingress)
}

/// A node record has one reading.
proof fn lemma_node_unique(bytes: Seq<u8>, at: int, one: Node, two: Node)
    requires
        wire::holds(bytes, at, node_code(one)),
        wire::holds(bytes, at, node_code(two)),
    ensures
        one == two,
{
    lemma_node_fields(bytes, at, one);
    lemma_node_fields(bytes, at, two);
    wire::lemma_holds_unique(bytes, at + 10, one.mac@, two.mac@);
    assert(one.mac =~= two.mac);
}

/// A deployment record has one reading.
proof fn lemma_deployment_unique(
    bytes: Seq<u8>,
    at: int,
    one: DeploymentView,
    two: DeploymentView,
)
    requires
        deployment_shape(one),
        deployment_shape(two),
        wire::holds(bytes, at, deployment_code(one)),
        wire::holds(bytes, at, deployment_code(two)),
    ensures
        one == two,
{
    lemma_deployment_fields(bytes, at, one);
    lemma_deployment_fields(bytes, at, two);
    let names_at = at + DEPLOYMENT_RECORD_LEN;
    let desired_at = names_at + one.name.len();
    let ready_at = desired_at + 8 * one.desired_nodes.len();
    wire::lemma_holds_unique(bytes, names_at, one.name, two.name);
    wire::lemma_le_list_len(one.desired_nodes);
    wire::lemma_le_list_len(two.desired_nodes);
    wire::lemma_le_list_len(one.ready_nodes);
    wire::lemma_le_list_len(two.ready_nodes);
    wire::lemma_holds_unique(
        bytes,
        desired_at,
        wire::le_list(one.desired_nodes),
        wire::le_list(two.desired_nodes),
    );
    wire::lemma_holds_unique(
        bytes,
        ready_at,
        wire::le_list(one.ready_nodes),
        wire::le_list(two.ready_nodes),
    );
    wire::lemma_le_list_injective(one.desired_nodes, two.desired_nodes);
    wire::lemma_le_list_injective(one.ready_nodes, two.ready_nodes);
}

/// An ingress record has one reading.
proof fn lemma_ingress_unique(bytes: Seq<u8>, at: int, one: IngressView, two: IngressView)
    requires
        ingress_shape(one),
        ingress_shape(two),
        wire::holds(bytes, at, ingress_code(one)),
        wire::holds(bytes, at, ingress_code(two)),
    ensures
        one == two,
{
    lemma_ingress_fields(bytes, at, one);
    lemma_ingress_fields(bytes, at, two);
    let name_at = at + INGRESS_RECORD_LEN;
    let eligible_at = name_at + backend_bytes(one).len();
    wire::lemma_holds_unique(bytes, at, one.service.address@, two.service.address@);
    assert(one.service.address =~= two.service.address);
    wire::lemma_holds_unique(bytes, name_at, backend_bytes(one), backend_bytes(two));
    wire::lemma_le_list_len(one.eligible_nodes);
    wire::lemma_le_list_len(two.eligible_nodes);
    wire::lemma_holds_unique(
        bytes,
        eligible_at,
        wire::le_list(one.eligible_nodes),
        wire::le_list(two.eligible_nodes),
    );
    wire::lemma_le_list_injective(one.eligible_nodes, two.eligible_nodes);
}

fn push_node(bytes: &mut Vec<u8>, node: &Node)
    ensures
        final(bytes)@ == old(bytes)@ + node_code(*node),
{
    let ghost start = bytes@;
    wire::push_le(bytes, node.node_key, 8);
    wire::push_le(bytes, node.flags as u64, 2);
    wire::push_all(bytes, &node.mac);
    wire::push_le(bytes, node.capacity_boot_nonce, 8);
    wire::push_le(bytes, node.capacity_epoch, 8);
    wire::push_le(bytes, node.free_frames, 8);
    wire::push_le(bytes, node.usable_frames, 8);
    wire::push_le(bytes, node.committed_frames, 8);
    wire::push_le(bytes, node.cpu_load_permille as u64, 2);
    wire::push_le(bytes, 0, 2);
    assert(bytes@ =~= start + node_code(*node));
}

fn push_deployment(bytes: &mut Vec<u8>, deployment: &Deployment)
    requires
        deployment_shape(deployment@),
    ensures
        final(bytes)@ == old(bytes)@ + deployment_code(deployment@),
{
    let ghost start = bytes@;
    bytes.push(deployment.name.len() as u8);
    bytes.push(deployment.state);
    bytes.push(deployment.desired_nodes.len() as u8);
    bytes.push(deployment.ready_nodes.len() as u8);
    wire::push_le(bytes, deployment.generation, 8);
    wire::push_le(bytes, deployment.service_generation, 8);
    wire::push_le(bytes, deployment.object_id, 8);
    wire::push_le(bytes, deployment.demand_frames, 8);
    wire::push_all(bytes, deployment.name.as_slice());
    wire::push_le_list(bytes, deployment.desired_nodes.as_slice());
    wire::push_le_list(bytes, deployment.ready_nodes.as_slice());
    assert(bytes@ =~= start + deployment_code(deployment@));
}

fn push_ingress(bytes: &mut Vec<u8>, ingress: &Ingress)
    requires
        backend_bytes(ingress@).len() <= u8::MAX,
        ingress@.eligible_nodes.len() <= u8::MAX,
    ensures
        final(bytes)@ == old(bytes)@ + ingress_code(ingress@),
{
    let ghost start = bytes@;
    wire::push_all(bytes, &ingress.service.address);
    bytes.push(ingress.service.protocol);
    match &ingress.backend_name {
        Some(name) => bytes.push(name.len() as u8),
        None => bytes.push(0),
    }
    bytes.push(ingress.eligible_nodes.len() as u8);
    bytes.push(
        if ingress.projection_present {
            INGRESS_PROJECTION_PRESENT
        } else {
            0
        },
    );
    wire::push_le(bytes, ingress.service.port as u64, 2);
    wire::push_le(bytes, ingress.member_count as u64, 2);
    wire::push_le(
        bytes,
        match ingress.advertiser_node {
            Some(node) => node,
            None => 0,
        },
        8,
    );
    wire::push_le(bytes, ingress.epoch, 8);
    wire::push_le(bytes, 0, 4);
    match &ingress.backend_name {
        Some(name) => wire::push_all(bytes, name.as_slice()),
        None => {},
    }
    wire::push_le_list(bytes, ingress.eligible_nodes.as_slice());
    assert(bytes@ =~= start + ingress_code(ingress@));
}

/// Encode a publishable snapshot that fits the size limit.
pub fn encode<N: ArtifactNames>(
    snapshot: &Snapshot,
    limits: &Limits,
    names: &N,
) -> (bytes: Option<Vec<u8>>)
    requires
        limits.max_ingress <= u16::MAX,
    ensures
        bytes is Some <==> snapshot_ok(snapshot@, *limits, names) && image(snapshot@).len()
            <= MAX_SNAPSHOT_LEN,
        bytes matches Some(made) ==> made@ == image(snapshot@),
{
    if !valid(snapshot, limits, names) {
        return None;
    }
    let ghost view = snapshot@;
    let mut bytes: Vec<u8> = Vec::new();
    wire::push_all(&mut bytes, &MAGIC);
    wire::push_le(&mut bytes, VERSION as u64, 2);
    wire::push_le(&mut bytes, snapshot.flags as u64, 2);
    bytes.push(snapshot.state);
    bytes.push(snapshot.leader_id.len() as u8);
    bytes.push(snapshot.self_id.len() as u8);
    bytes.push(0);
    wire::push_le(&mut bytes, snapshot.term, 8);
    wire::push_le(&mut bytes, snapshot.commit_index, 8);
    wire::push_le(&mut bytes, snapshot.membership_epoch, 8);
    wire::push_le(&mut bytes, snapshot.observed_millis, 8);
    wire::push_le(&mut bytes, snapshot.nodes.len() as u64, 2);
    wire::push_le(&mut bytes, snapshot.deployments.len() as u64, 2);
    wire::push_le(&mut bytes, snapshot.ingress.len() as u64, 2);
    wire::push_le(&mut bytes, 0, 2);
    wire::push_le(&mut bytes, snapshot.controller.capacity_reports_accepted as u64, 4);
    wire::push_le(&mut bytes, snapshot.controller.capacity_commands_proposed as u64, 4);
    wire::push_le(&mut bytes, snapshot.controller.placement_reassignments as u64, 4);
    wire::push_le(&mut bytes, snapshot.controller.forced_reassignments as u64, 4);
    assert(bytes@ =~= header_code(view));
    wire::push_all(&mut bytes, snapshot.leader_id.as_slice());
    wire::push_all(&mut bytes, snapshot.self_id.as_slice());

    let ghost head = bytes@;
    let mut index: usize = 0;
    assert(view.nodes.take(0) =~= Seq::<Node>::empty());
    assert(bytes@ =~= head + wire::records(view.nodes.take(0), node_coder()));
    while index < snapshot.nodes.len()
        invariant
            index <= snapshot.nodes@.len(),
            view == snapshot@,
            bytes@ == head + wire::records(view.nodes.take(index as int), node_coder()),
        decreases snapshot.nodes@.len() - index,
    {
        push_node(&mut bytes, &snapshot.nodes[index]);
        proof {
            let next = view.nodes.take(index + 1);
            assert(next.drop_last() =~= view.nodes.take(index as int));
            assert(bytes@ =~= head + wire::records(next, node_coder()));
        }
        index = index + 1;
    }
    assert(view.nodes.take(view.nodes.len() as int) =~= view.nodes);

    let ghost head = bytes@;
    let mut index: usize = 0;
    assert(view.deployments.take(0) =~= Seq::<DeploymentView>::empty());
    assert(bytes@ =~= head + wire::records(view.deployments.take(0), deployment_coder()));
    while index < snapshot.deployments.len()
        invariant
            index <= snapshot.deployments@.len(),
            view == snapshot@,
            snapshot_ok(view, *limits, names),
            bytes@ == head + wire::records(
                view.deployments.take(index as int),
                deployment_coder(),
            ),
        decreases snapshot.deployments@.len() - index,
    {
        assert(deployment_ok(view.deployments[index as int], *limits, names));
        push_deployment(&mut bytes, &snapshot.deployments[index]);
        proof {
            let next = view.deployments.take(index + 1);
            assert(next.drop_last() =~= view.deployments.take(index as int));
            assert(bytes@ =~= head + wire::records(next, deployment_coder()));
        }
        index = index + 1;
    }
    assert(view.deployments.take(view.deployments.len() as int) =~= view.deployments);

    let ghost head = bytes@;
    let mut index: usize = 0;
    assert(view.ingress.take(0) =~= Seq::<IngressView>::empty());
    assert(bytes@ =~= head + wire::records(view.ingress.take(0), ingress_coder()));
    while index < snapshot.ingress.len()
        invariant
            index <= snapshot.ingress@.len(),
            view == snapshot@,
            snapshot_ok(view, *limits, names),
            bytes@ == head + wire::records(view.ingress.take(index as int), ingress_coder()),
        decreases snapshot.ingress@.len() - index,
    {
        assert(ingress_ok(view.ingress[index as int], names));
        push_ingress(&mut bytes, &snapshot.ingress[index]);
        proof {
            let next = view.ingress.take(index + 1);
            assert(next.drop_last() =~= view.ingress.take(index as int));
            assert(bytes@ =~= head + wire::records(next, ingress_coder()));
        }
        index = index + 1;
    }
    assert(view.ingress.take(view.ingress.len() as int) =~= view.ingress);
    assert(bytes@ == image(view));
    if bytes.len() <= MAX_SNAPSHOT_LEN {
        Some(bytes)
    } else {
        None
    }
}

/// Read one node record.
fn decode_node(bytes: &[u8], at: usize) -> (node: Option<Node>)
    requires
        at <= bytes@.len(),
    ensures
        match node {
            Some(read) => wire::holds(bytes@, at as int, node_code(read)),
            None => forall|other: Node| !#[trigger] wire::holds(bytes@, at as int, node_code(other)),
        },
{
    proof {
        assert forall|other: Node| #[trigger] wire::holds(bytes@, at as int, node_code(other)) implies
            at + NODE_RECORD_LEN <= bytes@.len() && wire::field(bytes@, at + 58, 2) == 0 by {
            lemma_node_fields(bytes@, at as int, other);
        }
    }
    if bytes.len() - at < NODE_RECORD_LEN {
        return None;
    }
    if wire::read_le(bytes, at + 58, 2) != 0 {
        return None;
    }
    proof {
        wire::lemma_byte_capacities();
    }
    let node: Node = Node {
        node_key: wire::read_le(bytes, at, 8),
        flags: wire::read_le(bytes, at + 8, 2) as u16,
        mac: [
            bytes[at + 10],
            bytes[at + 11],
            bytes[at + 12],
            bytes[at + 13],
            bytes[at + 14],
            bytes[at + 15],
        ],
        capacity_boot_nonce: wire::read_le(bytes, at + 16, 8),
        capacity_epoch: wire::read_le(bytes, at + 24, 8),
        free_frames: wire::read_le(bytes, at + 32, 8),
        usable_frames: wire::read_le(bytes, at + 40, 8),
        committed_frames: wire::read_le(bytes, at + 48, 8),
        cpu_load_permille: wire::read_le(bytes, at + 56, 2) as u16,
    };
    proof {
        lemma_node_fields(bytes@, at as int, node);
        assert(bytes@.subrange(at + 10, at + 16) =~= node.mac@);
    }
    Some(node)
}

/// Read one deployment record.
fn decode_deployment(bytes: &[u8], at: usize) -> (deployment: Option<Deployment>)
    requires
        at <= bytes@.len(),
    ensures
        match deployment {
            Some(read) => deployment_shape(read@) && wire::holds(
                bytes@,
                at as int,
                deployment_code(read@),
            ),
            None => forall|other: DeploymentView|
                deployment_shape(other) ==> !#[trigger] wire::holds(
                    bytes@,
                    at as int,
                    deployment_code(other),
                ),
        },
{
    proof {
        assert forall|other: DeploymentView|
            deployment_shape(other) && #[trigger] wire::holds(
                bytes@,
                at as int,
                deployment_code(other),
            ) implies at + DEPLOYMENT_RECORD_LEN + bytes@[at as int] + 8 * bytes@[at + 2] + 8
            * bytes@[at + 3] <= bytes@.len() && at + DEPLOYMENT_RECORD_LEN <= bytes@.len() by {
            lemma_deployment_fields(bytes@, at as int, other);
        }
    }
    if bytes.len() - at < DEPLOYMENT_RECORD_LEN {
        return None;
    }
    let name_len: usize = bytes[at] as usize;
    let desired_count: usize = bytes[at + 2] as usize;
    let ready_count: usize = bytes[at + 3] as usize;
    if bytes.len() - at - DEPLOYMENT_RECORD_LEN < name_len + 8 * desired_count + 8 * ready_count {
        return None;
    }
    let names_at: usize = at + DEPLOYMENT_RECORD_LEN;
    let desired_at: usize = names_at + name_len;
    let ready_at: usize = desired_at + 8 * desired_count;
    let deployment: Deployment = Deployment {
        name: wire::copy_range(bytes, names_at, name_len),
        state: bytes[at + 1],
        generation: wire::read_le(bytes, at + 4, 8),
        service_generation: wire::read_le(bytes, at + 12, 8),
        object_id: wire::read_le(bytes, at + 20, 8),
        demand_frames: wire::read_le(bytes, at + 28, 8),
        desired_nodes: wire::read_le_list(bytes, desired_at, desired_count),
        ready_nodes: wire::read_le_list(bytes, ready_at, ready_count),
    };
    proof {
        lemma_deployment_fields(bytes@, at as int, deployment@);
    }
    Some(deployment)
}

/// Read one ingress record.
fn decode_ingress(bytes: &[u8], at: usize) -> (ingress: Option<Ingress>)
    requires
        at <= bytes@.len(),
    ensures
        match ingress {
            Some(read) => ingress_shape(read@) && wire::holds(
                bytes@,
                at as int,
                ingress_code(read@),
            ),
            None => forall|other: IngressView|
                ingress_shape(other) ==> !#[trigger] wire::holds(
                    bytes@,
                    at as int,
                    ingress_code(other),
                ),
        },
{
    proof {
        assert forall|other: IngressView|
            ingress_shape(other) && #[trigger] wire::holds(
                bytes@,
                at as int,
                ingress_code(other),
            ) implies at + INGRESS_RECORD_LEN + bytes@[at + 5] + 8 * bytes@[at + 6]
            <= bytes@.len() && at + INGRESS_RECORD_LEN <= bytes@.len() && bytes@[at + 7] <= 1
            && wire::field(bytes@, at + 28, 4) == 0 by {
            lemma_ingress_fields(bytes@, at as int, other);
        }
    }
    if bytes.len() - at < INGRESS_RECORD_LEN {
        return None;
    }
    let name_len: usize = bytes[at + 5] as usize;
    let eligible_count: usize = bytes[at + 6] as usize;
    let flags: u8 = bytes[at + 7];
    if flags > INGRESS_PROJECTION_PRESENT || wire::read_le(bytes, at + 28, 4) != 0 {
        return None;
    }
    if bytes.len() - at - INGRESS_RECORD_LEN < name_len + 8 * eligible_count {
        return None;
    }
    proof {
        wire::lemma_byte_capacities();
    }
    let name: Vec<u8> = wire::copy_range(bytes, at + INGRESS_RECORD_LEN, name_len);
    let advertiser: u64 = wire::read_le(bytes, at + 12, 8);
    let ghost name_view = name@;
    let backend_name: Option<Vec<u8>> = if name_len == 0 {
        None
    } else {
        Some(name)
    };
    let ingress: Ingress = Ingress {
        service: ServiceId {
            address: [bytes[at], bytes[at + 1], bytes[at + 2], bytes[at + 3]],
            protocol: bytes[at + 4],
            port: wire::read_le(bytes, at + 8, 2) as u16,
        },
        backend_name,
        projection_present: flags == INGRESS_PROJECTION_PRESENT,
        member_count: wire::read_le(bytes, at + 10, 2) as u16,
        advertiser_node: if advertiser == 0 {
            None
        } else {
            Some(advertiser)
        },
        epoch: wire::read_le(bytes, at + 20, 8),
        eligible_nodes: wire::read_le_list(
            bytes,
            at + INGRESS_RECORD_LEN + name_len,
            eligible_count,
        ),
    };
    proof {
        assert(backend_bytes(ingress@) =~= name_view);
        assert(bytes@.subrange(at as int, at + 4) =~= ingress.service.address@);
        lemma_ingress_fields(bytes@, at as int, ingress@);
    }
    Some(ingress)
}

/// The deployments as records.
pub open spec fn deployments_views(deployments: Seq<Deployment>) -> Seq<DeploymentView> {
    deployments.map_values(|d: Deployment| d@)
}

/// The ingress services as records.
pub open spec fn ingress_views(ingress: Seq<Ingress>) -> Seq<IngressView> {
    ingress.map_values(|i: Ingress| i@)
}

/// The length of a node record.
fn node_len(node: &Node) -> (len: usize)
    ensures
        len == node_code(*node).len(),
{
    proof {
        lemma_node_fields(Seq::empty(), 0, *node);
    }
    NODE_RECORD_LEN
}

/// The length of a deployment record.
fn deployment_len(deployment: &Deployment) -> (len: usize)
    requires
        deployment_shape(deployment@),
    ensures
        len == deployment_code(deployment@).len(),
{
    proof {
        lemma_deployment_fields(Seq::empty(), 0, deployment@);
    }
    DEPLOYMENT_RECORD_LEN + deployment.name.len() + 8 * deployment.desired_nodes.len() + 8
        * deployment.ready_nodes.len()
}

/// The length of an ingress record.
fn ingress_len(ingress: &Ingress) -> (len: usize)
    requires
        ingress_shape(ingress@),
    ensures
        len == ingress_code(ingress@).len(),
{
    proof {
        lemma_ingress_fields(Seq::empty(), 0, ingress@);
    }
    let name_len: usize = match &ingress.backend_name {
        Some(name) => name.len(),
        None => 0,
    };
    INGRESS_RECORD_LEN + name_len + 8 * ingress.eligible_nodes.len()
}

/// Read `count` node records.
fn decode_nodes(bytes: &[u8], at: usize, count: usize) -> (found: Option<(Vec<Node>, usize)>)
    requires
        at <= bytes@.len(),
    ensures
        match found {
            Some((nodes, end)) => {
                &&& nodes@.len() == count
                &&& wire::holds(bytes@, at as int, wire::records(nodes@, node_coder()))
                &&& end == at + wire::records(nodes@, node_coder()).len()
                &&& forall|other: Seq<Node>|
                    other.len() == count && #[trigger] wire::holds(
                        bytes@,
                        at as int,
                        wire::records(other, node_coder()),
                    ) ==> other == nodes@
            },
            None => forall|other: Seq<Node>|
                other.len() == count ==> !#[trigger] wire::holds(
                    bytes@,
                    at as int,
                    wire::records(other, node_coder()),
                ),
        },
{
    let mut nodes: Vec<Node> = Vec::new();
    let total: usize = bytes.len();
    let mut end: usize = at;
    let mut index: usize = 0;
    proof {
        assert(nodes@ =~= Seq::<Node>::empty());
        assert(bytes@.subrange(at as int, at as int) =~= Seq::<u8>::empty());
    }
    while index < count
        invariant
            index <= count,
            at <= end <= bytes@.len() == total,
            nodes@.len() == index,
            wire::holds(bytes@, at as int, wire::records(nodes@, node_coder())),
            end == at + wire::records(nodes@, node_coder()).len(),
            forall|other: Seq<Node>|
                other.len() == count && #[trigger] wire::holds(
                    bytes@,
                    at as int,
                    wire::records(other, node_coder()),
                ) ==> other.take(index as int) == nodes@,
        decreases count - index,
    {
        let ghost before = nodes@;
        let found: Option<Node> = decode_node(bytes, end);
        match found {
            None => {
                proof {
                    assert forall|other: Seq<Node>|
                        other.len() == count implies !#[trigger] wire::holds(
                        bytes@,
                        at as int,
                        wire::records(other, node_coder()),
                    ) by {
                        if wire::holds(bytes@, at as int, wire::records(other, node_coder())) {
                            wire::lemma_holds_record(
                                bytes@,
                                at as int,
                                other,
                                node_coder(),
                                index as int,
                            );
                            assert(wire::holds(
                                bytes@,
                                end as int,
                                node_code(other[index as int]),
                            ));
                        }
                    }
                }
                return None;
            },
            Some(read) => {
                proof {
                    let item = read;
                    wire::lemma_holds_next_record(bytes@, at as int, before, node_coder(), item);
                    assert forall|other: Seq<Node>|
                        other.len() == count && #[trigger] wire::holds(
                            bytes@,
                            at as int,
                            wire::records(other, node_coder()),
                        ) implies other.take(index + 1) == before.push(item) by {
                        wire::lemma_holds_record(
                            bytes@,
                            at as int,
                            other,
                            node_coder(),
                            index as int,
                        );
                        lemma_node_unique(bytes@, end as int, other[index as int], item);
                        assert(other.take(index + 1) =~= other.take(index as int).push(
                            other[index as int],
                        ));
                    }
                }
                end = end + node_len(&read);
                nodes.push(read);
                assert(nodes@ =~= before.push(read));
            },
        }
        index = index + 1;
    }
    proof {
        assert forall|other: Seq<Node>|
            other.len() == count && #[trigger] wire::holds(
                bytes@,
                at as int,
                wire::records(other, node_coder()),
            ) implies other == nodes@ by {
            assert(other.take(count as int) =~= other);
        }
    }
    Some((nodes, end))
}

/// Read `count` deployment records.
fn decode_deployments(bytes: &[u8], at: usize, count: usize) -> (found: Option<(Vec<Deployment>, usize)>)
    requires
        at <= bytes@.len(),
    ensures
        match found {
            Some((deployments, end)) => {
                &&& deployments_views(deployments@).len() == count
                &&& wire::holds(bytes@, at as int, wire::records(deployments_views(deployments@), deployment_coder()))
                &&& end == at + wire::records(deployments_views(deployments@), deployment_coder()).len()
                &&& forall|other: Seq<DeploymentView>|
                    (forall|i: int| 0 <= i < other.len() ==> deployment_shape(#[trigger] other[i])) && other.len() == count && #[trigger] wire::holds(
                        bytes@,
                        at as int,
                        wire::records(other, deployment_coder()),
                    ) ==> other == deployments_views(deployments@)
                &&& forall|i: int| 0 <= i < count ==> deployment_shape(#[trigger] deployments_views(deployments@)[i])
            },
            None => forall|other: Seq<DeploymentView>|
                (forall|i: int| 0 <= i < other.len() ==> deployment_shape(#[trigger] other[i])) && other.len() == count ==> !#[trigger] wire::holds(
                    bytes@,
                    at as int,
                    wire::records(other, deployment_coder()),
                ),
        },
{
    let mut deployments: Vec<Deployment> = Vec::new();
    let total: usize = bytes.len();
    let mut end: usize = at;
    let mut index: usize = 0;
    proof {
        assert(deployments_views(deployments@) =~= Seq::<DeploymentView>::empty());
        assert(bytes@.subrange(at as int, at as int) =~= Seq::<u8>::empty());
    }
    while index < count
        invariant
            index <= count,
            at <= end <= bytes@.len() == total,
            deployments_views(deployments@).len() == index,
            wire::holds(bytes@, at as int, wire::records(deployments_views(deployments@), deployment_coder())),
            end == at + wire::records(deployments_views(deployments@), deployment_coder()).len(),
            forall|other: Seq<DeploymentView>|
                (forall|i: int| 0 <= i < other.len() ==> deployment_shape(#[trigger] other[i])) && other.len() == count && #[trigger] wire::holds(
                    bytes@,
                    at as int,
                    wire::records(other, deployment_coder()),
                ) ==> other.take(index as int) == deployments_views(deployments@),
            forall|i: int| 0 <= i < index ==> deployment_shape(#[trigger] deployments_views(deployments@)[i]),
        decreases count - index,
    {
        let ghost before = deployments_views(deployments@);
        let found: Option<Deployment> = decode_deployment(bytes, end);
        match found {
            None => {
                proof {
                    assert forall|other: Seq<DeploymentView>|
                        (forall|i: int| 0 <= i < other.len() ==> deployment_shape(#[trigger] other[i])) && other.len() == count implies !#[trigger] wire::holds(
                        bytes@,
                        at as int,
                        wire::records(other, deployment_coder()),
                    ) by {
                        if wire::holds(bytes@, at as int, wire::records(other, deployment_coder())) {
                            wire::lemma_holds_record(
                                bytes@,
                                at as int,
                                other,
                                deployment_coder(),
                                index as int,
                            );
                            assert(wire::holds(
                                bytes@,
                                end as int,
                                deployment_code(other[index as int]),
                            ));
                        }
                    }
                }
                return None;
            },
            Some(read) => {
                proof {
                    let item = read@;
                    wire::lemma_holds_next_record(bytes@, at as int, before, deployment_coder(), item);
                    assert forall|other: Seq<DeploymentView>|
                        (forall|i: int| 0 <= i < other.len() ==> deployment_shape(#[trigger] other[i])) && other.len() == count && #[trigger] wire::holds(
                            bytes@,
                            at as int,
                            wire::records(other, deployment_coder()),
                        ) implies other.take(index + 1) == before.push(item) by {
                        wire::lemma_holds_record(
                            bytes@,
                            at as int,
                            other,
                            deployment_coder(),
                            index as int,
                        );
                        lemma_deployment_unique(bytes@, end as int, other[index as int], item);
                        assert(other.take(index + 1) =~= other.take(index as int).push(
                            other[index as int],
                        ));
                    }
                }
                end = end + deployment_len(&read);
                deployments.push(read);
                assert(deployments_views(deployments@) =~= before.push(read@));
            },
        }
        index = index + 1;
    }
    proof {
        assert forall|other: Seq<DeploymentView>|
            (forall|i: int| 0 <= i < other.len() ==> deployment_shape(#[trigger] other[i])) && other.len() == count && #[trigger] wire::holds(
                bytes@,
                at as int,
                wire::records(other, deployment_coder()),
            ) implies other == deployments_views(deployments@) by {
            assert(other.take(count as int) =~= other);
        }
    }
    Some((deployments, end))
}

/// Read `count` ingress records.
fn decode_services(bytes: &[u8], at: usize, count: usize) -> (found: Option<(Vec<Ingress>, usize)>)
    requires
        at <= bytes@.len(),
    ensures
        match found {
            Some((ingress, end)) => {
                &&& ingress_views(ingress@).len() == count
                &&& wire::holds(bytes@, at as int, wire::records(ingress_views(ingress@), ingress_coder()))
                &&& end == at + wire::records(ingress_views(ingress@), ingress_coder()).len()
                &&& forall|other: Seq<IngressView>|
                    (forall|i: int| 0 <= i < other.len() ==> ingress_shape(#[trigger] other[i])) && other.len() == count && #[trigger] wire::holds(
                        bytes@,
                        at as int,
                        wire::records(other, ingress_coder()),
                    ) ==> other == ingress_views(ingress@)
                &&& forall|i: int| 0 <= i < count ==> ingress_shape(#[trigger] ingress_views(ingress@)[i])
            },
            None => forall|other: Seq<IngressView>|
                (forall|i: int| 0 <= i < other.len() ==> ingress_shape(#[trigger] other[i])) && other.len() == count ==> !#[trigger] wire::holds(
                    bytes@,
                    at as int,
                    wire::records(other, ingress_coder()),
                ),
        },
{
    let mut ingress: Vec<Ingress> = Vec::new();
    let total: usize = bytes.len();
    let mut end: usize = at;
    let mut index: usize = 0;
    proof {
        assert(ingress_views(ingress@) =~= Seq::<IngressView>::empty());
        assert(bytes@.subrange(at as int, at as int) =~= Seq::<u8>::empty());
    }
    while index < count
        invariant
            index <= count,
            at <= end <= bytes@.len() == total,
            ingress_views(ingress@).len() == index,
            wire::holds(bytes@, at as int, wire::records(ingress_views(ingress@), ingress_coder())),
            end == at + wire::records(ingress_views(ingress@), ingress_coder()).len(),
            forall|other: Seq<IngressView>|
                (forall|i: int| 0 <= i < other.len() ==> ingress_shape(#[trigger] other[i])) && other.len() == count && #[trigger] wire::holds(
                    bytes@,
                    at as int,
                    wire::records(other, ingress_coder()),
                ) ==> other.take(index as int) == ingress_views(ingress@),
            forall|i: int| 0 <= i < index ==> ingress_shape(#[trigger] ingress_views(ingress@)[i]),
        decreases count - index,
    {
        let ghost before = ingress_views(ingress@);
        let found: Option<Ingress> = decode_ingress(bytes, end);
        match found {
            None => {
                proof {
                    assert forall|other: Seq<IngressView>|
                        (forall|i: int| 0 <= i < other.len() ==> ingress_shape(#[trigger] other[i])) && other.len() == count implies !#[trigger] wire::holds(
                        bytes@,
                        at as int,
                        wire::records(other, ingress_coder()),
                    ) by {
                        if wire::holds(bytes@, at as int, wire::records(other, ingress_coder())) {
                            wire::lemma_holds_record(
                                bytes@,
                                at as int,
                                other,
                                ingress_coder(),
                                index as int,
                            );
                            assert(wire::holds(
                                bytes@,
                                end as int,
                                ingress_code(other[index as int]),
                            ));
                        }
                    }
                }
                return None;
            },
            Some(read) => {
                proof {
                    let item = read@;
                    wire::lemma_holds_next_record(bytes@, at as int, before, ingress_coder(), item);
                    assert forall|other: Seq<IngressView>|
                        (forall|i: int| 0 <= i < other.len() ==> ingress_shape(#[trigger] other[i])) && other.len() == count && #[trigger] wire::holds(
                            bytes@,
                            at as int,
                            wire::records(other, ingress_coder()),
                        ) implies other.take(index + 1) == before.push(item) by {
                        wire::lemma_holds_record(
                            bytes@,
                            at as int,
                            other,
                            ingress_coder(),
                            index as int,
                        );
                        lemma_ingress_unique(bytes@, end as int, other[index as int], item);
                        assert(other.take(index + 1) =~= other.take(index as int).push(
                            other[index as int],
                        ));
                    }
                }
                end = end + ingress_len(&read);
                ingress.push(read);
                assert(ingress_views(ingress@) =~= before.push(read@));
            },
        }
        index = index + 1;
    }
    proof {
        assert forall|other: Seq<IngressView>|
            (forall|i: int| 0 <= i < other.len() ==> ingress_shape(#[trigger] other[i])) && other.len() == count && #[trigger] wire::holds(
                bytes@,
                at as int,
                wire::records(other, ingress_coder()),
            ) implies other == ingress_views(ingress@) by {
            assert(other.take(count as int) =~= other);
        }
    }
    Some((ingress, end))
}

/// The parts of a publishable snapshot's image are in their places.
proof fn lemma_image_of<N: ArtifactNames>(
    bytes: Seq<u8>,
    view: SnapshotView,
    limits: Limits,
    names: &N,
)
    requires
        limits.max_ingress <= u16::MAX,
        is_image(bytes, view, limits, names),
    ensures
        wire::holds(bytes, 0, header_code(view)),
        wire::holds(bytes, HEADER_LEN as int, view.leader_id),
        wire::holds(bytes, HEADER_LEN + view.leader_id.len(), view.self_id),
        forall|i: int|
            0 <= i < view.deployments.len() ==> deployment_shape(#[trigger] view.deployments[i]),
        forall|i: int| 0 <= i < view.ingress.len() ==> ingress_shape(#[trigger] view.ingress[i]),
{
    lemma_image_parts(bytes, view);
    lemma_header_fields(bytes, view);
    assert forall|i: int| 0 <= i < view.deployments.len() implies deployment_shape(
        #[trigger] view.deployments[i],
    ) by {
        assert(deployment_ok(view.deployments[i], limits, names));
    }
    assert forall|i: int| 0 <= i < view.ingress.len() implies ingress_shape(
        #[trigger] view.ingress[i],
    ) by {
        assert(ingress_ok(view.ingress[i], names));
        assert(canonical_ingress(view.ingress[i]));
    }
}

/// Decode the image of a publishable snapshot, and nothing else.
#[verifier::rlimit(80)]
pub fn decode<N: ArtifactNames>(
    bytes: &[u8],
    limits: &Limits,
    names: &N,
) -> (snapshot: Option<Snapshot>)
    requires
        limits.max_ingress <= u16::MAX,
    ensures
        match snapshot {
            Some(read) => is_image(bytes@, read@, *limits, names) && forall|other: SnapshotView|
                #[trigger] is_image(bytes@, other, *limits, names) ==> other == read@,
            None => forall|other: SnapshotView|
                !#[trigger] is_image(bytes@, other, *limits, names),
        },
{
    proof {
        assert forall|other: SnapshotView|
            #[trigger] is_image(bytes@, other, *limits, names) implies bytes@.len() >= HEADER_LEN
            && wire::holds(bytes@, 0, MAGIC@) && wire::field(bytes@, 8, 2) == VERSION && bytes@[15]
            == 0 && wire::field(bytes@, 54, 2) == 0 && wire::field(bytes@, 48, 2) <= MAX_NODES
            && wire::field(bytes@, 50, 2) <= MAX_DEPLOYMENTS && wire::field(bytes@, 52, 2)
            <= limits.max_ingress && HEADER_LEN + bytes@[13] + bytes@[14] <= bytes@.len() by {
            lemma_image_of(bytes@, other, *limits, names);
            lemma_header_fields(bytes@, other);
        }
    }
    if bytes.len() < HEADER_LEN || bytes.len() > MAX_SNAPSHOT_LEN {
        return None;
    }
    let magic: [u8; 8] = [
        bytes[0],
        bytes[1],
        bytes[2],
        bytes[3],
        bytes[4],
        bytes[5],
        bytes[6],
        bytes[7],
    ];
    assert(bytes@.subrange(0, 8) =~= magic@);
    if !wire::bytes_equal(&magic, &MAGIC) || wire::read_le(bytes, 8, 2) != VERSION as u64
        || bytes[15] != 0 || wire::read_le(bytes, 54, 2) != 0 {
        return None;
    }
    proof {
        wire::lemma_byte_capacities();
    }
    let leader_len: usize = bytes[13] as usize;
    let self_len: usize = bytes[14] as usize;
    let node_count: usize = wire::read_le(bytes, 48, 2) as usize;
    let deployment_count: usize = wire::read_le(bytes, 50, 2) as usize;
    let ingress_count: usize = wire::read_le(bytes, 52, 2) as usize;
    if node_count > MAX_NODES || deployment_count > MAX_DEPLOYMENTS || ingress_count
        > limits.max_ingress || bytes.len() - HEADER_LEN < leader_len + self_len {
        return None;
    }
    let self_at: usize = HEADER_LEN + leader_len;
    let nodes_at: usize = self_at + self_len;
    let leader_id: Vec<u8> = wire::copy_range(bytes, HEADER_LEN, leader_len);
    let self_id: Vec<u8> = wire::copy_range(bytes, self_at, self_len);
    let nodes_found: Option<(Vec<Node>, usize)> = decode_nodes(bytes, nodes_at, node_count);
    proof {
        assert forall|other: SnapshotView|
            #[trigger] is_image(bytes@, other, *limits, names) implies nodes_found is Some
            && other.nodes == nodes_found.unwrap().0@ by {
            lemma_image_of(bytes@, other, *limits, names);
            lemma_header_fields(bytes@, other);
            lemma_image_parts(bytes@, other);
        }
    }
    let (nodes, deployments_at) = match nodes_found {
        Some(found) => found,
        None => {
            return None;
        },
    };
    let deployments_found: Option<(Vec<Deployment>, usize)> = decode_deployments(
        bytes,
        deployments_at,
        deployment_count,
    );
    proof {
        assert forall|other: SnapshotView|
            #[trigger] is_image(bytes@, other, *limits, names) implies deployments_found is Some
            && other.deployments == deployments_views(deployments_found.unwrap().0@) by {
            lemma_image_of(bytes@, other, *limits, names);
            lemma_header_fields(bytes@, other);
            lemma_image_parts(bytes@, other);
        }
    }
    let (deployments, ingress_at) = match deployments_found {
        Some(found) => found,
        None => {
            return None;
        },
    };
    let ingress_found: Option<(Vec<Ingress>, usize)> = decode_services(
        bytes,
        ingress_at,
        ingress_count,
    );
    proof {
        assert forall|other: SnapshotView|
            #[trigger] is_image(bytes@, other, *limits, names) implies ingress_found is Some
            && other.ingress == ingress_views(ingress_found.unwrap().0@)
            && ingress_found.unwrap().1 == bytes@.len() by {
            lemma_image_of(bytes@, other, *limits, names);
            lemma_header_fields(bytes@, other);
            lemma_image_parts(bytes@, other);
        }
    }
    let (ingress, end) = match ingress_found {
        Some(found) => found,
        None => {
            return None;
        },
    };
    if end != bytes.len() {
        return None;
    }
    let snapshot: Snapshot = Snapshot {
        flags: wire::read_le(bytes, 10, 2) as u16,
        state: bytes[12],
        term: wire::read_le(bytes, 16, 8),
        commit_index: wire::read_le(bytes, 24, 8),
        membership_epoch: wire::read_le(bytes, 32, 8),
        observed_millis: wire::read_le(bytes, 40, 8),
        leader_id,
        self_id,
        controller: ControllerCounters {
            capacity_reports_accepted: wire::read_le(bytes, 56, 4) as u32,
            capacity_commands_proposed: wire::read_le(bytes, 60, 4) as u32,
            placement_reassignments: wire::read_le(bytes, 64, 4) as u32,
            forced_reassignments: wire::read_le(bytes, 68, 4) as u32,
        },
        nodes,
        deployments,
        ingress,
    };
    proof {
        let view = snapshot@;
        assert(view.deployments == deployments_views(snapshot.deployments@));
        assert(view.ingress == ingress_views(snapshot.ingress@));
        lemma_header_fields(bytes@, view);
        lemma_image_parts(bytes@, view);
        assert(bytes@ == image(view));
        assert(canonical(view)) by {
            assert forall|i: int| 0 <= i < view.ingress.len() implies canonical_ingress(
                #[trigger] view.ingress[i],
            ) by {
                assert(ingress_shape(ingress_views(snapshot.ingress@)[i]));
            }
        }
        assert forall|other: SnapshotView|
            #[trigger] is_image(bytes@, other, *limits, names) implies other == view by {
            lemma_image_of(bytes@, other, *limits, names);
            lemma_header_fields(bytes@, other);
            lemma_image_parts(bytes@, other);
            wire::lemma_holds_unique(bytes@, HEADER_LEN as int, other.leader_id, view.leader_id);
            wire::lemma_holds_unique(bytes@, self_at as int, other.self_id, view.self_id);
            assert(other.controller == view.controller);
            assert(other =~= view);
        }
    }
    if valid(&snapshot, limits, names) {
        Some(snapshot)
    } else {
        None
    }
}

/// A publishable snapshot has an image of its own: no other one shares it.
pub proof fn law_snapshot_image_is_unique<N: ArtifactNames>(
    one: SnapshotView,
    two: SnapshotView,
    limits: Limits,
    names: &N,
)
    requires
        limits.max_ingress <= u16::MAX,
        snapshot_ok(one, limits, names),
        snapshot_ok(two, limits, names),
        canonical(one),
        canonical(two),
        image(one) == image(two),
        image(one).len() <= MAX_SNAPSHOT_LEN,
    ensures
        one == two,
{
    let bytes = image(one);
    lemma_image_of(bytes, one, limits, names);
    lemma_image_of(bytes, two, limits, names);
    lemma_header_fields(bytes, one);
    lemma_header_fields(bytes, two);
    lemma_image_parts(bytes, one);
    lemma_image_parts(bytes, two);
    wire::lemma_holds_unique(bytes, HEADER_LEN as int, one.leader_id, two.leader_id);
    let self_at = HEADER_LEN + one.leader_id.len();
    wire::lemma_holds_unique(bytes, self_at, one.self_id, two.self_id);
    let nodes_at = self_at + one.self_id.len();
    lemma_nodes_unique(bytes, nodes_at, one.nodes, two.nodes);
    let deployments_at = nodes_at + wire::records(one.nodes, node_coder()).len();
    lemma_deployments_unique(bytes, deployments_at, one.deployments, two.deployments);
    let ingress_at = deployments_at + wire::records(one.deployments, deployment_coder()).len();
    lemma_services_unique(bytes, ingress_at, one.ingress, two.ingress);
    assert(one.controller == two.controller);
    assert(one =~= two);
}

/// Decoding the image of a publishable snapshot succeeds and yields it.
pub proof fn law_image_decodes_to_its_snapshot<N: ArtifactNames>(
    view: SnapshotView,
    limits: Limits,
    names: &N,
)
    requires
        limits.max_ingress <= u16::MAX,
        snapshot_ok(view, limits, names),
        canonical(view),
        image(view).len() <= MAX_SNAPSHOT_LEN,
    ensures
        forall|other: SnapshotView|
            #[trigger] is_image(image(view), other, limits, names) <==> other == view,
{
    assert forall|other: SnapshotView|
        #[trigger] is_image(image(view), other, limits, names) implies other == view by {
        law_snapshot_image_is_unique(view, other, limits, names);
    }
}

/// A run of node records has one reading.
proof fn lemma_nodes_unique(bytes: Seq<u8>, at: int, one: Seq<Node>, two: Seq<Node>)
    requires
        one.len() == two.len(),
        wire::holds(bytes, at, wire::records(one, node_coder())),
        wire::holds(bytes, at, wire::records(two, node_coder())),
    ensures
        one == two,
    decreases one.len(),
{
    if one.len() > 0 {
        let n = one.len() - 1;
        wire::lemma_holds_concat(
            bytes,
            at,
            wire::records(one.drop_last(), node_coder()),
            node_code(one.last()),
        );
        wire::lemma_holds_concat(
            bytes,
            at,
            wire::records(two.drop_last(), node_coder()),
            node_code(two.last()),
        );
        lemma_nodes_unique(bytes, at, one.drop_last(), two.drop_last());
        lemma_node_unique(
            bytes,
            at + wire::records(one.drop_last(), node_coder()).len(),
            one.last(),
            two.last(),
        );
        assert(one =~= one.drop_last().push(one.last()));
        assert(two =~= two.drop_last().push(two.last()));
    } else {
        assert(one =~= two);
    }
}

/// A run of deployment records has one reading.
proof fn lemma_deployments_unique(bytes: Seq<u8>, at: int, one: Seq<DeploymentView>, two: Seq<DeploymentView>)
    requires
        one.len() == two.len(),
        forall|i: int| 0 <= i < one.len() ==> deployment_shape(#[trigger] one[i]),
        forall|i: int| 0 <= i < two.len() ==> deployment_shape(#[trigger] two[i]),
        wire::holds(bytes, at, wire::records(one, deployment_coder())),
        wire::holds(bytes, at, wire::records(two, deployment_coder())),
    ensures
        one == two,
    decreases one.len(),
{
    if one.len() > 0 {
        let n = one.len() - 1;
        assert(deployment_shape(one[n]));
        assert(deployment_shape(two[n]));
        assert forall|i: int| 0 <= i < n implies deployment_shape(#[trigger] one.drop_last()[i]) by {
            assert(deployment_shape(one[i]));
        }
        assert forall|i: int| 0 <= i < n implies deployment_shape(#[trigger] two.drop_last()[i]) by {
            assert(deployment_shape(two[i]));
        }
        wire::lemma_holds_concat(
            bytes,
            at,
            wire::records(one.drop_last(), deployment_coder()),
            deployment_code(one.last()),
        );
        wire::lemma_holds_concat(
            bytes,
            at,
            wire::records(two.drop_last(), deployment_coder()),
            deployment_code(two.last()),
        );
        lemma_deployments_unique(bytes, at, one.drop_last(), two.drop_last());
        lemma_deployment_unique(
            bytes,
            at + wire::records(one.drop_last(), deployment_coder()).len(),
            one.last(),
            two.last(),
        );
        assert(one =~= one.drop_last().push(one.last()));
        assert(two =~= two.drop_last().push(two.last()));
    } else {
        assert(one =~= two);
    }
}

/// A run of ingress records has one reading.
proof fn lemma_services_unique(bytes: Seq<u8>, at: int, one: Seq<IngressView>, two: Seq<IngressView>)
    requires
        one.len() == two.len(),
        forall|i: int| 0 <= i < one.len() ==> ingress_shape(#[trigger] one[i]),
        forall|i: int| 0 <= i < two.len() ==> ingress_shape(#[trigger] two[i]),
        wire::holds(bytes, at, wire::records(one, ingress_coder())),
        wire::holds(bytes, at, wire::records(two, ingress_coder())),
    ensures
        one == two,
    decreases one.len(),
{
    if one.len() > 0 {
        let n = one.len() - 1;
        assert(ingress_shape(one[n]));
        assert(ingress_shape(two[n]));
        assert forall|i: int| 0 <= i < n implies ingress_shape(#[trigger] one.drop_last()[i]) by {
            assert(ingress_shape(one[i]));
        }
        assert forall|i: int| 0 <= i < n implies ingress_shape(#[trigger] two.drop_last()[i]) by {
            assert(ingress_shape(two[i]));
        }
        wire::lemma_holds_concat(
            bytes,
            at,
            wire::records(one.drop_last(), ingress_coder()),
            ingress_code(one.last()),
        );
        wire::lemma_holds_concat(
            bytes,
            at,
            wire::records(two.drop_last(), ingress_coder()),
            ingress_code(two.last()),
        );
        lemma_services_unique(bytes, at, one.drop_last(), two.drop_last());
        lemma_ingress_unique(
            bytes,
            at + wire::records(one.drop_last(), ingress_coder()).len(),
            one.last(),
            two.last(),
        );
        assert(one =~= one.drop_last().push(one.last()));
        assert(two =~= two.drop_last().push(two.last()));
    } else {
        assert(one =~= two);
    }
}

/// A node is publishable exactly where its key and flags are known, its capacity is
/// there where it says so, and no address is given that it does not have.
pub proof fn law_node_agrees_with_its_flags(node: Node)
    ensures
        node_ok(node) <==> {
            &&& node.node_key != 0
            &&& node.flags & 0xff80 == 0
            &&& node.flags & 32 != 0 ==> node.flags & 16 != 0
            &&& node.flags & 16 == 0 ==> node.capacity_boot_nonce == 0 && node.capacity_epoch == 0
                && node.free_frames == 0 && node.usable_frames == 0 && node.cpu_load_permille == 0
            &&& node.flags & 16 != 0 ==> node.cpu_load_permille <= 1000 || node.cpu_load_permille
                == 0xffff
            &&& node.flags & 64 == 0 ==> node.mac[0] == 0 && node.mac[1] == 0 && node.mac[2] == 0
                && node.mac[3] == 0 && node.mac[4] == 0 && node.mac[5] == 0
        },
{
    let flags = node.flags;
    assert(flags & 0xff80 == 0 <==> flags <= 127) by (bit_vector);
    assert((flags / 16) % 2 == 1 <==> flags & 16 != 0) by (bit_vector);
    assert((flags / 32) % 2 == 1 <==> flags & 32 != 0) by (bit_vector);
    assert((flags / 64) % 2 == 1 <==> flags & 64 != 0) by (bit_vector);
    if node.mac[0] == 0 && node.mac[1] == 0 && node.mac[2] == 0 && node.mac[3] == 0 && node.mac[4]
        == 0 && node.mac[5] == 0 {
        assert forall|i: int| 0 <= i < 6 implies node.mac[i] == 0 by {
            assert(i == 0 || i == 1 || i == 2 || i == 3 || i == 4 || i == 5);
        }
    }
}

/// A publishable snapshot is bounded, and its nodes come in ascending order: no two
/// share a key.
pub proof fn law_snapshot_is_bounded_and_ordered<N: ArtifactNames>(
    view: SnapshotView,
    limits: Limits,
    names: &N,
    one: int,
    two: int,
)
    requires
        snapshot_ok(view, limits, names),
        0 <= one < two < view.nodes.len(),
    ensures
        view.flags <= 7,
        1 <= view.state <= 3,
        view.self_id.len() > 0,
        view.nodes.len() <= 32,
        view.deployments.len() <= 256,
        view.nodes[one].node_key < view.nodes[two].node_key,
    decreases two - one,
{
    if two == one + 1 {
        assert(view.nodes[one].node_key < view.nodes[one + 1].node_key);
    } else {
        law_snapshot_is_bounded_and_ordered(view, limits, names, one, two - 1);
        let middle = two - 1;
        assert(view.nodes[middle].node_key < view.nodes[middle + 1].node_key);
    }
}

/// A publishable ingress is of a real service; what it says of a projection is said
/// only where there is one; and its nodes are at most 32, none of them zero or twice.
pub proof fn law_ingress_says_only_what_is_projected<N: ArtifactNames>(
    ingress: IngressView,
    names: &N,
    one: int,
    two: int,
)
    requires
        ingress_ok(ingress, names),
        0 <= one < two < ingress.eligible_nodes.len(),
    ensures
        ingress.service.port != 0,
        ingress.service.protocol == 6,
        ingress.member_count <= 32,
        ingress.eligible_nodes.len() <= 32,
        ingress.projection_present,
        ingress.eligible_nodes[one] != 0,
        ingress.eligible_nodes[one] < ingress.eligible_nodes[two],
        ingress.backend_name is Some ==> names.allows(ingress.backend_name->0),
{
    assert(ingress.eligible_nodes[one].rank() < ingress.eligible_nodes[two].rank());
}

/// Services are ordered by address, then protocol, then port: different services
/// have different places.
pub proof fn law_services_have_their_own_place(one: ServiceId, two: ServiceId)
    requires
        one.rank() == two.rank(),
    ensures
        one == two,
{
    assert(one.address[0] == two.address[0] && one.address[1] == two.address[1] && one.address[2]
        == two.address[2] && one.address[3] == two.address[3]);
    assert(one.address =~= two.address);
}

/// The header of an image is `CLOBSV1`, version 1, and then what the snapshot says,
/// each number in its place.
pub proof fn law_header_by_its_bytes(view: SnapshotView)
    requires
        view.leader_id.len() <= 255,
        view.self_id.len() <= 255,
        view.nodes.len() <= 32,
        view.deployments.len() <= 256,
        view.ingress.len() <= u16::MAX,
    ensures
        ({
            let bytes = header_code(view);
            &&& bytes.len() == 72
            &&& bytes.subrange(0, 8) == seq![
                0x43u8, 0x4cu8, 0x4fu8, 0x42u8, 0x53u8, 0x56u8, 0x31u8, 0x00u8,
            ]
            &&& bytes.subrange(8, 10) == seq![1u8, 0u8]
            &&& bytes.subrange(10, 12) == wire::le_bytes(view.flags as nat, 2)
            &&& bytes[12] == view.state
            &&& bytes[13] == view.leader_id.len()
            &&& bytes[14] == view.self_id.len()
            &&& bytes[15] == 0
            &&& bytes.subrange(16, 24) == wire::le_bytes(view.term as nat, 8)
            &&& bytes.subrange(24, 32) == wire::le_bytes(view.commit_index as nat, 8)
            &&& bytes.subrange(32, 40) == wire::le_bytes(view.membership_epoch as nat, 8)
            &&& bytes.subrange(40, 48) == wire::le_bytes(view.observed_millis as nat, 8)
            &&& bytes.subrange(48, 50) == wire::le_bytes(view.nodes.len(), 2)
            &&& bytes.subrange(50, 52) == wire::le_bytes(view.deployments.len(), 2)
            &&& bytes.subrange(52, 54) == wire::le_bytes(view.ingress.len(), 2)
            &&& bytes.subrange(56, 60) == wire::le_bytes(
                view.controller.capacity_reports_accepted as nat,
                4,
            )
            &&& bytes.subrange(60, 64) == wire::le_bytes(
                view.controller.capacity_commands_proposed as nat,
                4,
            )
            &&& bytes.subrange(64, 68) == wire::le_bytes(
                view.controller.placement_reassignments as nat,
                4,
            )
            &&& bytes.subrange(68, 72) == wire::le_bytes(
                view.controller.forced_reassignments as nat,
                4,
            )
        }),
{
    let bytes = header_code(view);
    lemma_version_bytes();
    wire::lemma_le_bytes_len(VERSION as nat, 2);
    wire::lemma_le_bytes_len(view.flags as nat, 2);
    wire::lemma_le_bytes_len(view.term as nat, 8);
    wire::lemma_le_bytes_len(view.commit_index as nat, 8);
    wire::lemma_le_bytes_len(view.membership_epoch as nat, 8);
    wire::lemma_le_bytes_len(view.observed_millis as nat, 8);
    wire::lemma_le_bytes_len(view.nodes.len(), 2);
    wire::lemma_le_bytes_len(view.deployments.len(), 2);
    wire::lemma_le_bytes_len(view.ingress.len(), 2);
    wire::lemma_le_bytes_len(0, 2);
    wire::lemma_le_bytes_len(view.controller.capacity_reports_accepted as nat, 4);
    wire::lemma_le_bytes_len(view.controller.capacity_commands_proposed as nat, 4);
    wire::lemma_le_bytes_len(view.controller.placement_reassignments as nat, 4);
    wire::lemma_le_bytes_len(view.controller.forced_reassignments as nat, 4);
    assert(bytes.subrange(0, 8) =~= MAGIC@);
    assert(MAGIC@ =~= seq![0x43u8, 0x4cu8, 0x4fu8, 0x42u8, 0x53u8, 0x56u8, 0x31u8, 0x00u8]);
    assert(bytes.subrange(8, 10) =~= wire::le_bytes(VERSION as nat, 2));
    assert(bytes.subrange(10, 12) =~= wire::le_bytes(view.flags as nat, 2));
    assert(bytes.subrange(16, 24) =~= wire::le_bytes(view.term as nat, 8));
    assert(bytes.subrange(24, 32) =~= wire::le_bytes(view.commit_index as nat, 8));
    assert(bytes.subrange(32, 40) =~= wire::le_bytes(view.membership_epoch as nat, 8));
    assert(bytes.subrange(40, 48) =~= wire::le_bytes(view.observed_millis as nat, 8));
    assert(bytes.subrange(48, 50) =~= wire::le_bytes(view.nodes.len(), 2));
    assert(bytes.subrange(50, 52) =~= wire::le_bytes(view.deployments.len(), 2));
    assert(bytes.subrange(52, 54) =~= wire::le_bytes(view.ingress.len(), 2));
    assert(bytes.subrange(56, 60) =~= wire::le_bytes(
        view.controller.capacity_reports_accepted as nat,
        4,
    ));
    assert(bytes.subrange(60, 64) =~= wire::le_bytes(
        view.controller.capacity_commands_proposed as nat,
        4,
    ));
    assert(bytes.subrange(64, 68) =~= wire::le_bytes(
        view.controller.placement_reassignments as nat,
        4,
    ));
    assert(bytes.subrange(68, 72) =~= wire::le_bytes(
        view.controller.forced_reassignments as nat,
        4,
    ));
}

proof fn lemma_version_bytes()
    ensures
        wire::le_bytes(VERSION as nat, 2) == seq![1u8, 0u8],
{
    reveal_with_fuel(wire::le_bytes, 3);
    assert(wire::le_bytes(VERSION as nat, 2) =~= seq![1u8, 0u8]);
}

/// A node's record has 60 bytes.
pub proof fn law_node_record_by_its_bytes(node: Node)
    ensures
        ({
            let bytes = node_code(node);
            &&& bytes.len() == 60
            &&& bytes.subrange(0, 8) == wire::le_bytes(node.node_key as nat, 8)
            &&& bytes.subrange(8, 10) == wire::le_bytes(node.flags as nat, 2)
            &&& bytes.subrange(10, 16) == node.mac@
            &&& bytes.subrange(16, 24) == wire::le_bytes(node.capacity_boot_nonce as nat, 8)
            &&& bytes.subrange(24, 32) == wire::le_bytes(node.capacity_epoch as nat, 8)
            &&& bytes.subrange(32, 40) == wire::le_bytes(node.free_frames as nat, 8)
            &&& bytes.subrange(40, 48) == wire::le_bytes(node.usable_frames as nat, 8)
            &&& bytes.subrange(48, 56) == wire::le_bytes(node.committed_frames as nat, 8)
            &&& bytes.subrange(56, 58) == wire::le_bytes(node.cpu_load_permille as nat, 2)
        }),
{
    let bytes = node_code(node);
    wire::lemma_le_bytes_len(node.node_key as nat, 8);
    wire::lemma_le_bytes_len(node.flags as nat, 2);
    wire::lemma_le_bytes_len(node.capacity_boot_nonce as nat, 8);
    wire::lemma_le_bytes_len(node.capacity_epoch as nat, 8);
    wire::lemma_le_bytes_len(node.free_frames as nat, 8);
    wire::lemma_le_bytes_len(node.usable_frames as nat, 8);
    wire::lemma_le_bytes_len(node.committed_frames as nat, 8);
    wire::lemma_le_bytes_len(node.cpu_load_permille as nat, 2);
    wire::lemma_le_bytes_len(0, 2);
    assert(bytes.subrange(0, 8) =~= wire::le_bytes(node.node_key as nat, 8));
    assert(bytes.subrange(8, 10) =~= wire::le_bytes(node.flags as nat, 2));
    assert(bytes.subrange(10, 16) =~= node.mac@);
    assert(bytes.subrange(16, 24) =~= wire::le_bytes(node.capacity_boot_nonce as nat, 8));
    assert(bytes.subrange(24, 32) =~= wire::le_bytes(node.capacity_epoch as nat, 8));
    assert(bytes.subrange(32, 40) =~= wire::le_bytes(node.free_frames as nat, 8));
    assert(bytes.subrange(40, 48) =~= wire::le_bytes(node.usable_frames as nat, 8));
    assert(bytes.subrange(48, 56) =~= wire::le_bytes(node.committed_frames as nat, 8));
    assert(bytes.subrange(56, 58) =~= wire::le_bytes(node.cpu_load_permille as nat, 2));
}

/// A deployment's record has 36 bytes, its name, and eight bytes for each node that
/// it wants and each that is ready.
pub proof fn law_deployment_record_by_its_bytes(deployment: DeploymentView)
    requires
        deployment.name.len() <= 255,
        deployment.desired_nodes.len() <= 32,
        deployment.ready_nodes.len() <= 32,
    ensures
        ({
            let bytes = deployment_code(deployment);
            let names = 36 + deployment.name.len() as int;
            let wanted = names + 8 * deployment.desired_nodes.len() as int;
            &&& bytes.len() == wanted + 8 * deployment.ready_nodes.len()
            &&& bytes[0] == deployment.name.len()
            &&& bytes[1] == deployment.state
            &&& bytes[2] == deployment.desired_nodes.len()
            &&& bytes[3] == deployment.ready_nodes.len()
            &&& bytes.subrange(4, 12) == wire::le_bytes(deployment.generation as nat, 8)
            &&& bytes.subrange(12, 20) == wire::le_bytes(deployment.service_generation as nat, 8)
            &&& bytes.subrange(20, 28) == wire::le_bytes(deployment.object_id as nat, 8)
            &&& bytes.subrange(28, 36) == wire::le_bytes(deployment.demand_frames as nat, 8)
            &&& bytes.subrange(36, names) == deployment.name
            &&& bytes.subrange(names, wanted) == wire::le_list(deployment.desired_nodes)
            &&& bytes.skip(wanted) == wire::le_list(deployment.ready_nodes)
        }),
{
    let bytes = deployment_code(deployment);
    let names = 36 + deployment.name.len() as int;
    let wanted = names + 8 * deployment.desired_nodes.len() as int;
    wire::lemma_le_bytes_len(deployment.generation as nat, 8);
    wire::lemma_le_bytes_len(deployment.service_generation as nat, 8);
    wire::lemma_le_bytes_len(deployment.object_id as nat, 8);
    wire::lemma_le_bytes_len(deployment.demand_frames as nat, 8);
    wire::lemma_le_list_len(deployment.desired_nodes);
    wire::lemma_le_list_len(deployment.ready_nodes);
    assert(bytes.subrange(4, 12) =~= wire::le_bytes(deployment.generation as nat, 8));
    assert(bytes.subrange(12, 20) =~= wire::le_bytes(deployment.service_generation as nat, 8));
    assert(bytes.subrange(20, 28) =~= wire::le_bytes(deployment.object_id as nat, 8));
    assert(bytes.subrange(28, 36) =~= wire::le_bytes(deployment.demand_frames as nat, 8));
    assert(bytes.subrange(36, names) =~= deployment.name);
    assert(bytes.subrange(names, wanted) =~= wire::le_list(deployment.desired_nodes));
    assert(bytes.skip(wanted) =~= wire::le_list(deployment.ready_nodes));
}

/// An ingress's record has 32 bytes, the name of its backend, and eight bytes for
/// each of its nodes; without an advertiser that field is zero.
pub proof fn law_ingress_record_by_its_bytes(ingress: IngressView)
    requires
        ingress.backend_name is Some ==> ingress.backend_name->0.len() <= 255,
        ingress.eligible_nodes.len() <= 32,
    ensures
        ({
            let bytes = ingress_code(ingress);
            let name = if ingress.backend_name is Some {
                ingress.backend_name->0
            } else {
                Seq::empty()
            };
            let names = 32 + name.len() as int;
            &&& bytes.len() == names + 8 * ingress.eligible_nodes.len()
            &&& bytes.subrange(0, 4) == ingress.service.address@
            &&& bytes[4] == ingress.service.protocol
            &&& bytes[5] == name.len()
            &&& bytes[6] == ingress.eligible_nodes.len()
            &&& bytes[7] == 1 <==> ingress.projection_present
            &&& bytes[7] == 0 <==> !ingress.projection_present
            &&& bytes.subrange(8, 10) == wire::le_bytes(ingress.service.port as nat, 2)
            &&& bytes.subrange(10, 12) == wire::le_bytes(ingress.member_count as nat, 2)
            &&& ingress.advertiser_node is Some ==> bytes.subrange(12, 20) == wire::le_bytes(
                ingress.advertiser_node->0 as nat,
                8,
            )
            &&& ingress.advertiser_node is None ==> bytes.subrange(12, 20) == wire::le_bytes(0, 8)
            &&& bytes.subrange(20, 28) == wire::le_bytes(ingress.epoch as nat, 8)
            &&& bytes.subrange(32, names) == name
            &&& bytes.skip(names) == wire::le_list(ingress.eligible_nodes)
        }),
{
    let bytes = ingress_code(ingress);
    let name = backend_bytes(ingress);
    let names = 32 + name.len() as int;
    wire::lemma_le_bytes_len(ingress.service.port as nat, 2);
    wire::lemma_le_bytes_len(ingress.member_count as nat, 2);
    wire::lemma_le_bytes_len(advertiser_field(ingress) as nat, 8);
    wire::lemma_le_bytes_len(ingress.epoch as nat, 8);
    wire::lemma_le_bytes_len(0, 4);
    wire::lemma_le_list_len(ingress.eligible_nodes);
    assert(bytes.subrange(0, 4) =~= ingress.service.address@);
    assert(bytes.subrange(8, 10) =~= wire::le_bytes(ingress.service.port as nat, 2));
    assert(bytes.subrange(10, 12) =~= wire::le_bytes(ingress.member_count as nat, 2));
    assert(bytes.subrange(12, 20) =~= wire::le_bytes(advertiser_field(ingress) as nat, 8));
    assert(bytes.subrange(20, 28) =~= wire::le_bytes(ingress.epoch as nat, 8));
    assert(bytes.subrange(32, names) =~= name);
    assert(bytes.skip(names) =~= wire::le_list(ingress.eligible_nodes));
}

/// An image has at most 65536 bytes, and it is that of a publishable snapshot.
pub proof fn law_images_are_bounded<N: ArtifactNames>(
    bytes: Seq<u8>,
    view: SnapshotView,
    limits: Limits,
    names: &N,
)
    ensures
        is_image(bytes, view, limits, names) ==> bytes.len() <= 65536 && snapshot_ok(
            view,
            limits,
            names,
        ) && bytes == image(view),
        is_image(bytes, view, limits, names) ==> bytes.len() >= 72 + view.leader_id.len()
            + view.self_id.len(),
{
    if is_image(bytes, view, limits, names) {
        lemma_header_len(view);
    }
}

proof fn lemma_header_len(view: SnapshotView)
    ensures
        header_code(view).len() == 72,
{
    wire::lemma_le_bytes_len(VERSION as nat, 2);
    wire::lemma_le_bytes_len(view.flags as nat, 2);
    wire::lemma_le_bytes_len(view.term as nat, 8);
    wire::lemma_le_bytes_len(view.commit_index as nat, 8);
    wire::lemma_le_bytes_len(view.membership_epoch as nat, 8);
    wire::lemma_le_bytes_len(view.observed_millis as nat, 8);
    wire::lemma_le_bytes_len(view.nodes.len(), 2);
    wire::lemma_le_bytes_len(view.deployments.len(), 2);
    wire::lemma_le_bytes_len(view.ingress.len(), 2);
    wire::lemma_le_bytes_len(0, 2);
    wire::lemma_le_bytes_len(view.controller.capacity_reports_accepted as nat, 4);
    wire::lemma_le_bytes_len(view.controller.capacity_commands_proposed as nat, 4);
    wire::lemma_le_bytes_len(view.controller.placement_reassignments as nat, 4);
    wire::lemma_le_bytes_len(view.controller.forced_reassignments as nat, 4);
}

} // verus!
