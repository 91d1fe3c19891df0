//! Verified policy, wire formats and state machines of the Charlotte system
//! services.
pub mod wire;
pub mod disk_raft;
pub mod hash;
pub mod order;
pub mod cluster_ingress;
pub mod cluster_observe;
pub mod text;
pub mod ids;
pub mod s3;
pub mod kafka;
pub mod kafka_service;
pub mod kafka_step;
pub mod nvme;
pub mod virtio;
pub mod uart;
pub mod namemap;
pub mod netdev;
pub mod block;
pub mod broker;
pub mod ns;
pub mod object_requests;
pub mod objstore;
pub mod observe;
pub mod raft;
pub mod relmsg;
pub mod probes;
pub mod servicemgr;
pub mod grant_client;
pub mod tcpip;
pub mod time;
