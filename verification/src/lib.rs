//! Verified core of a frame-to-socket TCP shim: sequence-space arithmetic,
//! Internet checksums, Ethernet/IPv4/TCP frame construction, the fast-path
//! upload/download state machine, and the inline injection header layout.

pub mod seqnum;
pub mod checksum;
pub mod ethernet;
pub mod upload;
pub mod flow;
pub mod download;
pub mod segment;
pub mod fastpath;
pub mod handshake;
pub mod inline;
pub mod rxplan;
pub mod coalesce;
pub mod direct_rx;
pub mod bridge;

