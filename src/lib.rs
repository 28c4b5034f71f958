//! Control plane of a full-mesh WireGuard overlay: the lighthouse state engine (leases,
//! pairwise pre-shared keys, rotation and expiry), its validators, the challenge-response
//! authenticator, the wire types, the persisted snapshot, and the node-side configuration
//! logic.

/// Field validators run before any state is touched.
pub mod validation;
/// Request and response bodies of the HTTP contract.
pub mod messages;
/// Unordered pairs of hostnames.
pub mod peer_pair;
/// Lighthouse configuration.
pub mod config;
/// Issuing pre-shared keys.
pub mod keys;
/// The lease table, the key store and the pull transaction.
pub mod state;
/// What holds across one or more pull transactions.
pub mod pull_laws;
/// Challenge and response over a shared secret.
pub mod challenge;
/// Decimal text.
pub mod text;
/// Metrics pushed by nodes and their Prometheus exposition.
pub mod metrics;
/// The endpoints: authentication, validation, and the status of each failure.
pub mod service;
/// Node configuration and state.
pub mod node;
/// The persisted snapshot of the lighthouse state.
pub mod snapshot;
/// Local WireGuard configuration for the systemd-networkd and UCI backends.
pub mod backend;
/// Reading the output of `wg show all dump`.
pub mod dump;
/// RFC 3339 timestamps.
pub mod timestamp;
