use vstd::prelude::*;

use crate::config::LighthouseConfig;
use crate::keys::{generate_psk, is_issued_key};
use crate::messages::{clone_strings, strings_view, NodePullRequest, NodePullResponse, NodePullResponsePeer};
use crate::peer_pair::{canonical_pair, lemma_canonical_pair_symmetric, pair_contains, PeerPair};
use crate::validation::{chars_of, decimal_value, host_part, is_decimal_at_most, is_ip_address, port_part};

verus! {

/// The server-side record of a node, refreshed by each pull and expired by inactivity.
#[derive(Debug, Clone)]
pub struct NodeLease {
    /// The hostname of the node; the key of the lease table.
    pub hostname: String,
    /// Hostname or IP, optionally `host:port`, that other peers dial.
    pub endpoint: String,
    /// The node's WireGuard public key, in base64.
    pub public_key: String,
    /// The port WireGuard listens on.
    pub listen_port: u32,
    /// The persistent keepalive interval handed to peers.
    pub persistent_keepalive: u32,
    /// The networks the node claims inside the overlay.
    pub allowed_ips: Vec<String>,
    /// Routing hint handed verbatim to peers.
    pub route_allowed_ips: bool,
    /// Seconds since the epoch of the most recent pull.
    pub last_seen: u64,
    /// Seconds since the epoch of the most recent decision to rotate keys.
    pub last_rotation: u64,
}

/// What a lease holds, as plain values.
pub struct LeaseView {
    pub hostname: Seq<char>,
    pub endpoint: Seq<char>,
    pub public_key: Seq<char>,
    pub listen_port: u32,
    pub persistent_keepalive: u32,
    pub allowed_ips: Seq<Seq<char>>,
    pub route_allowed_ips: bool,
    pub last_seen: u64,
    pub last_rotation: u64,
}

impl NodeLease {
    pub open spec fn view(&self) -> LeaseView {
        LeaseView {
            hostname: self.hostname@,
            endpoint: self.endpoint@,
            public_key: self.public_key@,
            listen_port: self.listen_port,
            persistent_keepalive: self.persistent_keepalive,
            allowed_ips: strings_view(self.allowed_ips@),
            route_allowed_ips: self.route_allowed_ips,
            last_seen: self.last_seen,
            last_rotation: self.last_rotation,
        }
    }
}

/// The pre-shared key of one unordered pair of nodes.
#[derive(Debug, Clone)]
pub struct PresharedKey {
    /// The two nodes.
    pub peers: PeerPair,
    /// 32 bytes in base64.
    pub key: String,
}

/// Why a query on the state failed.
#[derive(Debug, Clone, Copy, PartialEq, Eq)]
pub enum StateError {
    /// The hostname has no lease.
    UnknownNode,
}

/// The authoritative view of the cluster: leases, pre-shared keys, time of the last change.
#[derive(Debug, Clone)]
pub struct LighthouseState {
    /// One lease per node, hostnames unique.
    pub nodes: Vec<NodeLease>,
    /// One key per unordered pair of registered nodes, pairs unique.
    pub preshared_keys: Vec<PresharedKey>,
    /// Seconds since the epoch of the last mutation.
    pub last_modified: u64,
}

// ---------------------------------------------------------------------------
// The model: maps from hostnames to leases and from pairs to keys.
pub open spec fn has_node(nodes: Seq<NodeLease>, h: Seq<char>) -> bool {
    exists|i: int| 0 <= i < nodes.len() && (#[trigger] nodes[i]).hostname@ == h
}

pub open spec fn lease_map(nodes: Seq<NodeLease>) -> Map<Seq<char>, LeaseView> {
    Map::new(
        |h: Seq<char>| has_node(nodes, h),
        |h: Seq<char>|
            nodes[choose|i: int| 0 <= i < nodes.len() && (#[trigger] nodes[i]).hostname@ == h]@,
    )
}

pub open spec fn has_pair(keys: Seq<PresharedKey>, p: (Seq<char>, Seq<char>)) -> bool {
    exists|i: int| 0 <= i < keys.len() && (#[trigger] keys[i]).peers@ == p
}

pub open spec fn key_map(keys: Seq<PresharedKey>) -> Map<(Seq<char>, Seq<char>), Seq<char>> {
    Map::new(
        |p: (Seq<char>, Seq<char>)| has_pair(keys, p),
        |p: (Seq<char>, Seq<char>)|
            keys[choose|i: int| 0 <= i < keys.len() && (#[trigger] keys[i]).peers@ == p].key@,
    )
}

pub open spec fn unique_hostnames(nodes: Seq<NodeLease>) -> bool {
    forall|i: int, j: int|
        0 <= i < nodes.len() && 0 <= j < nodes.len() && i != j ==> (#[trigger] nodes[i]).hostname@
            != (#[trigger] nodes[j]).hostname@
}

pub open spec fn unique_pairs(keys: Seq<PresharedKey>) -> bool {
    forall|i: int, j: int|
        0 <= i < keys.len() && 0 <= j < keys.len() && i != j ==> (#[trigger] keys[i]).peers@ != (
        #[trigger] keys[j]).peers@
}

/// A pair as the key store holds it: sorted, of two distinct hostnames.
pub open spec fn is_canonical(p: (Seq<char>, Seq<char>)) -> bool {
    p.0 != p.1 && p == canonical_pair(p.0, p.1)
}

/// Whether `now - last_seen` exceeds the timeout.
pub open spec fn is_expired(l: LeaseView, now: u64, timeout: u64) -> bool {
    now - l.last_seen > timeout
}

/// Whether the hour lies in the closed window `[tod.0, tod.1]`, which wraps midnight
/// where `tod.0 > tod.1`.
pub open spec fn in_rotation_window(hour: u32, tod: (u8, u8)) -> bool {
    if tod.0 <= tod.1 {
        tod.0 <= hour && hour <= tod.1
    } else {
        hour >= tod.0 || hour <= tod.1
    }
}

/// Whether a node whose last rotation was at `last_rotation` must rotate now.
pub open spec fn rotation_due(
    last_rotation: u64,
    now: u64,
    interval: u64,
    tod: (u8, u8),
    hour: u32,
) -> bool {
    now - last_rotation >= interval && in_rotation_window(hour, tod)
}

/// The lease that a pull request writes.
pub open spec fn lease_from_request(req: NodePullRequest, now: u64, last_rotation: u64) -> LeaseView {
    LeaseView {
        hostname: req.hostname@,
        endpoint: req.endpoint@,
        public_key: req.public_key@,
        listen_port: req.listen_port,
        persistent_keepalive: req.persistent_keepalive,
        allowed_ips: strings_view(req.allowed_ips@),
        route_allowed_ips: req.route_allowed_ips,
        last_seen: now,
        last_rotation,
    }
}

/// What a peer entry of a pull response holds, as plain values.
pub struct PeerView {
    pub hostname: Seq<char>,
    pub public_key: Seq<char>,
    pub preshared_key: Seq<char>,
    pub endpoint_host: Seq<char>,
    pub endpoint_port: u32,
    pub allowed_ips: Seq<Seq<char>>,
    pub persistent_keepalive: u32,
    pub route_allowed_ips: bool,
}

impl NodePullResponsePeer {
    pub open spec fn view(&self) -> PeerView {
        PeerView {
            hostname: self.hostname@,
            public_key: self.public_key@,
            preshared_key: self.preshared_key@,
            endpoint_host: self.endpoint_host@,
            endpoint_port: self.endpoint_port,
            allowed_ips: strings_view(self.allowed_ips@),
            persistent_keepalive: self.persistent_keepalive,
            route_allowed_ips: self.route_allowed_ips,
        }
    }
}

pub open spec fn peer_views(ps: Seq<NodePullResponsePeer>) -> Seq<PeerView> {
    ps.map_values(|p: NodePullResponsePeer| p@)
}

/// The host a peer is dialled at: its endpoint where that is an IP address (IPv6 included),
/// else what comes before the endpoint's last `:`.
pub open spec fn endpoint_host(endpoint: Seq<char>) -> Seq<char> {
    if is_ip_address(endpoint) {
        endpoint
    } else {
        host_part(endpoint)
    }
}

/// The port a peer is dialled on: its listen port where the endpoint is an IP address;
/// else the part after the last `:` where that is a decimal that fits; else its listen port.
pub open spec fn endpoint_port(endpoint: Seq<char>, listen_port: u32) -> u32 {
    if is_ip_address(endpoint) {
        listen_port
    } else if port_part(endpoint) is Some && is_decimal_at_most(port_part(endpoint)->0, u32::MAX as int) {
        decimal_value(port_part(endpoint)->0) as u32
    } else {
        listen_port
    }
}

/// How a lease is described to another node, with the key of their pair.
pub open spec fn peer_entry(l: LeaseView, psk: Seq<char>) -> PeerView {
    PeerView {
        hostname: l.hostname,
        public_key: l.public_key,
        preshared_key: psk,
        endpoint_host: endpoint_host(l.endpoint),
        endpoint_port: endpoint_port(l.endpoint, l.listen_port),
        allowed_ips: l.allowed_ips,
        persistent_keepalive: l.persistent_keepalive,
        route_allowed_ips: l.route_allowed_ips,
    }
}

/// The peers of `h`: every other lease, in table order, each with the key of its pair with `h`.
pub open spec fn peers_for(
    nodes: Seq<NodeLease>,
    h: Seq<char>,
    keys: Map<(Seq<char>, Seq<char>), Seq<char>>,
) -> Seq<PeerView>
    decreases nodes.len(),
{
    if nodes.len() == 0 {
        seq![]
    } else {
        let rest = peers_for(nodes.drop_last(), h, keys);
        let l = nodes.last();
        if l.hostname@ == h {
            rest
        } else {
            rest.push(peer_entry(l@, keys[canonical_pair(h, l.hostname@)]))
        }
    }
}

impl LighthouseState {
    /// The lease table.
    pub open spec fn leases(&self) -> Map<Seq<char>, LeaseView> {
        lease_map(self.nodes@)
    }

    /// The pre-shared key store, keyed by sorted pair.
    pub open spec fn keys(&self) -> Map<(Seq<char>, Seq<char>), Seq<char>> {
        key_map(self.preshared_keys@)
    }

    /// The key of the unordered pair `{a, b}`.
    pub open spec fn psk_of(&self, a: Seq<char>, b: Seq<char>) -> Seq<char> {
        self.keys()[canonical_pair(a, b)]
    }

    /// Hostnames unique; each key under a sorted pair of two distinct registered nodes, once.
    pub open spec fn wf(&self) -> bool {
        &&& unique_hostnames(self.nodes@)
        &&& unique_pairs(self.preshared_keys@)
        &&& forall|i: int|
            0 <= i < self.preshared_keys@.len() ==> {
                let p = (#[trigger] self.preshared_keys@[i]).peers@;
                &&& is_canonical(p)
                &&& has_node(self.nodes@, p.0)
                &&& has_node(self.nodes@, p.1)
            }
    }

    /// Every two distinct registered nodes share a key.
    pub open spec fn complete(&self) -> bool {
        forall|a: Seq<char>, b: Seq<char>|
            #![trigger self.leases().contains_key(a), self.leases().contains_key(b)]
            self.leases().contains_key(a) && self.leases().contains_key(b) && a != b
                ==> self.keys().contains_key(canonical_pair(a, b))
    }
}

/// What one pull transaction does: from `old`, a pull of `req` at `now` (local hour `hour`)
/// leaves `new` and answers `resp`.
pub open spec fn pull_outcome(
    old: LighthouseState,
    config: LighthouseConfig,
    req: NodePullRequest,
    now: u64,
    hour: u32,
    new: LighthouseState,
    resp: NodePullResponse,
) -> bool {
    let h = req.hostname@;
    let prior = old.leases();
    let rotation0 = if prior.contains_key(h) {
        prior[h].last_rotation
    } else {
        now
    };
    let regen = rotation_due(
        rotation0,
        now,
        config.key_rotation_interval_seconds,
        config.key_rotation_tod,
        hour,
    );
    let lease = lease_from_request(req, now, if regen { now } else { rotation0 });
    let upserted = prior.insert(h, lease);
    &&& new.wf()
    &&& resp.regenerate_keys == regen
    &&& new.last_modified == now
    // the caller's lease, then the expiry sweep
    &&& new.leases() == Map::new(
        |k: Seq<char>|
            upserted.contains_key(k) && !is_expired(
                upserted[k],
                now,
                config.node_timeout_seconds,
            ),
        |k: Seq<char>| upserted[k],
    )
    // keys of surviving pairs are kept
    &&& forall|p: (Seq<char>, Seq<char>)|
        #[trigger] old.keys().contains_key(p) && new.leases().contains_key(p.0)
            && new.leases().contains_key(p.1) ==> new.keys().contains_key(p) && new.keys()[p]
            == old.keys()[p]
    // every other key is new, belongs to the caller and was freshly issued
    &&& forall|p: (Seq<char>, Seq<char>)|
        #[trigger] new.keys().contains_key(p) ==> (old.keys().contains_key(p) && new.keys()[p]
            == old.keys()[p]) || (pair_contains(p, h) && !old.keys().contains_key(p)
            && is_issued_key(new.keys()[p]))
    // the caller shares a key with every other node
    &&& forall|k: Seq<char>|
        #[trigger] new.leases().contains_key(k) && k != h ==> new.keys().contains_key(
            canonical_pair(h, k),
        )
    &&& peer_views(resp.peers@) == peers_for(new.nodes@, h, new.keys())
}

// ---------------------------------------------------------------------------
// Lemmas on the model.
/// In a table with unique hostnames, each lease is what the map gives for its hostname.
pub proof fn lemma_lease_map_at(nodes: Seq<NodeLease>, i: int)
    requires
        unique_hostnames(nodes),
        0 <= i < nodes.len(),
    ensures
        lease_map(nodes).contains_key(nodes[i].hostname@),
        lease_map(nodes)[nodes[i].hostname@] == nodes[i]@,
{
    let h = nodes[i].hostname@;
    assert(has_node(nodes, h));
    let j = choose|j: int| 0 <= j < nodes.len() && (#[trigger] nodes[j]).hostname@ == h;
    assert(j == i);
}

/// In a store with unique pairs, each key is what the map gives for its pair.
pub proof fn lemma_key_map_at(keys: Seq<PresharedKey>, i: int)
    requires
        unique_pairs(keys),
        0 <= i < keys.len(),
    ensures
        key_map(keys).contains_key(keys[i].peers@),
        key_map(keys)[keys[i].peers@] == keys[i].key@,
{
    let p = keys[i].peers@;
    assert(has_pair(keys, p));
    let j = choose|j: int| 0 <= j < keys.len() && (#[trigger] keys[j]).peers@ == p;
    assert(j == i);
}

pub proof fn lemma_lease_map_all(nodes: Seq<NodeLease>)
    requires
        unique_hostnames(nodes),
    ensures
        forall|i: int|
            0 <= i < nodes.len() ==> lease_map(nodes).contains_key(#[trigger] nodes[i].hostname@)
                && lease_map(nodes)[nodes[i].hostname@] == nodes[i]@,
{
    assert forall|i: int| 0 <= i < nodes.len() implies lease_map(nodes).contains_key(
        #[trigger] nodes[i].hostname@,
    ) && lease_map(nodes)[nodes[i].hostname@] == nodes[i]@ by {
        lemma_lease_map_at(nodes, i);
    }
}

pub proof fn lemma_key_map_all(keys: Seq<PresharedKey>)
    requires
        unique_pairs(keys),
    ensures
        forall|i: int|
            0 <= i < keys.len() ==> key_map(keys).contains_key(#[trigger] keys[i].peers@)
                && key_map(keys)[keys[i].peers@] == keys[i].key@,
{
    assert forall|i: int| 0 <= i < keys.len() implies key_map(keys).contains_key(
        #[trigger] keys[i].peers@,
    ) && key_map(keys)[keys[i].peers@] == keys[i].key@ by {
        lemma_key_map_at(keys, i);
    }
}

/// Each element of a filtered sequence is an element of the sequence.
proof fn lemma_filter_from<A>(s: Seq<A>, pred: spec_fn(A) -> bool)
    ensures
        forall|j: int|
            #![trigger s.filter(pred)[j]]
            0 <= j < s.filter(pred).len() ==> exists|k: int|
                0 <= k < s.len() && #[trigger] s[k] == s.filter(pred)[j],
    decreases s.len(),
{
    reveal(Seq::filter);
    if s.len() > 0 {
        let d = s.drop_last();
        lemma_filter_from(d, pred);
        assert forall|j: int| #![trigger s.filter(pred)[j]]
            0 <= j < s.filter(pred).len() implies exists|k: int|
            0 <= k < s.len() && #[trigger] s[k] == s.filter(pred)[j] by {
            if j < d.filter(pred).len() {
                let k = choose|k: int| 0 <= k < d.len() && #[trigger] d[k] == d.filter(pred)[j];
                assert(s[k] == d[k]);
            } else {
                assert(s[s.len() - 1] == s.filter(pred)[j]);
            }
        }
    }
}

/// Filtering keeps pairs unique.
proof fn lemma_filter_unique_pairs(s: Seq<PresharedKey>, pred: spec_fn(PresharedKey) -> bool)
    requires
        unique_pairs(s),
    ensures
        unique_pairs(s.filter(pred)),
    decreases s.len(),
{
    reveal(Seq::filter);
    if s.len() > 0 {
        let d = s.drop_last();
        assert(unique_pairs(d)) by {
            assert forall|a: int, b: int|
                0 <= a < d.len() && 0 <= b < d.len() && a != b implies (#[trigger] d[a]).peers@ != (
                #[trigger] d[b]).peers@ by {
                assert(d[a] == s[a] && d[b] == s[b]);
            }
        }
        lemma_filter_unique_pairs(d, pred);
        lemma_filter_from(d, pred);
        let f = s.filter(pred);
        let fd = d.filter(pred);
        assert forall|a: int, b: int|
            0 <= a < f.len() && 0 <= b < f.len() && a != b implies (#[trigger] f[a]).peers@ != (
            #[trigger] f[b]).peers@ by {
            if a < fd.len() && b < fd.len() {
                assert(f[a] == fd[a] && f[b] == fd[b]);
            } else {
                let c = if a < fd.len() { a } else { b };
                assert(f[c] == fd[c]);
                let k = choose|k: int| 0 <= k < d.len() && #[trigger] d[k] == fd[c];
                assert(d[k] == s[k]);
                assert(s[s.len() - 1].peers@ != s[k].peers@);
            }
        }
    }
}

// ---------------------------------------------------------------------------
// Executable parts.
/// Index of the lease of `hostname`, if any.
pub(crate) fn find_node(nodes: &Vec<NodeLease>, hostname: &str) -> (r: Option<usize>)
    ensures
        r is Some <==> has_node(nodes@, hostname@),
        r is Some ==> r->0 < nodes@.len() && nodes@[r->0 as int].hostname@ == hostname@,
{
    let h = hostname.to_owned();
    let mut i: usize = 0;
    while i < nodes.len()
        invariant
            i <= nodes.len(),
            h@ == hostname@,
            forall|j: int| 0 <= j < i ==> (#[trigger] nodes@[j]).hostname@ != hostname@,
        decreases nodes.len() - i,
    {
        if nodes[i].hostname == h {
            return Some(i);
        }
        i += 1;
    }
    None
}

/// Index of the key of `pair`, if any.
fn find_pair(keys: &Vec<PresharedKey>, pair: &PeerPair) -> (r: Option<usize>)
    ensures
        r is Some <==> has_pair(keys@, pair@),
        r is Some ==> r->0 < keys@.len() && keys@[r->0 as int].peers@ == pair@,
{
    let mut i: usize = 0;
    while i < keys.len()
        invariant
            i <= keys.len(),
            forall|j: int| 0 <= j < i ==> (#[trigger] keys@[j]).peers@ != pair@,
        decreases keys.len() - i,
    {
        if keys[i].peers == *pair {
            return Some(i);
        }
        i += 1;
    }
    None
}

/// Splits an endpoint that is not an IP address on its last `:` into host and port; the port
/// falls back to `listen_port`.
pub fn split_endpoint(endpoint: &str, listen_port: u32) -> (r: (String, u32))
    ensures
        r.0@ == endpoint_host(endpoint@),
        r.1 == endpoint_port(endpoint@, listen_port),
{
    if crate::validation::parses_as_ip_address(endpoint) {
        return (endpoint.to_owned(), listen_port);
    }
    let v = chars_of(endpoint);
    let colon = crate::validation::last_colon(&v);
    proof {
        crate::validation::lemma_last_index_bounds(v@, ':');
    }
    if let Some(k) = colon {
        let n = v.len();
        assert(k < n);
        let host = endpoint.substring_char(0, k);
        assert(host@ =~= host_part(endpoint@));
        assert(v@.subrange(k + 1, v@.len() as int) =~= v@.skip(k + 1));
        let port = match crate::validation::parse_decimal(&v, k + 1, n, 4294967295) {
            Some(p) => p as u32,
            None => listen_port,
        };
        (host.to_owned(), port)
    } else {
        (endpoint.to_owned(), listen_port)
    }
}

impl LighthouseState {
    /// A state with no nodes and no keys.
    pub fn new(now: u64) -> (r: Self)
        ensures
            r.wf(),
            r.complete(),
            r.leases() == Map::<Seq<char>, LeaseView>::empty(),
            r.keys() == Map::<(Seq<char>, Seq<char>), Seq<char>>::empty(),
            r.last_modified == now,
    {
        let r = LighthouseState { nodes: Vec::new(), preshared_keys: Vec::new(), last_modified: now };
        assert(r.leases() =~= Map::<Seq<char>, LeaseView>::empty());
        assert(r.keys() =~= Map::<(Seq<char>, Seq<char>), Seq<char>>::empty());
        r
    }
}

impl LighthouseState {
    /// Inserts or refreshes the caller's lease from its request: every declared field is
    /// overwritten and `last_seen` set to `now`; a new lease starts with `last_rotation = now`.
    pub fn upsert_node_lease_from_pull_request(&mut self, request: &NodePullRequest, now: u64)
        requires
            old(self).wf(),
        ensures
            final(self).wf(),
            final(self).leases() == old(self).leases().insert(
                request.hostname@,
                lease_from_request(
                    *request,
                    now,
                    if old(self).leases().contains_key(request.hostname@) {
                        old(self).leases()[request.hostname@].last_rotation
                    } else {
                        now
                    },
                ),
            ),
            final(self).preshared_keys@ == old(self).preshared_keys@,
            final(self).last_modified == old(self).last_modified,
    {
        let ghost old_nodes = self.nodes@;
        let ghost h = request.hostname@;
        proof {
            lemma_lease_map_all(old_nodes);
        }
        let idx = find_node(&self.nodes, request.hostname.as_str());
        let last_rotation = match idx {
            Some(i) => self.nodes[i].last_rotation,
            None => now,
        };
        let lease = NodeLease {
            hostname: request.hostname.clone(),
            endpoint: request.endpoint.clone(),
            public_key: request.public_key.clone(),
            listen_port: request.listen_port,
            persistent_keepalive: request.persistent_keepalive,
            allowed_ips: clone_strings(&request.allowed_ips),
            route_allowed_ips: request.route_allowed_ips,
            last_seen: now,
            last_rotation,
        };
        let ghost target = old(self).leases().insert(
            h,
            lease_from_request(
                *request,
                now,
                if old(self).leases().contains_key(h) {
                    old(self).leases()[h].last_rotation
                } else {
                    now
                },
            ),
        );
        assert(lease@ == target[h]);
        let ghost pos: int;
        match idx {
            Some(i) => {
                self.nodes[i] = lease;
                proof {
                    pos = i as int;
                }
            },
            None => {
                self.nodes.push(lease);
                proof {
                    pos = old_nodes.len() as int;
                }
            },
        }
        let ghost new_nodes = self.nodes@;
        assert(new_nodes[pos] == lease);
        assert(forall|j: int| 0 <= j < new_nodes.len() && j != pos ==> new_nodes[j] == old_nodes[j]);
        assert(forall|j: int| 0 <= j < old_nodes.len() && j != pos ==> new_nodes[j] == old_nodes[j]);
        assert(forall|j: int|
            0 <= j < old_nodes.len() && j != pos ==> (#[trigger] old_nodes[j]).hostname@ != h);
        assert(unique_hostnames(new_nodes)) by {
            assert forall|a: int, b: int|
                0 <= a < new_nodes.len() && 0 <= b < new_nodes.len() && a != b implies (
                #[trigger] new_nodes[a]).hostname@ != (#[trigger] new_nodes[b]).hostname@ by {
                if a != pos && b != pos {
                    assert(new_nodes[a] == old_nodes[a]);
                    assert(new_nodes[b] == old_nodes[b]);
                }
            }
        }
        proof {
            lemma_lease_map_all(new_nodes);
        }
        assert forall|k: Seq<char>| has_node(old_nodes, k) implies has_node(new_nodes, k) by {
            let j = choose|j: int| 0 <= j < old_nodes.len() && (#[trigger] old_nodes[j]).hostname@ == k;
            if j == pos {
                assert(new_nodes[pos].hostname@ == k);
            } else {
                assert(new_nodes[j] == old_nodes[j]);
            }
        }
        assert(self.leases() =~= target) by {
            assert forall|k: Seq<char>| #[trigger] self.leases().contains_key(k) == target.contains_key(k) by {
                if has_node(new_nodes, k) && k != h {
                    let j = choose|j: int| 0 <= j < new_nodes.len() && (#[trigger] new_nodes[j]).hostname@ == k;
                    assert(new_nodes[j] == old_nodes[j]);
                }
                if k == h {
                    assert(new_nodes[pos].hostname@ == k);
                }
            }
            assert forall|k: Seq<char>| #[trigger] self.leases().contains_key(k) implies self.leases()[k] == target[k] by {
                let j = choose|j: int| 0 <= j < new_nodes.len() && (#[trigger] new_nodes[j]).hostname@ == k;
                if j != pos {
                    assert(new_nodes[j] == old_nodes[j]);
                }
            }
        }
    }
}

impl LighthouseState {
    /// Decides whether the node must rotate its keys now: the interval has passed since its
    /// last rotation and the local hour lies in the window. When it must, its `last_rotation`
    /// is set to `now` at once, so that it is not asked twice in one interval.
    pub fn should_regenerate_keys(
        &mut self,
        hostname: &str,
        key_rotation_interval_seconds: u64,
        key_rotation_tod: (u8, u8),
        now: u64,
        local_hour: u32,
    ) -> (r: Result<bool, StateError>)
        requires
            old(self).wf(),
        ensures
            final(self).wf(),
            final(self).preshared_keys@ == old(self).preshared_keys@,
            final(self).last_modified == old(self).last_modified,
            !old(self).leases().contains_key(hostname@) ==> r == Err::<bool, StateError>(
                StateError::UnknownNode,
            ) && final(self).nodes@ == old(self).nodes@,
            old(self).leases().contains_key(hostname@) ==> {
                let l = old(self).leases()[hostname@];
                let due = rotation_due(
                    l.last_rotation,
                    now,
                    key_rotation_interval_seconds,
                    key_rotation_tod,
                    local_hour,
                );
                &&& r == Ok::<bool, StateError>(due)
                &&& final(self).leases() == if due {
                    old(self).leases().insert(hostname@, LeaseView { last_rotation: now, ..l })
                } else {
                    old(self).leases()
                }
            },
    {
        let ghost old_nodes = self.nodes@;
        let ghost h = hostname@;
        proof {
            lemma_lease_map_all(old_nodes);
        }
        let i = match find_node(&self.nodes, hostname) {
            Some(i) => i,
            None => {
                return Err(StateError::UnknownNode);
            },
        };
        let last_rotation = self.nodes[i].last_rotation;
        let elapsed_enough = now >= last_rotation && now - last_rotation
            >= key_rotation_interval_seconds;
        let (tod_min, tod_max) = key_rotation_tod;
        let in_window = if tod_min <= tod_max {
            tod_min as u32 <= local_hour && local_hour <= tod_max as u32
        } else {
            local_hour >= tod_min as u32 || local_hour <= tod_max as u32
        };
        assert(old(self).leases()[h] == old_nodes[i as int]@);
        if !(elapsed_enough && in_window) {
            return Ok(false);
        }
        self.nodes[i].last_rotation = now;
        let ghost new_nodes = self.nodes@;
        assert(forall|j: int| 0 <= j < new_nodes.len() && j != i ==> new_nodes[j] == old_nodes[j]);
        assert(new_nodes[i as int]@ == LeaseView { last_rotation: now, ..old_nodes[i as int]@ });
        assert(new_nodes[i as int].hostname@ == h);
        assert(unique_hostnames(new_nodes));
        proof {
            lemma_lease_map_all(new_nodes);
        }
        assert forall|k: Seq<char>| has_node(old_nodes, k) == has_node(new_nodes, k) by {
            if has_node(old_nodes, k) {
                let j = choose|j: int| 0 <= j < old_nodes.len() && (#[trigger] old_nodes[j]).hostname@ == k;
                assert(new_nodes[j].hostname@ == k);
            }
            if has_node(new_nodes, k) {
                let j = choose|j: int| 0 <= j < new_nodes.len() && (#[trigger] new_nodes[j]).hostname@ == k;
                assert(old_nodes[j].hostname@ == k);
            }
        }
        let ghost target = old(self).leases().insert(h, LeaseView { last_rotation: now, ..old_nodes[i as int]@ });
        assert(self.leases() =~= target) by {
            assert forall|k: Seq<char>| #[trigger] self.leases().contains_key(k) implies self.leases()[k] == target[k] by {
                let j = choose|j: int| 0 <= j < new_nodes.len() && (#[trigger] new_nodes[j]).hostname@ == k;
                assert(old_nodes[j].hostname@ == k);
            }
        }
        Ok(true)
    }
}

impl LighthouseState {
    /// Removes every lease whose `now - last_seen` exceeds the timeout, and every key of a
    /// pair that such a lease belonged to.
    pub fn remove_expired_nodes(&mut self, node_timeout_seconds: u64, now: u64)
        requires
            old(self).wf(),
        ensures
            final(self).wf(),
            final(self).last_modified == old(self).last_modified,
            final(self).leases() == Map::new(
                |k: Seq<char>|
                    old(self).leases().contains_key(k) && !is_expired(
                        old(self).leases()[k],
                        now,
                        node_timeout_seconds,
                    ),
                |k: Seq<char>| old(self).leases()[k],
            ),
            final(self).keys() == Map::new(
                |p: (Seq<char>, Seq<char>)|
                    old(self).keys().contains_key(p) && final(self).leases().contains_key(p.0)
                        && final(self).leases().contains_key(p.1),
                |p: (Seq<char>, Seq<char>)| old(self).keys()[p],
            ),
    {
        let ghost orig = self.nodes@;
        proof {
            lemma_lease_map_all(orig);
        }
        let mut rest: Vec<NodeLease> = Vec::new();
        core::mem::swap(&mut self.nodes, &mut rest);
        let ghost mut i: int = 0;
        while rest.len() > 0
            invariant
                0 <= i <= orig.len(),
                rest@ == orig.skip(i),
                self.last_modified == old(self).last_modified,
                self.preshared_keys@ == old(self).preshared_keys@,
                unique_hostnames(orig),
                unique_hostnames(self.nodes@),
                forall|j: int|
                    0 <= j < self.nodes@.len() ==> exists|k: int|
                        0 <= k < i && #[trigger] self.nodes@[j] == orig[k] && !is_expired(
                            orig[k]@,
                            now,
                            node_timeout_seconds,
                        ),
                forall|k: int|
                    0 <= k < i && !is_expired(#[trigger] orig[k]@, now, node_timeout_seconds)
                        ==> exists|j: int| 0 <= j < self.nodes@.len() && self.nodes@[j] == orig[k],
            decreases rest.len(),
        {
            assert(rest@[0] == orig[i]);
            let lease = rest.remove(0);
            assert(rest@ =~= orig.skip(i + 1));
            if !(now >= lease.last_seen && now - lease.last_seen > node_timeout_seconds) {
                let ghost before = self.nodes@;
                self.nodes.push(lease);
                assert forall|a: int, b: int|
                    0 <= a < self.nodes@.len() && 0 <= b < self.nodes@.len() && a != b implies (
                    #[trigger] self.nodes@[a]).hostname@ != (#[trigger] self.nodes@[b]).hostname@ by {
                    if a == before.len() as int || b == before.len() as int {
                        let c = if a == before.len() as int { b } else { a };
                        assert(self.nodes@[c] == before[c]);
                        let k = choose|k: int| 0 <= k < i && #[trigger] before[c] == orig[k] && !is_expired(orig[k]@, now, node_timeout_seconds);
                        assert(orig[k].hostname@ != orig[i].hostname@);
                    } else {
                        assert(self.nodes@[a] == before[a]);
                        assert(self.nodes@[b] == before[b]);
                    }
                }
                assert forall|j: int| 0 <= j < self.nodes@.len() implies exists|k: int|
                    0 <= k < i + 1 && #[trigger] self.nodes@[j] == orig[k] && !is_expired(
                        orig[k]@,
                        now,
                        node_timeout_seconds,
                    ) by {
                    if j < before.len() {
                        assert(self.nodes@[j] == before[j]);
                    } else {
                        assert(self.nodes@[j] == orig[i]);
                    }
                }
                assert forall|k: int|
                    0 <= k < i + 1 && !is_expired(#[trigger] orig[k]@, now, node_timeout_seconds)
                        implies exists|j: int| 0 <= j < self.nodes@.len() && self.nodes@[j] == orig[k] by {
                    if k < i {
                        let j = choose|j: int| 0 <= j < before.len() && before[j] == orig[k];
                        assert(self.nodes@[j] == before[j]);
                    } else {
                        assert(self.nodes@[before.len() as int] == orig[k]);
                    }
                }
            }
            proof {
                i = i + 1;
            }
        }
        let ghost kept = self.nodes@;
        proof {
            lemma_lease_map_all(kept);
        }
        let ghost target = Map::new(
            |k: Seq<char>|
                old(self).leases().contains_key(k) && !is_expired(
                    old(self).leases()[k],
                    now,
                    node_timeout_seconds,
                ),
            |k: Seq<char>| old(self).leases()[k],
        );
        assert(self.leases() =~= target) by {
            assert forall|k: Seq<char>| #[trigger] self.leases().contains_key(k) == target.contains_key(k) by {
                if has_node(kept, k) {
                    let j = choose|j: int| 0 <= j < kept.len() && (#[trigger] kept[j]).hostname@ == k;
                    let m = choose|m: int| 0 <= m < orig.len() && #[trigger] kept[j] == orig[m] && !is_expired(orig[m]@, now, node_timeout_seconds);
                    assert(orig[m].hostname@ == k);
                }
                if target.contains_key(k) {
                    let m = choose|m: int| 0 <= m < orig.len() && (#[trigger] orig[m]).hostname@ == k;
                    let j = choose|j: int| 0 <= j < kept.len() && kept[j] == orig[m];
                    assert(kept[j].hostname@ == k);
                }
            }
            assert forall|k: Seq<char>| #[trigger] self.leases().contains_key(k) implies self.leases()[k] == target[k] by {
                let j = choose|j: int| 0 <= j < kept.len() && (#[trigger] kept[j]).hostname@ == k;
                let m = choose|m: int| 0 <= m < orig.len() && #[trigger] kept[j] == orig[m] && !is_expired(orig[m]@, now, node_timeout_seconds);
                assert(orig[m].hostname@ == k);
            }
        }
        self.remove_orphan_keys();
    }

    /// Removes every key whose pair holds a hostname without a lease.
    fn remove_orphan_keys(&mut self)
        requires
            unique_hostnames(old(self).nodes@),
            unique_pairs(old(self).preshared_keys@),
            forall|i: int|
                0 <= i < old(self).preshared_keys@.len() ==> is_canonical(
                    (#[trigger] old(self).preshared_keys@[i]).peers@,
                ),
        ensures
            final(self).wf(),
            final(self).nodes@ == old(self).nodes@,
            final(self).last_modified == old(self).last_modified,
            final(self).keys() == Map::new(
                |p: (Seq<char>, Seq<char>)|
                    old(self).keys().contains_key(p) && old(self).leases().contains_key(p.0)
                        && old(self).leases().contains_key(p.1),
                |p: (Seq<char>, Seq<char>)| old(self).keys()[p],
            ),
    {
        let ghost orig = self.preshared_keys@;
        let ghost nodes = self.nodes@;
        let ghost live = |e: PresharedKey| has_node(nodes, e.peers@.0) && has_node(nodes, e.peers@.1);
        proof {
            lemma_key_map_all(orig);
        }
        let mut rest: Vec<PresharedKey> = Vec::new();
        core::mem::swap(&mut self.preshared_keys, &mut rest);
        let ghost mut i: int = 0;
        assert(orig.take(0).filter(live) =~= Seq::<PresharedKey>::empty()) by {
            reveal(Seq::filter);
        }
        while rest.len() > 0
            invariant
                0 <= i <= orig.len(),
                rest@ == orig.skip(i),
                self.nodes@ == nodes,
                self.last_modified == old(self).last_modified,
                self.preshared_keys@ == orig.take(i).filter(live),
                forall|e: PresharedKey|
                    #[trigger] live(e) == (has_node(nodes, e.peers@.0) && has_node(
                        nodes,
                        e.peers@.1,
                    )),
            decreases rest.len(),
        {
            assert(rest@[0] == orig[i]);
            let entry = rest.remove(0);
            assert(rest@ =~= orig.skip(i + 1));
            assert(orig.take(i + 1).drop_last() =~= orig.take(i));
            assert(orig.take(i + 1).filter(live) == if live(orig[i]) {
                orig.take(i).filter(live).push(orig[i])
            } else {
                orig.take(i).filter(live)
            }) by {
                reveal(Seq::filter);
            }
            let a = find_node(&self.nodes, entry.peers.first().as_str());
            let b = find_node(&self.nodes, entry.peers.second().as_str());
            assert(entry == orig[i]);
            assert(a.is_some() == has_node(nodes, orig[i].peers@.0));
            assert(b.is_some() == has_node(nodes, orig[i].peers@.1));
            assert(live(orig[i]) == (a.is_some() && b.is_some()));
            if a.is_some() && b.is_some() {
                self.preshared_keys.push(entry);
            }
            proof {
                i = i + 1;
            }
        }
        assert(orig.take(i) =~= orig);
        let ghost kept = self.preshared_keys@;
        proof {
            lemma_filter_from(orig, live);
            lemma_filter_unique_pairs(orig, live);
            #[allow(deprecated)]
            orig.filter_lemma(live);
            lemma_key_map_all(kept);
            lemma_lease_map_all(nodes);
        }
        assert forall|j: int| 0 <= j < kept.len() implies {
            let p = (#[trigger] kept[j]).peers@;
            &&& is_canonical(p)
            &&& has_node(self.nodes@, p.0)
            &&& has_node(self.nodes@, p.1)
        } by {
            let k = choose|k: int| 0 <= k < orig.len() && #[trigger] orig[k] == kept[j];
        }
        let ghost target = Map::new(
            |p: (Seq<char>, Seq<char>)|
                old(self).keys().contains_key(p) && old(self).leases().contains_key(p.0)
                    && old(self).leases().contains_key(p.1),
            |p: (Seq<char>, Seq<char>)| old(self).keys()[p],
        );
        assert(self.keys() =~= target) by {
            assert forall|p: (Seq<char>, Seq<char>)| #[trigger] self.keys().contains_key(p) == target.contains_key(p) by {
                if has_pair(kept, p) {
                    let j = choose|j: int| 0 <= j < kept.len() && (#[trigger] kept[j]).peers@ == p;
                    let m = choose|m: int| 0 <= m < orig.len() && #[trigger] orig[m] == kept[j];
                    assert(orig[m].peers@ == p);
                }
                if target.contains_key(p) {
                    let m = choose|m: int| 0 <= m < orig.len() && (#[trigger] orig[m]).peers@ == p;
                    assert(live(orig[m]));
                    assert(kept.contains(orig[m]));
                    let j = choose|j: int| 0 <= j < kept.len() && kept[j] == orig[m];
                    assert(kept[j].peers@ == p);
                }
            }
            assert forall|p: (Seq<char>, Seq<char>)| #[trigger] self.keys().contains_key(p) implies self.keys()[p] == target[p] by {
                let j = choose|j: int| 0 <= j < kept.len() && (#[trigger] kept[j]).peers@ == p;
                let m = choose|m: int| 0 <= m < orig.len() && #[trigger] orig[m] == kept[j];
                assert(orig[m].peers@ == p);
            }
        }
    }
}

impl LighthouseState {
    /// The key of the pair `{a, b}`: the stored one, or a freshly issued one that is stored.
    fn ensure_psk(&mut self, a: &String, b: &String) -> (r: String)
        requires
            old(self).wf(),
            a@ != b@,
            has_node(old(self).nodes@, a@),
            has_node(old(self).nodes@, b@),
        ensures
            final(self).wf(),
            final(self).nodes@ == old(self).nodes@,
            final(self).last_modified == old(self).last_modified,
            final(self).keys().contains_key(canonical_pair(a@, b@)),
            r@ == final(self).keys()[canonical_pair(a@, b@)],
            old(self).keys().contains_key(canonical_pair(a@, b@)) ==> final(self).keys() == old(
                self,
            ).keys(),
            !old(self).keys().contains_key(canonical_pair(a@, b@)) ==> final(self).keys() == old(
                self,
            ).keys().insert(canonical_pair(a@, b@), r@) && is_issued_key(r@),
    {
        let ghost c = canonical_pair(a@, b@);
        let ghost orig = self.preshared_keys@;
        proof {
            lemma_key_map_all(orig);
            lemma_canonical_pair_symmetric(a@, b@);
            crate::peer_pair::lemma_seq_lt_total(a@, b@);
        }
        let pair = PeerPair::new(a.clone(), b.clone());
        match find_pair(&self.preshared_keys, &pair) {
            Some(i) => {
                assert(self.keys()[c] == orig[i as int].key@);
                self.preshared_keys[i].key.clone()
            },
            None => {
                let key = generate_psk();
                let k2 = key.clone();
                self.preshared_keys.push(PresharedKey { peers: pair, key: k2 });
                let ghost now_keys = self.preshared_keys@;
                assert(forall|j: int| 0 <= j < orig.len() ==> now_keys[j] == orig[j]);
                assert(now_keys[orig.len() as int].peers@ == c);
                assert(is_canonical(c));
                assert(unique_pairs(now_keys)) by {
                    assert forall|x: int, y: int|
                        0 <= x < now_keys.len() && 0 <= y < now_keys.len() && x != y implies (
                        #[trigger] now_keys[x]).peers@ != (#[trigger] now_keys[y]).peers@ by {
                        if x < orig.len() && y < orig.len() {
                            assert(now_keys[x] == orig[x] && now_keys[y] == orig[y]);
                        } else if x < orig.len() {
                            assert(now_keys[x] == orig[x]);
                        } else {
                            assert(now_keys[y] == orig[y]);
                        }
                    }
                }
                proof {
                    lemma_key_map_all(now_keys);
                }
                let ghost target = old(self).keys().insert(c, key@);
                assert(self.keys() =~= target) by {
                    assert forall|p: (Seq<char>, Seq<char>)| #[trigger] self.keys().contains_key(p) == target.contains_key(p) by {
                        if has_pair(now_keys, p) && p != c {
                            let j = choose|j: int| 0 <= j < now_keys.len() && (#[trigger] now_keys[j]).peers@ == p;
                            assert(now_keys[j] == orig[j]);
                        }
                        if has_pair(orig, p) {
                            let j = choose|j: int| 0 <= j < orig.len() && (#[trigger] orig[j]).peers@ == p;
                            assert(now_keys[j] == orig[j]);
                        }
                    }
                    assert forall|p: (Seq<char>, Seq<char>)| #[trigger] self.keys().contains_key(p) implies self.keys()[p] == target[p] by {
                        let j = choose|j: int| 0 <= j < now_keys.len() && (#[trigger] now_keys[j]).peers@ == p;
                        if j < orig.len() {
                            assert(now_keys[j] == orig[j]);
                        }
                    }
                }
                key
            },
        }
    }
}

impl LighthouseState {
    /// The peer list of `hostname`: every other lease with the key of their pair, issuing and
    /// storing a key for each pair that has none yet.
    pub fn get_peers_response_for_node(&mut self, hostname: &String) -> (r: Vec<NodePullResponsePeer>)
        requires
            old(self).wf(),
            has_node(old(self).nodes@, hostname@),
        ensures
            final(self).wf(),
            final(self).nodes@ == old(self).nodes@,
            final(self).last_modified == old(self).last_modified,
            forall|p: (Seq<char>, Seq<char>)|
                #[trigger] old(self).keys().contains_key(p) ==> final(self).keys().contains_key(p)
                    && final(self).keys()[p] == old(self).keys()[p],
            forall|p: (Seq<char>, Seq<char>)|
                #[trigger] final(self).keys().contains_key(p) && !old(self).keys().contains_key(p)
                    ==> pair_contains(p, hostname@) && is_issued_key(final(self).keys()[p]),
            forall|k: Seq<char>|
                #[trigger] final(self).leases().contains_key(k) && k != hostname@
                    ==> final(self).keys().contains_key(canonical_pair(hostname@, k)),
            peer_views(r@) == peers_for(final(self).nodes@, hostname@, final(self).keys()),
    {
        let ghost h = hostname@;
        let ghost nodes = self.nodes@;
        let n = self.nodes.len();
        let mut i: usize = 0;
        while i < n
            invariant
                i <= n == nodes.len(),
                self.wf(),
                self.nodes@ == nodes,
                h == hostname@,
                has_node(nodes, h),
                self.last_modified == old(self).last_modified,
                forall|p: (Seq<char>, Seq<char>)|
                    #[trigger] old(self).keys().contains_key(p) ==> self.keys().contains_key(p)
                        && self.keys()[p] == old(self).keys()[p],
                forall|p: (Seq<char>, Seq<char>)|
                    #[trigger] self.keys().contains_key(p) && !old(self).keys().contains_key(p)
                        ==> pair_contains(p, h) && is_issued_key(self.keys()[p]),
                forall|j: int|
                    0 <= j < i && (#[trigger] nodes[j]).hostname@ != h ==> self.keys().contains_key(
                        canonical_pair(h, nodes[j].hostname@),
                    ),
            decreases n - i,
        {
            let other = self.nodes[i].hostname.clone();
            if other != *hostname {
                assert(has_node(nodes, other@));
                let _ = self.ensure_psk(hostname, &other);
                proof {
                    lemma_canonical_pair_symmetric(h, other@);
                }
            }
            i += 1;
        }
        let ghost keys = self.keys();
        proof {
            lemma_lease_map_all(nodes);
        }
        assert forall|k: Seq<char>| #[trigger] self.leases().contains_key(k) && k != h implies self.keys().contains_key(canonical_pair(h, k)) by {
            let j = choose|j: int| 0 <= j < nodes.len() && (#[trigger] nodes[j]).hostname@ == k;
        }
        let mut out: Vec<NodePullResponsePeer> = Vec::new();
        let mut i: usize = 0;
        assert(nodes.take(0) =~= Seq::<NodeLease>::empty());
        assert(peer_views(out@) =~= Seq::<PeerView>::empty());
        while i < n
            invariant
                i <= n == nodes.len(),
                self.wf(),
                self.nodes@ == nodes,
                h == hostname@,
                self.keys() == keys,
                forall|j: int|
                    0 <= j < n && (#[trigger] nodes[j]).hostname@ != h ==> keys.contains_key(
                        canonical_pair(h, nodes[j].hostname@),
                    ),
                peer_views(out@) == peers_for(nodes.take(i as int), h, keys),
            decreases n - i,
        {
            assert(nodes.take(i + 1).drop_last() =~= nodes.take(i as int));
            assert(nodes.take(i + 1).last() == nodes[i as int]);
            let lease = &self.nodes[i];
            if lease.hostname != *hostname {
                let pair = PeerPair::new(hostname.clone(), lease.hostname.clone());
                let ghost c = canonical_pair(h, lease.hostname@);
                proof {
                    lemma_key_map_all(self.preshared_keys@);
                }
                let idx = find_pair(&self.preshared_keys, &pair);
                let k = match idx {
                    Some(k) => k,
                    None => {
                        assert(false);
                        0
                    },
                };
                let psk = self.preshared_keys[k].key.clone();
                let (endpoint_host, endpoint_port) = split_endpoint(
                    lease.endpoint.as_str(),
                    lease.listen_port,
                );
                let peer = NodePullResponsePeer {
                    hostname: lease.hostname.clone(),
                    public_key: lease.public_key.clone(),
                    preshared_key: psk,
                    endpoint_host,
                    endpoint_port,
                    allowed_ips: clone_strings(&lease.allowed_ips),
                    persistent_keepalive: lease.persistent_keepalive,
                    route_allowed_ips: lease.route_allowed_ips,
                };
                assert(peer@ == peer_entry(nodes[i as int]@, keys[c]));
                let ghost before = out@;
                out.push(peer);
                assert(peer_views(out@) =~= peer_views(before).push(peer@));
            }
            i += 1;
        }
        assert(nodes.take(n as int) =~= nodes);
        out
    }
}

impl LighthouseState {
    /// One pull transaction of the node that sent `request`, at `now` (seconds since the
    /// epoch) and local hour `local_hour`: refresh its lease, decide on key rotation, expire
    /// stale leases with their keys, then list its peers with the key of each pair.
    pub fn node_pull(
        &mut self,
        config: &LighthouseConfig,
        request: &NodePullRequest,
        now: u64,
        local_hour: u32,
    ) -> (r: NodePullResponse)
        requires
            old(self).wf(),
        ensures
            pull_outcome(*old(self), *config, *request, now, local_hour, *final(self), r),
    {
        let ghost s0 = *self;
        let ghost h = request.hostname@;
        self.upsert_node_lease_from_pull_request(request, now);
        let regenerate_keys = match self.should_regenerate_keys(
            request.hostname.as_str(),
            config.key_rotation_interval_seconds,
            config.key_rotation_tod,
            now,
            local_hour,
        ) {
            Ok(due) => due,
            Err(_) => false,
        };
        let ghost s2 = *self;
        let ghost prior = s0.leases();
        let ghost rotation0 = if prior.contains_key(h) {
            prior[h].last_rotation
        } else {
            now
        };
        let ghost lease = lease_from_request(
            *request,
            now,
            if regenerate_keys {
                now
            } else {
                rotation0
            },
        );
        let ghost upserted = prior.insert(h, lease);
        assert(s2.leases() =~= upserted);
        self.remove_expired_nodes(config.node_timeout_seconds, now);
        let ghost s3 = *self;
        assert(s3.leases().contains_key(h));
        proof {
            let j = choose|j: int| 0 <= j < s3.nodes@.len() && (#[trigger] s3.nodes@[j]).hostname@
                == h;
        }
        let peers = self.get_peers_response_for_node(&request.hostname);
        let ghost s4 = *self;
        self.last_modified = now;
        assert(self.leases() == s4.leases());
        assert(self.keys() == s4.keys());
        assert(s2.keys() == s0.keys());
        assert forall|k: Seq<char>|
            #[trigger] self.leases().contains_key(k) && k != h implies self.keys().contains_key(
                canonical_pair(h, k),
            ) by {
            assert(s4.leases().contains_key(k));
        }
        assert forall|p: (Seq<char>, Seq<char>)|
            #[trigger] s0.keys().contains_key(p) && self.leases().contains_key(p.0)
                && self.leases().contains_key(p.1) implies self.keys().contains_key(p)
                && self.keys()[p] == s0.keys()[p] by {
            assert(s2.keys().contains_key(p));
            assert(s3.keys().contains_key(p));
            assert(s4.keys().contains_key(p));
        }
        let r = NodePullResponse { regenerate_keys, peers };
        assert(self.leases() == s3.leases());
        assert forall|p: (Seq<char>, Seq<char>)|
            #[trigger] self.keys().contains_key(p) implies (s0.keys().contains_key(p)
                && self.keys()[p] == s0.keys()[p]) || (pair_contains(p, h)
                && !s0.keys().contains_key(p) && is_issued_key(self.keys()[p])) by {
            if !s3.keys().contains_key(p) {
                let j = choose|j: int|
                    0 <= j < self.preshared_keys@.len() && (#[trigger] self.preshared_keys@[j]).peers@
                        == p;
                assert(has_node(self.nodes@, p.0) && has_node(self.nodes@, p.1));
            }
        }
        r
    }
}

} // verus!
