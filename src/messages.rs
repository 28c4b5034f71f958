use vstd::prelude::*;

use crate::validation::{
    cidr_check, hostname_check, hostname_or_ip_check, interface_name_check, validate_cidr,
    validate_hostname, validate_hostname_or_ip, validate_interface_name, validate_wg_key,
    wg_key_check, Validated, ValidationError,
};

verus! {

/// The views of a sequence of strings.
pub open spec fn strings_view(v: Seq<String>) -> Seq<Seq<char>> {
    v.map_values(|s: String| s@)
}

/// A copy of a list of strings, element for element.
pub fn clone_strings(v: &Vec<String>) -> (r: Vec<String>)
    ensures
        r@ == v@,
{
    let mut r: Vec<String> = Vec::new();
    let mut i: usize = 0;
    while i < v.len()
        invariant
            i <= v.len(),
            r@ == v@.take(i as int),
        decreases v.len() - i,
    {
        r.push(v[i].clone());
        i += 1;
        assert(r@ =~= v@.take(i as int));
    }
    assert(r@ =~= v@);
    r
}

/// The request sent by a node to the lighthouse.
#[derive(Debug, Clone)]
pub struct NodePullRequest {
    /// The hostname of the local node.
    pub hostname: String,
    /// The endpoint of the node (host/ip).
    pub endpoint: String,
    /// The public key of the node.
    pub public_key: String,
    /// The listening port of the node.
    pub listen_port: u32,
    /// The persistent keepalive interval for the node.
    pub persistent_keepalive: u32,
    /// The allowed IPs of the node.
    pub allowed_ips: Vec<String>,
    /// Whether or not the allowed ips should route through the wireguard interface.
    pub route_allowed_ips: bool,
}

/// The verdict on the first network of `ips` that fails, or `Ok`.
pub open spec fn cidrs_check(name: &'static str, ips: Seq<Seq<char>>) -> Result<
    (),
    ValidationError,
>
    decreases ips.len(),
{
    if ips.len() == 0 {
        Ok(())
    } else if cidr_check(name, ips[0]) is Err {
        cidr_check(name, ips[0])
    } else {
        cidrs_check(name, ips.drop_first())
    }
}

/// Checks every entry of `ips` as a network, reporting the first that fails.
fn validate_cidrs(name: &'static str, ips: &Vec<String>) -> (r: Result<(), ValidationError>)
    ensures
        r == cidrs_check(name, strings_view(ips@)),
{
    let ghost all = strings_view(ips@);
    let mut i: usize = 0;
    assert(all.skip(0) =~= all);
    while i < ips.len()
        invariant
            i <= ips.len(),
            all == strings_view(ips@),
            cidrs_check(name, all) == cidrs_check(name, all.skip(i as int)),
        decreases ips.len() - i,
    {
        assert(all.skip(i as int).drop_first() =~= all.skip(i + 1));
        let r = validate_cidr(name, ips[i].as_str());
        if r.is_err() {
            return r;
        }
        i += 1;
    }
    assert(all.skip(i as int).len() == 0);
    Ok(())
}

impl NodePullRequest {
    pub open spec fn check(&self) -> Result<(), ValidationError> {
        if hostname_check("hostname", self.hostname@) is Err {
            hostname_check("hostname", self.hostname@)
        } else if hostname_or_ip_check("endpoint", self.endpoint@) is Err {
            hostname_or_ip_check("endpoint", self.endpoint@)
        } else if wg_key_check("public_key", self.public_key@) is Err {
            wg_key_check("public_key", self.public_key@)
        } else {
            cidrs_check("allowed_ip[]", strings_view(self.allowed_ips@))
        }
    }
}

impl Validated for NodePullRequest {
    open spec fn validation(&self) -> Result<(), ValidationError> {
        self.check()
    }

    /// Checks the hostname, the endpoint, the public key and each allowed network, in that order.
    fn validate(&self) -> (r: Result<(), ValidationError>) {
        let r = validate_hostname("hostname", self.hostname.as_str());
        if r.is_err() {
            return r;
        }
        let r = validate_hostname_or_ip("endpoint", self.endpoint.as_str());
        if r.is_err() {
            return r;
        }
        let r = validate_wg_key("public_key", self.public_key.as_str());
        if r.is_err() {
            return r;
        }
        validate_cidrs("allowed_ip[]", &self.allowed_ips)
    }
}

/// Wireguard metrics for a peer.
#[derive(Debug, Clone)]
pub struct NodeMetricsPushRequestPeer {
    /// The hostname of the connected peer.
    pub hostname: String,
    /// Endpoint of the peer.
    pub endpoint: String,
    /// Latest handshake of the peer.
    pub latest_handshake: u64,
    /// Received bytes of the peer.
    pub transfer_rx: i64,
    /// Sent bytes of the peer.
    pub transfer_tx: i64,
    /// Persistent keepalive interval of the peer.
    pub persistent_keepalive: i64,
}

/// Pushes wireguard metrics to the lighthouse.
#[derive(Debug, Clone)]
pub struct NodeMetricsPushRequest {
    /// The hostname of the local node.
    pub hostname: String,
    /// The interface name of the node.
    pub interface: String,
    /// The udp port number that wireguard listens on.
    pub listening_port: u16,
    /// Information about connected peers.
    pub peers: Vec<NodeMetricsPushRequestPeer>,
}

pub open spec fn metrics_peer_check(p: NodeMetricsPushRequestPeer) -> Result<(), ValidationError> {
    if hostname_check("hostname", p.hostname@) is Err {
        hostname_check("hostname", p.hostname@)
    } else {
        hostname_or_ip_check("endpoint", p.endpoint@)
    }
}

pub open spec fn metrics_peers_check(ps: Seq<NodeMetricsPushRequestPeer>) -> Result<
    (),
    ValidationError,
>
    decreases ps.len(),
{
    if ps.len() == 0 {
        Ok(())
    } else if metrics_peer_check(ps[0]) is Err {
        metrics_peer_check(ps[0])
    } else {
        metrics_peers_check(ps.drop_first())
    }
}

impl NodeMetricsPushRequest {
    pub open spec fn check(&self) -> Result<(), ValidationError> {
        if hostname_check("hostname", self.hostname@) is Err {
            hostname_check("hostname", self.hostname@)
        } else if interface_name_check("interface", self.interface@) is Err {
            interface_name_check("interface", self.interface@)
        } else {
            metrics_peers_check(self.peers@)
        }
    }
}

impl Validated for NodeMetricsPushRequest {
    open spec fn validation(&self) -> Result<(), ValidationError> {
        self.check()
    }

    /// Checks the hostname, the interface name, then each peer's hostname and endpoint.
    fn validate(&self) -> (r: Result<(), ValidationError>) {
        let r = validate_hostname("hostname", self.hostname.as_str());
        if r.is_err() {
            return r;
        }
        let r = validate_interface_name("interface", self.interface.as_str());
        if r.is_err() {
            return r;
        }
        let mut i: usize = 0;
        assert(self.peers@.skip(0) =~= self.peers@);
        while i < self.peers.len()
            invariant
                i <= self.peers.len(),
                hostname_check("hostname", self.hostname@) is Ok,
                interface_name_check("interface", self.interface@) is Ok,
                metrics_peers_check(self.peers@) == metrics_peers_check(self.peers@.skip(i as int)),
            decreases self.peers.len() - i,
        {
            assert(self.peers@.skip(i as int).drop_first() =~= self.peers@.skip(i + 1));
            let peer = &self.peers[i];
            let r = validate_hostname("hostname", peer.hostname.as_str());
            if r.is_err() {
                return r;
            }
            let r = validate_hostname_or_ip("endpoint", peer.endpoint.as_str());
            if r.is_err() {
                return r;
            }
            i += 1;
        }
        assert(self.peers@.skip(i as int).len() == 0);
        Ok(())
    }
}

/// One peer of a node, as the lighthouse describes it in a pull response.
#[derive(Debug, Clone)]
pub struct NodePullResponsePeer {
    /// The hostname of the peer.
    pub hostname: String,
    /// The public key of the peer.
    pub public_key: String,
    /// The preshared key of the peer.
    pub preshared_key: String,
    /// The endpoint host/ip of the peer.
    pub endpoint_host: String,
    /// The endpoint port of the peer.
    pub endpoint_port: u32,
    /// The allowed IPs of the peer.
    pub allowed_ips: Vec<String>,
    /// The persistent keepalive interval for the peer.
    pub persistent_keepalive: u32,
    /// Whether or not the allowed ips should route through the wireguard interface.
    pub route_allowed_ips: bool,
}

/// The response sent by the lighthouse to a node pull request.
#[derive(Debug, Clone)]
pub struct NodePullResponse {
    /// Indicates to the node that it should regenerate its public and private keys.
    pub regenerate_keys: bool,
    /// Peer configuration for the node provided by the lighthouse.
    pub peers: Vec<NodePullResponsePeer>,
}

pub open spec fn response_peer_check(p: NodePullResponsePeer) -> Result<(), ValidationError> {
    if hostname_check("hostname", p.hostname@) is Err {
        hostname_check("hostname", p.hostname@)
    } else if wg_key_check("public_key", p.public_key@) is Err {
        wg_key_check("public_key", p.public_key@)
    } else if wg_key_check("preshared_key", p.preshared_key@) is Err {
        wg_key_check("preshared_key", p.preshared_key@)
    } else if hostname_or_ip_check("endpoint_host", p.endpoint_host@) is Err {
        hostname_or_ip_check("endpoint_host", p.endpoint_host@)
    } else {
        cidrs_check("allowed_ip[]", strings_view(p.allowed_ips@))
    }
}

pub open spec fn response_peers_check(ps: Seq<NodePullResponsePeer>) -> Result<
    (),
    ValidationError,
>
    decreases ps.len(),
{
    if ps.len() == 0 {
        Ok(())
    } else if response_peer_check(ps[0]) is Err {
        response_peer_check(ps[0])
    } else {
        response_peers_check(ps.drop_first())
    }
}

fn validate_response_peer(p: &NodePullResponsePeer) -> (r: Result<(), ValidationError>)
    ensures
        r == response_peer_check(*p),
{
    let r = validate_hostname("hostname", p.hostname.as_str());
    if r.is_err() {
        return r;
    }
    let r = validate_wg_key("public_key", p.public_key.as_str());
    if r.is_err() {
        return r;
    }
    let r = validate_wg_key("preshared_key", p.preshared_key.as_str());
    if r.is_err() {
        return r;
    }
    let r = validate_hostname_or_ip("endpoint_host", p.endpoint_host.as_str());
    if r.is_err() {
        return r;
    }
    validate_cidrs("allowed_ip[]", &p.allowed_ips)
}

impl NodePullResponse {
    pub open spec fn check(&self) -> Result<(), ValidationError> {
        response_peers_check(self.peers@)
    }
}

impl Validated for NodePullResponse {
    open spec fn validation(&self) -> Result<(), ValidationError> {
        self.check()
    }

    /// Checks each peer: hostname, public key, preshared key, endpoint host, allowed networks.
    fn validate(&self) -> (r: Result<(), ValidationError>) {
        let mut i: usize = 0;
        assert(self.peers@.skip(0) =~= self.peers@);
        while i < self.peers.len()
            invariant
                i <= self.peers.len(),
                response_peers_check(self.peers@) == response_peers_check(
                    self.peers@.skip(i as int),
                ),
            decreases self.peers.len() - i,
        {
            assert(self.peers@.skip(i as int).drop_first() =~= self.peers@.skip(i + 1));
            let r = validate_response_peer(&self.peers[i]);
            if r.is_err() {
                return r;
            }
            i += 1;
        }
        assert(self.peers@.skip(i as int).len() == 0);
        Ok(())
    }
}

} // verus!
