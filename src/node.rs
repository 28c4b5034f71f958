use vstd::prelude::*;

use crate::messages::{
    clone_strings, NodeMetricsPushRequest, NodeMetricsPushRequestPeer, NodePullRequest,
    NodePullResponse, NodePullResponsePeer,
};
use crate::text::{decimal, push_decimal};
use crate::validation::{Validated, ValidationError};

verus! {

/// Node configuration.
#[derive(Debug, Clone)]
pub struct NodeConfig {
    /// Hostname or IP address of the lighthouse server.
    pub lighthouse_host: String,
    /// Port of the lighthouse server.
    pub lighthouse_port: u16,
    /// Path prefix of the lighthouse server.
    pub lighthouse_path_prefix: String,
    /// Whether or not to use SSL when connecting to the lighthouse.
    pub lighthouse_ssl: bool,
    /// Key used by the lighthouse to authenticate the nodes.
    pub lighthouse_key: String,
    /// Key used by node to authenticate with the lighthouse server.
    pub node_key: String,
    /// Time inbetween each pull of the lighthouse's node configuration.
    pub pull_interval: u32,
    /// Time inbetween each push of the node's metrics to the lighthouse.
    pub metrics_interval: u32,
    /// State file to store the node's state.
    pub state_file: String,
}

impl NodeConfig {
    /// `https` where SSL is configured, else `http`.
    pub fn get_lighthouse_scheme(&self) -> (r: &'static str)
        ensures
            r@ == (if self.lighthouse_ssl {
                "https"@
            } else {
                "http"@
            }),
    {
        if self.lighthouse_ssl {
            "https"
        } else {
            "http"
        }
    }

    /// The base URL of the lighthouse: `scheme://host:port/prefix`.
    pub fn get_lighthouse_url(&self) -> (r: String)
        ensures
            r@ == (if self.lighthouse_ssl {
                "https"@
            } else {
                "http"@
            }) + "://"@ + self.lighthouse_host@ + ":"@ + decimal(self.lighthouse_port as nat) + "/"@
                + self.lighthouse_path_prefix@,
    {
        let mut url = String::from_str(self.get_lighthouse_scheme());
        url.append("://");
        url.append(self.lighthouse_host.as_str());
        url.append(":");
        push_decimal(&mut url, self.lighthouse_port as u64);
        url.append("/");
        url.append(self.lighthouse_path_prefix.as_str());
        url
    }
}

/// The local backend that configures WireGuard on a node.
#[derive(Debug, Clone, Copy, PartialEq, Eq)]
pub enum BackendType {
    Systemd,
    Uci,
}

/// Wireguard configuration of a node.
#[derive(Debug, Clone)]
pub struct WireguardConfig {
    /// Type of backend to use to setup the local wireguard.
    pub backend: BackendType,
    /// IP Address of the wireguard node.
    pub address: String,
    /// Public IP Address or Hostname of the wireguard node, or `discover`.
    pub endpoint: String,
    /// Wireguard port to use. (UDP)
    pub listen_port: u32,
    /// Wireguard PersistentKeepalive configuration.
    pub persistent_keepalive: u32,
    /// List of IP addresses to allow incoming connections from (AllowedIPs).
    pub allowed_ips: Vec<String>,
    /// Whether or not the allowed ips should route through the wireguard interface.
    pub route_allowed_ips: bool,
}

/// Systemd backend configuration of a node.
#[derive(Debug, Clone)]
pub struct SystemdConfig {
    /// The name of the WireGuard interface (wg0).
    pub interface: String,
    /// The path to systemd-networkd interface files (/etc/systemd/network).
    pub path: String,
    /// Reload networkctl after changes to interface files.
    pub reload_networkd: bool,
    /// Deletes the wireguard interface before reloading the networkd.
    pub delete_interface_before_reload: bool,
}

/// UCI backend configuration of a node.
#[derive(Debug, Clone)]
pub struct UciConfig {
    /// The name of the WireGuard interface (wg0).
    pub interface: String,
}

/// Configuration file of a node.
#[derive(Debug, Clone)]
pub struct NodeConfigFile {
    /// Node configuration.
    pub node: NodeConfig,
    /// Wireguard configuration of a node.
    pub wireguard: WireguardConfig,
    /// Systemd configuration.
    pub systemd: SystemdConfig,
    /// UCI configuration.
    pub uci: UciConfig,
}

/// Why a node could not go on.
#[derive(Debug, Clone, Copy, PartialEq, Eq)]
pub enum NodeError {
    /// The configured backend is not compatible with this system.
    BackendNotCompatible,
}

/// Why a node's exchange with the lighthouse failed.
#[derive(Debug, Clone)]
pub enum AgentError {
    /// The HTTP client failed or the lighthouse answered with a failure status.
    ClientError(String),
    /// A request or response could not be serialized or deserialized.
    ClientSerializationError(String),
    /// The lighthouse's answer to the challenge is wrong.
    ChallengeResponseIncorrect,
    /// The lighthouse sent no answer to the challenge.
    NoChallengeResponse,
    /// The request to send failed validation.
    RequestValidationError,
}

/// Why the configuration could not be had.
#[derive(Debug, Clone)]
pub enum ConfigError {
    LoadingConfigFile(String),
    ParsingConfigFile(String),
    ConfigDiscovery(String),
}

pub const SYSTEM_CONFIG_PATH: &'static str = "/etc/wgpull/wgpull.conf";

pub const LOCAL_CONFIG_PATH: &'static str = "./wgpull.conf";

/// Picks the configuration file: the system-wide one where it exists, else the one in the
/// working directory where that exists.
pub fn discover_config_path(system_exists: bool, local_exists: bool) -> (r: Result<
    &'static str,
    ConfigError,
>)
    ensures
        system_exists ==> r == Ok::<&'static str, ConfigError>(SYSTEM_CONFIG_PATH),
        !system_exists && local_exists ==> r == Ok::<&'static str, ConfigError>(LOCAL_CONFIG_PATH),
        !system_exists && !local_exists ==> r is Err,
{
    if system_exists {
        Ok(SYSTEM_CONFIG_PATH)
    } else if local_exists {
        Ok(LOCAL_CONFIG_PATH)
    } else {
        Err(ConfigError::ConfigDiscovery(String::from_str("Could not find wgpull.conf")))
    }
}

/// A peer as the node keeps it.
#[derive(Debug, Clone)]
pub struct NodePeer {
    pub hostname: String,
    pub public_key: String,
    pub preshared_key: String,
    pub endpoint_host: String,
    pub endpoint_port: u32,
    pub allowed_ips: Vec<String>,
    pub persistent_keepalive: u32,
    pub route_allowed_ips: bool,
}

/// A WireGuard key pair.
#[derive(Debug, Clone)]
pub struct KeyPair {
    pub public_key: String,
    pub private_key: String,
}

/// One peer line of `wg show all dump`.
#[derive(Debug, Clone)]
pub struct PeerInfo {
    pub interface: String,
    pub public_key: String,
    pub private_key: String,
    pub endpoint: String,
    pub allowed_ips: String,
    pub latest_handshake: u64,
    pub transfer_rx: i64,
    pub transfer_tx: i64,
    pub persistent_keepalive: i64,
}

/// The interface line of `wg show all dump`, with its peers.
#[derive(Debug, Clone)]
pub struct WireguardInfo {
    pub interface: String,
    pub public_key: String,
    pub private_key: String,
    pub listening_port: u16,
    pub peers: Vec<PeerInfo>,
}

/// What a node keeps between runs.
#[derive(Debug, Clone)]
pub struct NodeState {
    /// The local hostname of the node.
    pub hostname: String,
    /// The private key of the node.
    pub private_key: String,
    /// The public key of the node.
    pub public_key: String,
    /// The address of the node inside the overlay.
    pub address: String,
    /// The endpoint host of the node (just ip/hostname).
    pub endpoint: String,
    /// The port that the node listens on.
    pub listen_port: u32,
    /// The persistent keepalive interval for the node.
    pub persistent_keepalive: u32,
    /// The allowed IPs of the node.
    pub allowed_ips: Vec<String>,
    /// List of peers that the node is connected to.
    pub peers: Vec<NodePeer>,
    /// Whether or not the allowed ips should route through the wireguard interface.
    pub route_allowed_ips: bool,
}

/// The hostname of the first peer with the public key, or `unknown`.
pub open spec fn hostname_by_key(peers: Seq<NodePeer>, key: Seq<char>) -> Seq<char>
    decreases peers.len(),
{
    if peers.len() == 0 {
        "unknown"@
    } else if peers[0].public_key@ == key {
        peers[0].hostname@
    } else {
        hostname_by_key(peers.drop_first(), key)
    }
}

/// A node's copy of a peer entry of a pull response.
pub open spec fn node_peer_from(p: NodePullResponsePeer, q: NodePeer) -> bool {
    &&& q.hostname@ == p.hostname@
    &&& q.public_key@ == p.public_key@
    &&& q.preshared_key@ == p.preshared_key@
    &&& q.endpoint_host@ == p.endpoint_host@
    &&& q.endpoint_port == p.endpoint_port
    &&& q.allowed_ips@ == p.allowed_ips@
    &&& q.persistent_keepalive == p.persistent_keepalive
    &&& q.route_allowed_ips == p.route_allowed_ips
}

impl NodeState {
    /// The hostname of the peer with the public key, or `unknown` where none has it.
    pub fn get_hostname_by_public_key(&self, public_key: &str) -> (r: String)
        ensures
            r@ == hostname_by_key(self.peers@, public_key@),
    {
        let key = public_key.to_owned();
        let mut i: usize = 0;
        assert(self.peers@.skip(0) =~= self.peers@);
        while i < self.peers.len()
            invariant
                i <= self.peers.len(),
                key@ == public_key@,
                hostname_by_key(self.peers@, public_key@) == hostname_by_key(
                    self.peers@.skip(i as int),
                    public_key@,
                ),
            decreases self.peers.len() - i,
        {
            assert(self.peers@.skip(i as int).drop_first() =~= self.peers@.skip(i + 1));
            if self.peers[i].public_key == key {
                return self.peers[i].hostname.clone();
            }
            i += 1;
        }
        String::from_str("unknown")
    }

    /// The pull request that announces this node.
    pub fn to_pull_request(&self) -> (r: NodePullRequest)
        ensures
            r.hostname@ == self.hostname@,
            r.endpoint@ == self.endpoint@,
            r.public_key@ == self.public_key@,
            r.listen_port == self.listen_port,
            r.persistent_keepalive == self.persistent_keepalive,
            r.allowed_ips@ == self.allowed_ips@,
            r.route_allowed_ips == self.route_allowed_ips,
    {
        NodePullRequest {
            hostname: self.hostname.clone(),
            endpoint: self.endpoint.clone(),
            public_key: self.public_key.clone(),
            listen_port: self.listen_port,
            persistent_keepalive: self.persistent_keepalive,
            allowed_ips: clone_strings(&self.allowed_ips),
            route_allowed_ips: self.route_allowed_ips,
        }
    }

    /// Takes in the lighthouse's answer: the peer list is replaced by the response's, and the
    /// keys by `new_keys` where the lighthouse asked for rotation and a key pair was made.
    pub fn update_from_pull_response(
        &mut self,
        response: &NodePullResponse,
        new_keys: Option<KeyPair>,
    )
        ensures
            final(self).peers@.len() == response.peers@.len(),
            forall|i: int|
                0 <= i < response.peers@.len() ==> node_peer_from(
                    #[trigger] response.peers@[i],
                    final(self).peers@[i],
                ),
            response.regenerate_keys && new_keys is Some ==> final(self).private_key
                == new_keys->0.private_key && final(self).public_key == new_keys->0.public_key,
            !(response.regenerate_keys && new_keys is Some) ==> final(self).private_key == old(
                self,
            ).private_key && final(self).public_key == old(self).public_key,
            final(self).hostname == old(self).hostname,
            final(self).endpoint == old(self).endpoint,
            final(self).address == old(self).address,
            final(self).listen_port == old(self).listen_port,
            final(self).allowed_ips == old(self).allowed_ips,
    {
        if response.regenerate_keys {
            if let Some(keys) = new_keys {
                self.private_key = keys.private_key;
                self.public_key = keys.public_key;
            }
        }
        let mut peers: Vec<NodePeer> = Vec::new();
        let mut i: usize = 0;
        while i < response.peers.len()
            invariant
                i <= response.peers.len(),
                peers@.len() == i,
                forall|j: int|
                    0 <= j < i ==> node_peer_from(#[trigger] response.peers@[j], peers@[j]),
            decreases response.peers.len() - i,
        {
            let p = &response.peers[i];
            peers.push(
                NodePeer {
                    hostname: p.hostname.clone(),
                    public_key: p.public_key.clone(),
                    preshared_key: p.preshared_key.clone(),
                    endpoint_host: p.endpoint_host.clone(),
                    endpoint_port: p.endpoint_port,
                    allowed_ips: clone_strings(&p.allowed_ips),
                    persistent_keepalive: p.persistent_keepalive,
                    route_allowed_ips: p.route_allowed_ips,
                },
            );
            i += 1;
        }
        self.peers = peers;
    }

    /// The metrics push built from the local WireGuard dump: each peer named by its public key,
    /// the whole request validated.
    pub fn metrics_push_request_from_info(&self, info: WireguardInfo) -> (r: Result<
        NodeMetricsPushRequest,
        ValidationError,
    >)
        ensures
            r is Ok ==> r->Ok_0.check() is Ok,
            r is Ok ==> r->Ok_0.hostname@ == self.hostname@ && r->Ok_0.interface@ == info.interface@
                && r->Ok_0.listening_port == info.listening_port && r->Ok_0.peers@.len()
                == info.peers@.len(),
            r is Ok ==> forall|i: int|
                0 <= i < info.peers@.len() ==> {
                    let q = #[trigger] r->Ok_0.peers@[i];
                    let p = info.peers@[i];
                    &&& q.hostname@ == hostname_by_key(self.peers@, p.public_key@)
                    &&& q.endpoint@ == p.endpoint@
                    &&& q.latest_handshake == p.latest_handshake
                    &&& q.transfer_rx == p.transfer_rx
                    &&& q.transfer_tx == p.transfer_tx
                    &&& q.persistent_keepalive == p.persistent_keepalive
                },
            r is Err ==> exists|q: NodeMetricsPushRequest|
                #[trigger] q.check() == Err::<(), ValidationError>(r->Err_0) && q.hostname@
                    == self.hostname@,
    {
        let mut peers: Vec<NodeMetricsPushRequestPeer> = Vec::new();
        let mut i: usize = 0;
        while i < info.peers.len()
            invariant
                i <= info.peers.len(),
                peers@.len() == i,
                forall|j: int|
                    0 <= j < i ==> {
                        let q = #[trigger] peers@[j];
                        let p = info.peers@[j];
                        &&& q.hostname@ == hostname_by_key(self.peers@, p.public_key@)
                        &&& q.endpoint@ == p.endpoint@
                        &&& q.latest_handshake == p.latest_handshake
                        &&& q.transfer_rx == p.transfer_rx
                        &&& q.transfer_tx == p.transfer_tx
                        &&& q.persistent_keepalive == p.persistent_keepalive
                    },
            decreases info.peers.len() - i,
        {
            let p = &info.peers[i];
            peers.push(
                NodeMetricsPushRequestPeer {
                    hostname: self.get_hostname_by_public_key(p.public_key.as_str()),
                    endpoint: p.endpoint.clone(),
                    latest_handshake: p.latest_handshake,
                    transfer_rx: p.transfer_rx,
                    transfer_tx: p.transfer_tx,
                    persistent_keepalive: p.persistent_keepalive,
                },
            );
            i += 1;
        }
        let request = NodeMetricsPushRequest {
            hostname: self.hostname.clone(),
            interface: info.interface,
            listening_port: info.listening_port,
            peers,
        };
        match request.validate() {
            Ok(()) => Ok(request),
            Err(e) => Err(e),
        }
    }
}

/// The endpoint value that asks for public-IP discovery.
pub const DISCOVER_ENDPOINT: &'static str = "discover";

/// Whether the configured endpoint asks for public-IP discovery.
pub fn uses_endpoint_discovery(config: &NodeConfigFile) -> (r: bool)
    ensures
        r == (config.wireguard.endpoint@ == DISCOVER_ENDPOINT@),
{
    let d = String::from_str(DISCOVER_ENDPOINT);
    config.wireguard.endpoint == d
}

impl NodeState {
    /// The first state of a node: its configuration, hostname and fresh key pair, with the
    /// discovered public IP as endpoint where the configuration asks for discovery.
    /// Without a discovered address in that case there is no state.
    pub fn from_wireguard_config(
        config: &NodeConfigFile,
        hostname: String,
        keypair: KeyPair,
        discovered: Option<String>,
    ) -> (r: Option<NodeState>)
        ensures
            (config.wireguard.endpoint@ == DISCOVER_ENDPOINT@ && discovered is None) <==> r is None,
            r is Some ==> {
                let s = r->0;
                &&& s.hostname == hostname
                &&& s.private_key == keypair.private_key
                &&& s.public_key == keypair.public_key
                &&& s.address@ == config.wireguard.address@
                &&& s.endpoint@ == if config.wireguard.endpoint@ == DISCOVER_ENDPOINT@ {
                    discovered->0@
                } else {
                    config.wireguard.endpoint@
                }
                &&& s.listen_port == config.wireguard.listen_port
                &&& s.persistent_keepalive == config.wireguard.persistent_keepalive
                &&& s.allowed_ips@ == config.wireguard.allowed_ips@
                &&& s.route_allowed_ips == config.wireguard.route_allowed_ips
                &&& s.peers@.len() == 0
            },
    {
        let endpoint = if uses_endpoint_discovery(config) {
            match discovered {
                Some(ip) => ip,
                None => {
                    return None;
                },
            }
        } else {
            config.wireguard.endpoint.clone()
        };
        Some(
            NodeState {
                hostname,
                private_key: keypair.private_key,
                public_key: keypair.public_key,
                address: config.wireguard.address.clone(),
                endpoint,
                listen_port: config.wireguard.listen_port,
                persistent_keepalive: config.wireguard.persistent_keepalive,
                allowed_ips: clone_strings(&config.wireguard.allowed_ips),
                peers: Vec::new(),
                route_allowed_ips: config.wireguard.route_allowed_ips,
            },
        )
    }
}

} // verus!
