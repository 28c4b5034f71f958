use wgpull::backend::{
    parse_u32_text, uci_config_matches, uci_peer_from_values, uci_peer_section, UciError,
    check_lighthouse_reply, get_interface_netdev_contents, get_interface_network_contents,
    uci_config_from_state, PREAMBLE,
};
use wgpull::challenge::ChallengeResponse;
use wgpull::node::{
    uses_endpoint_discovery, AgentError, BackendType, KeyPair, NodeConfig, NodeConfigFile,
    NodePeer, NodeState, SystemdConfig, UciConfig, WireguardConfig,
};

fn peer(name: &str, ips: &[&str]) -> NodePeer {
    NodePeer {
        hostname: name.to_string(),
        public_key: format!("PK-{}", name),
        preshared_key: format!("PSK-{}", name),
        endpoint_host: "10.0.0.2".to_string(),
        endpoint_port: 51820,
        allowed_ips: ips.iter().map(|s| s.to_string()).collect(),
        persistent_keepalive: 25,
        route_allowed_ips: true,
    }
}

fn state(route: bool) -> NodeState {
    NodeState {
        hostname: "alpha".to_string(),
        private_key: "PRIV".to_string(),
        public_key: "PUB".to_string(),
        address: "10.1.0.1/24".to_string(),
        endpoint: "10.0.0.1".to_string(),
        listen_port: 51820,
        persistent_keepalive: 25,
        allowed_ips: vec![],
        peers: vec![peer("bravo", &["10.2.0.0/24", "10.3.0.0/24"])],
        route_allowed_ips: route,
    }
}

fn systemd() -> SystemdConfig {
    SystemdConfig {
        interface: "wg0".to_string(),
        path: "/etc/systemd/network".to_string(),
        reload_networkd: true,
        delete_interface_before_reload: false,
    }
}

#[test]
fn netdev_file_contents() {
    let text = get_interface_netdev_contents(&systemd(), &state(true));
    let expected = format!(
        "{}[NetDev]\nName = wg0\nKind = wireguard\nDescription = Wireguard Interface\n\n\
[WireGuard]\nPrivateKey = PRIV\nListenPort = 51820\n\n\
# Peer: bravo\n[WireGuardPeer]\nEndpoint = 10.0.0.2:51820\nPublicKey = PK-bravo\n\
PresharedKey = PSK-bravo\nAllowedIPs = 10.2.0.0/24, 10.3.0.0/24\nPersistentKeepalive = 25\n\n",
        PREAMBLE
    );
    assert_eq!(text, expected);
}

#[test]
fn network_file_contents() {
    let routed = get_interface_network_contents(&systemd(), &state(true));
    let expected = format!(
        "{}[Match]\nName = wg0\n[Network]\nAddress = 10.1.0.1/24\n\n\
\n[Route]\nDestination = 10.2.0.0/24\nScope=link\n\n\
\n[Route]\nDestination = 10.3.0.0/24\nScope=link\n\n",
        PREAMBLE
    );
    assert_eq!(routed, expected);
    let plain = get_interface_network_contents(&systemd(), &state(false));
    assert_eq!(plain, format!("{}[Match]\nName = wg0\n[Network]\nAddress = 10.1.0.1/24\n\n", PREAMBLE));
}

#[test]
fn uci_sections_follow_peers() {
    let cfg = uci_config_from_state(&state(true));
    assert_eq!(cfg.private_key, "PRIV");
    assert_eq!(cfg.addresses, "10.1.0.1/24");
    assert_eq!(cfg.peers.len(), 1);
    assert_eq!(cfg.peers[0].description, "bravo");
    assert_eq!(cfg.peers[0].allowed_ips.len(), 2);
}

#[test]
fn lighthouse_reply_checks() {
    let c = ChallengeResponse::with_challenge("nk".to_string(), "abc");
    let good = c.response();
    assert!(check_lighthouse_reply(&c, true, Some(&good)).is_ok());
    assert!(matches!(check_lighthouse_reply(&c, true, Some("00")), Err(AgentError::ChallengeResponseIncorrect)));
    assert!(matches!(check_lighthouse_reply(&c, true, None), Err(AgentError::NoChallengeResponse)));
    assert!(matches!(check_lighthouse_reply(&c, false, Some(&good)), Err(AgentError::ClientError(_))));
}

fn config_file(endpoint: &str) -> NodeConfigFile {
    NodeConfigFile {
        node: NodeConfig {
            lighthouse_host: "lh".to_string(),
            lighthouse_port: 8080,
            lighthouse_path_prefix: String::new(),
            lighthouse_ssl: false,
            lighthouse_key: "lk".to_string(),
            node_key: "nk".to_string(),
            pull_interval: 30,
            metrics_interval: 60,
            state_file: "node.toml".to_string(),
        },
        wireguard: WireguardConfig {
            backend: BackendType::Systemd,
            address: "10.1.0.1/24".to_string(),
            endpoint: endpoint.to_string(),
            listen_port: 51820,
            persistent_keepalive: 25,
            allowed_ips: vec!["10.1.0.0/24".to_string()],
            route_allowed_ips: true,
        },
        systemd: systemd(),
        uci: UciConfig { interface: "wg0".to_string() },
    }
}

#[test]
fn first_node_state_from_config() {
    let keys = || KeyPair { public_key: "PUB".to_string(), private_key: "PRIV".to_string() };
    let fixed = config_file("vpn.example.com");
    assert!(!uses_endpoint_discovery(&fixed));
    let s = NodeState::from_wireguard_config(&fixed, "alpha".to_string(), keys(), None).unwrap();
    assert_eq!(s.endpoint, "vpn.example.com");
    assert_eq!(s.public_key, "PUB");
    assert!(s.peers.is_empty());
    let disc = config_file("discover");
    assert!(uses_endpoint_discovery(&disc));
    assert!(NodeState::from_wireguard_config(&disc, "alpha".to_string(), keys(), None).is_none());
    let s = NodeState::from_wireguard_config(&disc, "alpha".to_string(), keys(), Some("203.0.113.9".to_string())).unwrap();
    assert_eq!(s.endpoint, "203.0.113.9");
}

#[test]
fn uci_section_lines() {
    assert_eq!(uci_peer_section("network.cfg1096fc=wireguard_wg0", "wg0"), Some("cfg1096fc".to_string()));
    assert_eq!(uci_peer_section("network.cfg1096fc=wireguard_wg1", "wg0"), None);
    assert_eq!(uci_peer_section("network.a.b=wireguard_wg0", "wg0"), None);
    assert_eq!(uci_peer_section("network.cfg=wireguard_wg0=x", "wg0"), None);
    assert_eq!(uci_peer_section("network.wan=interface", "wg0"), None);
}

#[test]
fn uci_read_back_and_compare() {
    let wanted = uci_config_from_state(&state(true));
    let peer = uci_peer_from_values(
        "bravo".to_string(),
        "PK-bravo".to_string(),
        "10.0.0.2".to_string(),
        "51820",
        "25",
        "1",
        "10.2.0.0/24 10.3.0.0/24",
    )
    .unwrap();
    let mut current = uci_config_from_state(&state(true));
    current.peers = vec![peer];
    assert!(uci_config_matches(&current, &wanted));
    current.peers[0].allowed_ips.pop();
    assert!(!uci_config_matches(&current, &wanted));
    assert!(matches!(
        uci_peer_from_values(String::new(), String::new(), String::new(), "x", "25", "0", ""),
        Err(UciError::ParseError)
    ));
    assert_eq!(parse_u32_text("51820"), Some(51820));
    assert_eq!(parse_u32_text("4294967296"), None);
}
